//! Per-row field formatting: the hex field (two lowercase hex digits per
//! byte, single-space separators, two-space placeholders for padding) and
//! the ascii field (printable bytes as themselves, `.` otherwise, spaces for
//! padding).

use vstd::prelude::*;

verus! {

/// The lowercase hexadecimal digit for a nibble.
pub open spec fn hex_digit(n: u8) -> char
    recommends
        n < 16,
{
    if n == 0 {
        '0'
    } else if n == 1 {
        '1'
    } else if n == 2 {
        '2'
    } else if n == 3 {
        '3'
    } else if n == 4 {
        '4'
    } else if n == 5 {
        '5'
    } else if n == 6 {
        '6'
    } else if n == 7 {
        '7'
    } else if n == 8 {
        '8'
    } else if n == 9 {
        '9'
    } else if n == 10 {
        'a'
    } else if n == 11 {
        'b'
    } else if n == 12 {
        'c'
    } else if n == 13 {
        'd'
    } else if n == 14 {
        'e'
    } else {
        'f'
    }
}

/// A byte's two-digit lowercase hexadecimal rendering, high nibble first.
pub open spec fn hex_pair(b: u8) -> Seq<char> {
    seq![hex_digit(b / 16), hex_digit(b % 16)]
}

/// The two-character group at position `g` of a row over `chunk`: the hex
/// pair of the byte when the chunk has one, a two-space placeholder past the
/// chunk's end.
pub open spec fn hex_group(chunk: Seq<u8>, g: int) -> Seq<char> {
    if 0 <= g < chunk.len() {
        hex_pair(chunk[g])
    } else {
        seq![' ', ' ']
    }
}

/// The hex field of a row: `cols` groups separated by single spaces; groups
/// beyond the chunk's end are two-space placeholders.
pub open spec fn hex_field(chunk: Seq<u8>, cols: nat) -> Seq<char>
    decreases cols,
{
    if cols == 0 {
        Seq::empty()
    } else {
        let rest = if chunk.len() > 0 {
            chunk.drop_first()
        } else {
            chunk
        };
        if cols == 1 {
            hex_group(chunk, 0)
        } else {
            hex_group(chunk, 0) + seq![' '] + hex_field(rest, (cols - 1) as nat)
        }
    }
}

/// A byte's rendering in the ascii field: its own character when printable
/// (0x20 through 0x7e inclusive), `.` otherwise.
pub open spec fn ascii_char(b: u8) -> char {
    if 0x20 <= b && b <= 0x7e {
        b as char
    } else {
        '.'
    }
}

/// The ascii field of a row: one character per column; positions beyond the
/// chunk's end hold a single space.
pub open spec fn ascii_field(chunk: Seq<u8>, cols: nat) -> Seq<char> {
    Seq::new(cols, |i: int| if i < chunk.len() { ascii_char(chunk[i]) } else { ' ' })
}

/// Relies on `String::push`: appends the given character to the end of the
/// string.
#[verifier::external_body]
fn push_char(s: &mut String, c: char)
    ensures
        final(s)@ == old(s)@.push(c),
{
    s.push(c);
}

/// The lowercase hexadecimal digit for a nibble, as executable code.
fn hex_digit_char(n: u8) -> (c: char)
    requires
        n < 16,
    ensures
        c == hex_digit(n),
{
    if n == 0 {
        '0'
    } else if n == 1 {
        '1'
    } else if n == 2 {
        '2'
    } else if n == 3 {
        '3'
    } else if n == 4 {
        '4'
    } else if n == 5 {
        '5'
    } else if n == 6 {
        '6'
    } else if n == 7 {
        '7'
    } else if n == 8 {
        '8'
    } else if n == 9 {
        '9'
    } else if n == 10 {
        'a'
    } else if n == 11 {
        'b'
    } else if n == 12 {
        'c'
    } else if n == 13 {
        'd'
    } else if n == 14 {
        'e'
    } else {
        'f'
    }
}

/// Appends group `g` of the row over `chunk` to `s`: the byte's hex pair
/// when `g` indexes the chunk, a two-space placeholder otherwise.
fn push_group(s: &mut String, chunk: &[u8], g: usize)
    ensures
        final(s)@ == old(s)@ + hex_group(chunk@, g as int),
{
    if g < chunk.len() {
        let b = chunk[g];
        push_char(s, hex_digit_char(b / 16));
        push_char(s, hex_digit_char(b % 16));
    } else {
        push_char(s, ' ');
        push_char(s, ' ');
    }
    assert(s@ =~= old(s)@ + hex_group(chunk@, g as int));
}

/// Growing the hex field by one more column appends a separator and the next
/// group.
proof fn lemma_hex_field_snoc(chunk: Seq<u8>, cols: nat)
    requires
        cols >= 1,
    ensures
        hex_field(chunk, cols + 1) == hex_field(chunk, cols) + seq![' '] + hex_group(
            chunk,
            cols as int,
        ),
    decreases cols,
{
    let rest = if chunk.len() > 0 {
        chunk.drop_first()
    } else {
        chunk
    };
    assert(hex_group(rest, cols - 1) =~= hex_group(chunk, cols as int));
    if cols == 1 {
        assert(hex_field(rest, 1) == hex_group(rest, 0));
        assert(hex_field(chunk, 2) =~= hex_field(chunk, 1) + seq![' '] + hex_group(chunk, 1));
    } else {
        lemma_hex_field_snoc(rest, (cols - 1) as nat);
        assert(hex_field(chunk, cols + 1) =~= hex_field(chunk, cols) + seq![' '] + hex_group(
            chunk,
            cols as int,
        ));
    }
}

/// Layout of the hex field: its width is `3 * cols - 1` regardless of how
/// short the chunk is; the two characters starting at `3 * g` are group `g`
/// (the hex pair of byte `g` of the chunk, or a two-space placeholder past
/// the chunk's end); single spaces separate consecutive groups, at the
/// indices congruent to 2 modulo 3.
pub proof fn lemma_hex_field_layout(chunk: Seq<u8>, cols: nat)
    requires
        cols >= 1,
    ensures
        hex_field(chunk, cols).len() == 3 * cols - 1,
        forall|g: int|
            0 <= g < cols ==> hex_field(chunk, cols).subrange(3 * g, 3 * g + 2) == hex_group(
                chunk,
                g,
            ),
        forall|k: int|
            0 <= k < 3 * cols - 1 && k % 3 == 2 ==> #[trigger] hex_field(chunk, cols)[k] == ' ',
    decreases cols,
{
    if cols == 1 {
        assert(hex_field(chunk, 1) == hex_group(chunk, 0));
        assert(hex_group(chunk, 0).len() == 2);
        assert forall|g: int| 0 <= g < 1 implies hex_field(chunk, cols).subrange(
            3 * g,
            3 * g + 2,
        ) == hex_group(chunk, g) by {
            assert(hex_field(chunk, 1).subrange(0, 2) =~= hex_group(chunk, 0));
        }
    } else {
        let prev = (cols - 1) as nat;
        lemma_hex_field_layout(chunk, prev);
        lemma_hex_field_snoc(chunk, prev);
        assert(hex_group(chunk, prev as int).len() == 2);
        let whole = hex_field(chunk, cols);
        let prefix = hex_field(chunk, prev);
        assert(whole == prefix + seq![' '] + hex_group(chunk, prev as int));
        assert forall|g: int| 0 <= g < cols implies whole.subrange(3 * g, 3 * g + 2) == hex_group(
            chunk,
            g,
        ) by {
            if g < prev {
                assert(whole.subrange(3 * g, 3 * g + 2) =~= prefix.subrange(3 * g, 3 * g + 2));
            } else {
                assert(whole.subrange(3 * g, 3 * g + 2) =~= hex_group(chunk, g));
            }
        }
        assert forall|k: int| 0 <= k < 3 * cols - 1 && k % 3 == 2 implies whole[k] == ' ' by {
            if k < 3 * prev - 1 {
                assert(whole[k] == prefix[k]);
            } else {
                assert(k == 3 * prev - 1);
                assert(whole[k] == ' ');
            }
        }
    }
}

/// Layout of the ascii field: its width is exactly `cols`; each position
/// within the chunk renders that byte through [`ascii_char`], and each
/// position past the chunk's end holds a single space.
pub proof fn lemma_ascii_field_layout(chunk: Seq<u8>, cols: nat)
    ensures
        ascii_field(chunk, cols).len() == cols,
        forall|i: int|
            0 <= i < chunk.len() && i < cols ==> ascii_field(chunk, cols)[i] == ascii_char(
                chunk[i],
            ),
        forall|i: int| chunk.len() <= i < cols ==> ascii_field(chunk, cols)[i] == ' ',
{
}

/// Builds the hex field of a row: `cols` groups separated by single spaces,
/// real bytes first, two-space placeholders for the padding tail.
pub fn render_hex_field(chunk: &[u8], cols: usize) -> (s: String)
    requires
        1 <= cols,
        chunk@.len() <= cols,
    ensures
        s@ == hex_field(chunk@, cols as nat),
{
    let mut s = String::new();
    push_group(&mut s, chunk, 0);
    let mut g: usize = 1;
    while g < cols
        invariant
            1 <= g <= cols,
            s@ == hex_field(chunk@, g as nat),
        decreases cols - g,
    {
        push_char(&mut s, ' ');
        push_group(&mut s, chunk, g);
        proof {
            lemma_hex_field_snoc(chunk@, g as nat);
        }
        g = g + 1;
    }
    s
}

/// Builds the ascii field of a row: one character per column, printable
/// bytes as themselves, `.` for other bytes, spaces for the padding tail.
pub fn render_ascii_field(chunk: &[u8], cols: usize) -> (s: String)
    requires
        chunk@.len() <= cols,
    ensures
        s@ == ascii_field(chunk@, cols as nat),
{
    let mut s = String::new();
    let mut i: usize = 0;
    while i < cols
        invariant
            i <= cols,
            chunk@.len() <= cols,
            s@ == ascii_field(chunk@, i as nat),
        decreases cols - i,
    {
        if i < chunk.len() {
            let b = chunk[i];
            let c = if 0x20 <= b && b <= 0x7e {
                b as char
            } else {
                '.'
            };
            push_char(&mut s, c);
        } else {
            push_char(&mut s, ' ');
        }
        assert(s@ =~= ascii_field(chunk@, (i + 1) as nat));
        i = i + 1;
    }
    s
}

} // verus!
