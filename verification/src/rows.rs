//! Row chunking: partitioning a byte buffer into fixed-width rows, each with
//! its starting offset, hex field and ascii field.

use vstd::prelude::*;

use crate::Config;
use crate::fields::ascii_char;
use crate::fields::ascii_field;
use crate::fields::hex_field;
use crate::fields::hex_group;
use crate::fields::hex_pair;
use crate::fields::lemma_ascii_field_layout;
use crate::fields::lemma_hex_field_layout;
use crate::fields::render_ascii_field;
use crate::fields::render_hex_field;
use vstd::arithmetic::div_mod::lemma_fundamental_div_mod;
use vstd::arithmetic::div_mod::lemma_fundamental_div_mod_converse;
use vstd::arithmetic::div_mod::lemma_mod_pos_bound;
use vstd::arithmetic::mul::lemma_mul_inequality;

verus! {

/// The rows of a hex dump of `bytes` with `cols` columns, offsets starting
/// at `offs`: each row is (offset, hex field, ascii field) over one chunk of
/// at most `cols` bytes, in input order. Zero columns yield no rows.
pub open spec fn spec_rows(bytes: Seq<u8>, cols: nat, offs: nat) -> Seq<(nat, Seq<char>, Seq<char>)>
    decreases bytes.len(),
{
    if cols == 0 || bytes.len() == 0 {
        Seq::empty()
    } else {
        let take = if bytes.len() < cols {
            bytes.len()
        } else {
            cols
        };
        let chunk = bytes.take(take as int);
        seq![(offs, hex_field(chunk, cols), ascii_field(chunk, cols))] + spec_rows(
            bytes.skip(take as int),
            cols,
            offs + take,
        )
    }
}

/// The chunk of input bytes behind row `i`: up to `cols` bytes starting at
/// position `i * cols`.
pub open spec fn row_chunk(bytes: Seq<u8>, cols: nat, i: int) -> Seq<u8> {
    bytes.subrange(
        i * cols,
        if (i + 1) * cols <= bytes.len() {
            (i + 1) * cols
        } else {
            bytes.len() as int
        },
    )
}

/// The extent of the chunk behind row `i`: it starts at position `i * cols`
/// of the input, within bounds, and holds `cols` bytes unless it is the last
/// chunk of an input whose length is no multiple of `cols`, in which case it
/// holds the remainder.
pub open spec fn row_chunk_extent(bytes: Seq<u8>, cols: nat, i: int) -> bool {
    &&& 0 <= i * cols
    &&& i * cols < bytes.len()
    &&& row_chunk(bytes, cols, i).len() == (if (i + 1) * cols <= bytes.len() {
        cols as int
    } else {
        bytes.len() - i * cols
    })
}

/// The mathematical reading of rendered rows: the offset as a natural
/// number, each field as its character sequence.
pub open spec fn row_models(rs: Seq<(usize, String, String)>) -> Seq<(nat, Seq<char>, Seq<char>)> {
    rs.map_values(|r: (usize, String, String)| (r.0 as nat, r.1@, r.2@))
}

/// With at least one column, the number of rows is the length of the input
/// divided by the column count, rounded up.
pub proof fn lemma_row_count(bytes: Seq<u8>, cols: nat, offs: nat)
    requires
        cols >= 1,
    ensures
        spec_rows(bytes, cols, offs).len() == (bytes.len() + cols - 1) / (cols as int),
    decreases bytes.len(),
{
    let n = bytes.len() as int;
    let c = cols as int;
    if n == 0 {
        lemma_fundamental_div_mod_converse(c - 1, c, 0, c - 1);
    } else if n <= c {
        let rest = bytes.skip(n);
        assert(rest.len() == 0);
        assert(spec_rows(rest, cols, (offs + bytes.len()) as nat).len() == 0);
        lemma_fundamental_div_mod_converse(n + c - 1, c, 1, n - 1);
    } else {
        lemma_row_count(bytes.skip(c), cols, (offs + cols) as nat);
        assert(bytes.skip(c).len() == n - c);
        let q = (n - 1) / c;
        let r = (n - 1) % c;
        lemma_fundamental_div_mod(n - 1, c);
        lemma_mod_pos_bound(n - 1, c);
        assert(c * q == q * c) by (nonlinear_arith);
        assert((q + 1) * c == q * c + c) by (nonlinear_arith);
        lemma_fundamental_div_mod_converse(n + c - 1, c, q + 1, r);
    }
}

/// Every row except possibly the last one consumes exactly `cols` bytes of
/// input: its chunk is full.
pub proof fn lemma_full_rows(bytes: Seq<u8>, cols: nat, offs: nat)
    requires
        cols >= 1,
    ensures
        forall|i: int|
            0 <= i < spec_rows(bytes, cols, offs).len() - 1 ==> (#[trigger] row_chunk(
                bytes,
                cols,
                i,
            )).len() == cols,
{
    lemma_row_count(bytes, cols, offs);
    let n = bytes.len() as int;
    let c = cols as int;
    let nrows = (n + c - 1) / c;
    lemma_fundamental_div_mod(n + c - 1, c);
    lemma_mod_pos_bound(n + c - 1, c);
    assert forall|i: int| 0 <= i < nrows - 1 implies (#[trigger] row_chunk(bytes, cols, i)).len()
        == cols by {
        lemma_mul_inequality(i + 1, nrows - 1, c);
        assert((nrows - 1) * c == nrows * c - c) by (nonlinear_arith);
        assert(c * nrows == nrows * c) by (nonlinear_arith);
        assert((i + 1) * c == i * c + c) by (nonlinear_arith);
        assert(0 <= i * c) by (nonlinear_arith)
            requires
                0 <= i,
                0 <= c,
        ;
        assert((i + 1) * c <= n - 1);
        assert(row_chunk(bytes, cols, i).len() == cols);
    }
}

/// Each row of the dump in closed form: row `i` carries offset
/// `offs + i * cols`, the hex field of its chunk, and the ascii field of its
/// chunk, where the chunk holds the input bytes from position `i * cols` on:
/// `cols` of them while that many remain, all that remain in the last row.
pub proof fn lemma_row_structure(bytes: Seq<u8>, cols: nat, offs: nat)
    requires
        cols >= 1,
    ensures
        forall|i: int|
            0 <= i < spec_rows(bytes, cols, offs).len() ==> #[trigger] row_chunk_extent(
                bytes,
                cols,
                i,
            ),
        forall|i: int|
            0 <= i < spec_rows(bytes, cols, offs).len() ==> #[trigger] spec_rows(
                bytes,
                cols,
                offs,
            )[i] == ((offs + i * cols) as nat, hex_field(row_chunk(bytes, cols, i), cols),
            ascii_field(row_chunk(bytes, cols, i), cols)),
    decreases bytes.len(),
{
    let n = bytes.len() as int;
    let c = cols as int;
    if n == 0 {
        assert(spec_rows(bytes, cols, offs).len() == 0);
    } else {
        let take: int = if n < c {
            n
        } else {
            c
        };
        let rest = bytes.skip(take);
        let rest_rows = spec_rows(rest, cols, (offs + take) as nat);
        lemma_row_structure(rest, cols, (offs + take) as nat);
        assert(spec_rows(bytes, cols, offs).len() == 1 + rest_rows.len());
        if n <= c {
            assert(rest.len() == 0);
            assert(rest_rows.len() == 0);
        }
        assert forall|i: int| 0 <= i < spec_rows(bytes, cols, offs).len() implies #[trigger]
        row_chunk_extent(bytes, cols, i) by {
            if i == 0 {
                assert(i * c == 0) by (nonlinear_arith)
                    requires
                        i == 0,
                ;
                assert((i + 1) * c == c) by (nonlinear_arith)
                    requires
                        i == 0,
                ;
            } else {
                assert(take == c);
                assert((i - 1) * c == i * c - c) by (nonlinear_arith);
                assert((i + 1) * c == i * c + c) by (nonlinear_arith);
                assert(0 <= i - 1 < rest_rows.len());
                assert(row_chunk_extent(rest, cols, i - 1));
                assert(row_chunk(rest, cols, i - 1) =~= row_chunk(bytes, cols, i));
            }
        }
        assert forall|i: int| 0 <= i < spec_rows(bytes, cols, offs).len() implies #[trigger]
        spec_rows(bytes, cols, offs)[i] == ((offs + i * cols) as nat, hex_field(
            row_chunk(bytes, cols, i),
            cols,
        ), ascii_field(row_chunk(bytes, cols, i), cols)) by {
            if i == 0 {
                assert(i * c == 0) by (nonlinear_arith)
                    requires
                        i == 0,
                ;
                assert((i + 1) * c == c) by (nonlinear_arith)
                    requires
                        i == 0,
                ;
                assert(bytes.take(take) =~= row_chunk(bytes, cols, i));
            } else {
                assert(take == c);
                assert(spec_rows(bytes, cols, offs)[i] == rest_rows[i - 1]);
                assert((i - 1) * c == i * c - c) by (nonlinear_arith);
                assert((i + 1) * c == i * c + c) by (nonlinear_arith);
                assert(row_chunk_extent(rest, cols, i - 1));
                assert(row_chunk(rest, cols, i - 1) =~= row_chunk(bytes, cols, i));
            }
        }
    }
}

/// All rows share one rendered width: every hex field is `3 * cols - 1`
/// characters and every ascii field is `cols` characters, however short the
/// final chunk is.
pub proof fn lemma_row_widths(bytes: Seq<u8>, cols: nat, offs: nat)
    requires
        cols >= 1,
    ensures
        forall|i: int|
            0 <= i < spec_rows(bytes, cols, offs).len() ==> (#[trigger] spec_rows(
                bytes,
                cols,
                offs,
            )[i]).1.len() == 3 * cols - 1 && spec_rows(bytes, cols, offs)[i].2.len() == cols,
{
    lemma_row_structure(bytes, cols, offs);
    assert forall|i: int| 0 <= i < spec_rows(bytes, cols, offs).len() implies (#[trigger] spec_rows(
        bytes,
        cols,
        offs,
    )[i]).1.len() == 3 * cols - 1 && spec_rows(bytes, cols, offs)[i].2.len() == cols by {
        lemma_hex_field_layout(row_chunk(bytes, cols, i), cols);
        lemma_ascii_field_layout(row_chunk(bytes, cols, i), cols);
    }
}

/// Row offsets start at the base offset and ascend strictly: each row's
/// offset exceeds the previous one's by exactly the number of real input
/// bytes in the previous row.
pub proof fn lemma_offsets_ascend(bytes: Seq<u8>, cols: nat, offs: nat)
    requires
        cols >= 1,
    ensures
        spec_rows(bytes, cols, offs).len() > 0 ==> spec_rows(bytes, cols, offs)[0].0 == offs,
        forall|i: int|
            0 <= i && i + 1 < spec_rows(bytes, cols, offs).len() ==> spec_rows(bytes, cols, offs)[i
                + 1].0 == spec_rows(bytes, cols, offs)[i].0 + (#[trigger] row_chunk(
                bytes,
                cols,
                i,
            )).len() && spec_rows(bytes, cols, offs)[i].0 < spec_rows(bytes, cols, offs)[i + 1].0,
{
    lemma_row_structure(bytes, cols, offs);
    lemma_full_rows(bytes, cols, offs);
    let c = cols as int;
    if spec_rows(bytes, cols, offs).len() > 0 {
        assert(0 * c == 0) by (nonlinear_arith);
    }
    assert forall|i: int| 0 <= i && i + 1 < spec_rows(bytes, cols, offs).len() implies spec_rows(
        bytes,
        cols,
        offs,
    )[i + 1].0 == spec_rows(bytes, cols, offs)[i].0 + (#[trigger] row_chunk(bytes, cols, i)).len()
        && spec_rows(bytes, cols, offs)[i].0 < spec_rows(bytes, cols, offs)[i + 1].0 by {
        assert((i + 1) * c == i * c + c) by (nonlinear_arith);
        assert(0 <= i * c) by (nonlinear_arith)
            requires
                0 <= i,
                0 <= c,
        ;
    }
}

/// The row chunks partition the input: concatenated in row order they give
/// back exactly the input bytes, so the per-row consumed byte counts sum to
/// the input length.
pub proof fn lemma_rows_cover_input(bytes: Seq<u8>, cols: nat, offs: nat)
    requires
        cols >= 1,
    ensures
        Seq::new(spec_rows(bytes, cols, offs).len(), |i: int| row_chunk(bytes, cols, i)).flatten()
            == bytes,
    decreases bytes.len(),
{
    let n = bytes.len() as int;
    let c = cols as int;
    let chunks = Seq::new(spec_rows(bytes, cols, offs).len(), |i: int| row_chunk(bytes, cols, i));
    if n == 0 {
        assert(chunks.flatten() =~= bytes);
    } else {
        let take: int = if n < c {
            n
        } else {
            c
        };
        let rest = bytes.skip(take);
        lemma_rows_cover_input(rest, cols, (offs + take) as nat);
        lemma_row_structure(bytes, cols, offs);
        lemma_row_structure(rest, cols, (offs + take) as nat);
        let rest_chunks = Seq::new(
            spec_rows(rest, cols, (offs + take) as nat).len(),
            |i: int| row_chunk(rest, cols, i),
        );
        assert(chunks.len() == 1 + rest_chunks.len());
        assert forall|j: int| 0 <= j < rest_chunks.len() implies chunks.drop_first()[j]
            == rest_chunks[j] by {
            if n <= c {
                assert(rest.len() == 0);
                assert(spec_rows(rest, cols, (offs + take) as nat).len() == 0);
                assert(false);
            }
            assert(take == c);
            assert(j * c == (j + 1) * c - c) by (nonlinear_arith);
            assert((j + 2) * c == (j + 1) * c + c) by (nonlinear_arith);
            assert(row_chunk_extent(rest, cols, j));
            assert(row_chunk(rest, cols, j) =~= row_chunk(bytes, cols, j + 1));
        }
        assert(chunks.drop_first() =~= rest_chunks);
        assert(chunks[0] == row_chunk(bytes, cols, 0));
        assert(row_chunk_extent(bytes, cols, 0));
        assert(chunks.first() =~= bytes.take(take));
        assert(chunks.flatten() == chunks.first() + chunks.drop_first().flatten());
        assert(chunks.flatten() =~= bytes);
    }
}

/// Zero columns yield no rows at all, whatever the input.
pub proof fn lemma_zero_columns(bytes: Seq<u8>, offs: nat)
    ensures
        spec_rows(bytes, 0, offs) == Seq::<(nat, Seq<char>, Seq<char>)>::empty(),
{
}

/// Empty input yields no rows at all, whatever the column count.
pub proof fn lemma_empty_input(cols: nat, offs: nat)
    ensures
        spec_rows(Seq::<u8>::empty(), cols, offs) == Seq::<(nat, Seq<char>, Seq<char>)>::empty(),
{
}

/// Within every row, each ascii field position that covers a real input byte
/// renders that byte through [`ascii_char`]: as itself when printable (0x20
/// through 0x7e inclusive), as `.` otherwise.
pub proof fn lemma_ascii_rendering(bytes: Seq<u8>, cols: nat, offs: nat)
    requires
        cols >= 1,
    ensures
        forall|i: int, j: int|
            0 <= i < spec_rows(bytes, cols, offs).len() && 0 <= j
                < (#[trigger] row_chunk(bytes, cols, i)).len() ==> spec_rows(bytes, cols, offs)[i].2[j]
                == ascii_char(#[trigger] row_chunk(bytes, cols, i)[j]),
{
    lemma_row_structure(bytes, cols, offs);
    assert forall|i: int, j: int|
        0 <= i < spec_rows(bytes, cols, offs).len() && 0 <= j < (#[trigger] row_chunk(
            bytes,
            cols,
            i,
        )).len() implies spec_rows(bytes, cols, offs)[i].2[j] == ascii_char(
        #[trigger] row_chunk(bytes, cols, i)[j],
    ) by {
        let chunk = row_chunk(bytes, cols, i);
        let c = cols as int;
        assert((i + 1) * c == i * c + c) by (nonlinear_arith);
        assert(row_chunk_extent(bytes, cols, i));
        assert(chunk.len() <= cols);
        lemma_ascii_field_layout(chunk, cols);
    }
}

/// Within every row but possibly the last, group `g` of the hex field is the
/// two-digit lowercase hex pair of byte `g` of that row's chunk.
pub proof fn lemma_full_row_groups(bytes: Seq<u8>, cols: nat, offs: nat)
    requires
        cols >= 1,
    ensures
        forall|i: int, g: int|
            0 <= i < spec_rows(bytes, cols, offs).len() - 1 && 0 <= g < cols ==> spec_rows(
                bytes,
                cols,
                offs,
            )[i].1.subrange(3 * g, 3 * g + 2) == hex_pair(
                #[trigger] row_chunk(bytes, cols, i)[g],
            ),
{
    lemma_row_structure(bytes, cols, offs);
    lemma_full_rows(bytes, cols, offs);
    assert forall|i: int, g: int|
        0 <= i < spec_rows(bytes, cols, offs).len() - 1 && 0 <= g < cols implies spec_rows(
        bytes,
        cols,
        offs,
    )[i].1.subrange(3 * g, 3 * g + 2) == hex_pair(#[trigger] row_chunk(bytes, cols, i)[g]) by {
        let chunk = row_chunk(bytes, cols, i);
        lemma_hex_field_layout(chunk, cols);
        assert(hex_group(chunk, g) == hex_pair(chunk[g]));
    }
}

/// Generate the hex dump rows of a byte buffer as a vector, in offset
/// order: exactly the rows of [`spec_rows`].
pub fn hexdump_rows(cfg: &Config, buf: &[u8]) -> (rows: Vec<(usize, String, String)>)
    requires
        cfg.cols == 0 || cfg.offs + buf@.len() <= usize::MAX,
    ensures
        row_models(rows@) == spec_rows(buf@, cfg.cols as nat, cfg.offs as nat),
{
    let mut rows: Vec<(usize, String, String)> = Vec::new();
    if cfg.cols == 0 {
        assert(row_models(rows@) =~= spec_rows(buf@, cfg.cols as nat, cfg.offs as nat));
        return rows;
    }
    let cols = cfg.cols;
    let mut i: usize = 0;
    proof {
        assert(buf@.skip(0) =~= buf@);
        assert(row_models(rows@) =~= Seq::<(nat, Seq<char>, Seq<char>)>::empty());
        assert(row_models(rows@) + spec_rows(buf@, cols as nat, cfg.offs as nat) =~= spec_rows(
            buf@,
            cols as nat,
            cfg.offs as nat,
        ));
    }
    while i < buf.len()
        invariant
            cols == cfg.cols,
            cols > 0,
            i <= buf@.len(),
            cfg.offs + buf@.len() <= usize::MAX,
            spec_rows(buf@, cols as nat, cfg.offs as nat) == row_models(rows@) + spec_rows(
                buf@.skip(i as int),
                cols as nat,
                (cfg.offs + i) as nat,
            ),
        decreases buf@.len() - i,
    {
        let remaining = buf.len() - i;
        let take = if remaining < cols {
            remaining
        } else {
            cols
        };
        let chunk = vstd::slice::slice_subrange(buf, i, i + take);
        let hex = render_hex_field(chunk, cols);
        let ascii = render_ascii_field(chunk, cols);
        let offset = cfg.offs + i;
        proof {
            let rest = buf@.skip(i as int);
            assert(chunk@ =~= rest.take(take as int));
            assert(rest.skip(take as int) =~= buf@.skip((i + take) as int));
            assert(spec_rows(rest, cols as nat, (cfg.offs + i) as nat) == seq![
                ((cfg.offs + i) as nat, hex_field(chunk@, cols as nat), ascii_field(
                    chunk@,
                    cols as nat,
                )),
            ] + spec_rows(
                buf@.skip((i + take) as int),
                cols as nat,
                (cfg.offs + i + take) as nat,
            ));
        }
        let ghost old_rows = rows@;
        rows.push((offset, hex, ascii));
        proof {
            assert(row_models(rows@) =~= row_models(old_rows) + seq![
                (offset as nat, hex@, ascii@),
            ]);
            assert(spec_rows(buf@, cols as nat, cfg.offs as nat) =~= row_models(rows@)
                + spec_rows(
                buf@.skip((i + take) as int),
                cols as nat,
                (cfg.offs + i + take) as nat,
            ));
        }
        i = i + take;
    }
    proof {
        assert(buf@.skip(i as int) =~= Seq::<u8>::empty());
        assert(spec_rows(buf@.skip(i as int), cols as nat, (cfg.offs + i) as nat)
            =~= Seq::<(nat, Seq<char>, Seq<char>)>::empty());
        assert(row_models(rows@) =~= spec_rows(buf@, cols as nat, cfg.offs as nat));
    }
    rows
}

} // verus!
