//! A hex dumper which calls a closure to allow the application to choose how
//! to output the dump.
//!
//! The library partitions a byte buffer into fixed-width rows. For each row it
//! produces the row's starting offset, a hex field (two lowercase hex digits
//! per byte, groups separated by single spaces), and an ascii field (printable
//! bytes as themselves, everything else as `.`). A short final row is padded
//! so every row's fields share the same width.
//!
//! Each row is handed to a caller-supplied closure, in offset order, via
//! [`hexdump_buf`]; [`hexdump_rows`] returns the same rows as a vector.

use vstd::prelude::*;

mod fields;
mod rows;

pub use fields::ascii_char;
pub use fields::ascii_field;
pub use fields::hex_digit;
pub use fields::hex_field;
pub use fields::hex_group;
pub use fields::hex_pair;
pub use fields::lemma_ascii_field_layout;
pub use fields::lemma_hex_field_layout;
pub use rows::hexdump_rows;
pub use rows::lemma_ascii_rendering;
pub use rows::lemma_empty_input;
pub use rows::lemma_full_row_groups;
pub use rows::lemma_full_rows;
pub use rows::lemma_offsets_ascend;
pub use rows::lemma_row_count;
pub use rows::lemma_row_structure;
pub use rows::lemma_row_widths;
pub use rows::lemma_rows_cover_input;
pub use rows::lemma_zero_columns;
pub use rows::row_chunk;
pub use rows::row_chunk_extent;
pub use rows::row_models;
pub use rows::spec_rows;

verus! {

/// Hex dumper configuration context.
pub struct Config {
    /// Number of columns in hex dump.  Defaults to 16.
    pub cols: usize,
    /// A base offset.  Defaults to 0.  If it's useful to display the
    /// addresses of a dumped buffer, this can be set to the initial address
    /// of the buffer.
    pub offs: usize,
}

impl Default for Config {
    fn default() -> (c: Config)
        ensures
            c.cols == 16,
            c.offs == 0,
    {
        Config { cols: 16, offs: 0 }
    }
}

/// Generate a hex dump of a byte buffer (`&[u8]`) and call a closure to
/// process each hex dump line.
///
/// The closure is invoked once per row of [`spec_rows`], in offset order:
/// rows are exactly those that [`hexdump_rows`] returns, and the closure
/// need only accept those. `cols == 0` and empty input both produce no
/// invocation at all.
pub fn hexdump_buf<F: Fn(usize, &str, &str)>(cfg: &Config, buf: &[u8], f: F)
    requires
        cfg.cols == 0 || cfg.offs + buf@.len() <= usize::MAX,
        forall|o: usize, h: &str, a: &str|
            spec_rows(buf@, cfg.cols as nat, cfg.offs as nat).contains((o as nat, h@, a@))
                ==> #[trigger] call_requires(f, (o, h, a)),
{
    let rows = hexdump_rows(cfg, buf);
    let ghost model = spec_rows(buf@, cfg.cols as nat, cfg.offs as nat);
    let mut k: usize = 0;
    while k < rows.len()
        invariant
            row_models(rows@) == model,
            model == spec_rows(buf@, cfg.cols as nat, cfg.offs as nat),
            forall|o: usize, h: &str, a: &str|
                model.contains((o as nat, h@, a@)) ==> #[trigger] call_requires(f, (o, h, a)),
            k <= rows@.len(),
        decreases rows@.len() - k,
    {
        let row = &rows[k];
        proof {
            assert(row_models(rows@)[k as int] == (row.0 as nat, row.1@, row.2@));
            assert(model.contains((row.0 as nat, row.1@, row.2@)));
        }
        f(row.0, row.1.as_str(), row.2.as_str());
        k = k + 1;
    }
}

} // verus!
