use dbgtools_hexdump::Config;
use dbgtools_hexdump::hexdump_buf;
use dbgtools_hexdump::hexdump_rows;
use std::cell::RefCell;

fn collect(cfg: &Config, buf: &[u8]) -> Vec<(usize, String, String)> {
    let sink: RefCell<Vec<(usize, String, String)>> = RefCell::new(Vec::new());
    hexdump_buf(cfg, buf, |offs, hex, ascii| {
        sink.borrow_mut().push((offs, hex.to_string(), ascii.to_string()));
    });
    sink.into_inner()
}

#[test]
fn one_row_padding() {
    let data: &[u8] = &[1, 2, 3, 4, 5, 6, 7, 8];
    let rows = collect(&Config::default(), data);
    assert_eq!(rows.len(), 1);
    assert_eq!(rows[0].0, 0);
    let expected_hex = format!("01 02 03 04 05 06 07 08{}", " ".repeat(24));
    assert_eq!(rows[0].1, expected_hex);
    assert_eq!(rows[0].2, "........        ");
}

#[test]
fn packed_fields_layout() {
    let eight: u8 = 8;
    let sixteen: u16 = 16;
    let thirtytwo: u32 = 32;
    let mut data: Vec<u8> = Vec::new();
    data.push(eight);
    data.extend_from_slice(&sixteen.to_le_bytes());
    data.extend_from_slice(&thirtytwo.to_le_bytes());
    assert_eq!(data, vec![0x08, 0x10, 0x00, 0x20, 0x00, 0x00, 0x00]);
    let rows = collect(&Config::default(), &data);
    assert_eq!(rows.len(), 1);
    assert_eq!(rows[0].0, 0);
    let expected_hex = format!("08 10 00 20 00 00 00{}", " ".repeat(27));
    assert_eq!(rows[0].1, expected_hex);
    assert_eq!(rows[0].2, format!("... ...{}", " ".repeat(9)));
}

#[test]
fn three_rows_short_tail() {
    let data: Vec<u8> = (0u8..10).collect();
    let cfg = Config { cols: 4, offs: 0 };
    let rows = collect(&cfg, &data);
    assert_eq!(rows.len(), 3);
    assert_eq!(rows[0].0, 0);
    assert_eq!(rows[1].0, 4);
    assert_eq!(rows[2].0, 8);
    assert_eq!(rows[0].1, "00 01 02 03");
    assert_eq!(rows[1].1, "04 05 06 07");
    assert_eq!(rows[2].1, "08 09      ");
    assert_eq!(rows[0].2, "....");
    assert_eq!(rows[1].2, "....");
    assert_eq!(rows[2].2, "..  ");
}

#[test]
fn zero_columns_no_rows() {
    let data: &[u8] = &[1, 2, 3];
    let cfg = Config { cols: 0, offs: 0 };
    let rows = collect(&cfg, data);
    assert_eq!(rows.len(), 0);
}

#[test]
fn empty_input_no_rows() {
    let data: &[u8] = &[];
    let rows = collect(&Config::default(), data);
    assert_eq!(rows.len(), 0);
}

#[test]
fn printable_range_boundaries() {
    let data: &[u8] = &[0x1f, 0x20, 0x7e, 0x7f, 0x41];
    let cfg = Config { cols: 8, offs: 0 };
    let rows = collect(&cfg, data);
    assert_eq!(rows.len(), 1);
    assert_eq!(rows[0].1, "1f 20 7e 7f 41         ");
    assert_eq!(rows[0].2, ". ~.A   ");
}

#[test]
fn base_offset_accumulates() {
    let data: Vec<u8> = (0u8..10).collect();
    let cfg = Config { cols: 4, offs: 1000 };
    let rows = collect(&cfg, &data);
    assert_eq!(rows.len(), 3);
    assert_eq!(rows[0].0, 1000);
    assert_eq!(rows[1].0, 1004);
    assert_eq!(rows[2].0, 1008);
}

#[test]
fn default_config_values() {
    let cfg = Config::default();
    assert_eq!(cfg.cols, 16);
    assert_eq!(cfg.offs, 0);
}

#[test]
fn hex_digits_exact() {
    let data: &[u8] = &[0x00, 0xff, 0xab, 0x5c];
    let cfg = Config { cols: 4, offs: 0 };
    let rows = collect(&cfg, data);
    assert_eq!(rows.len(), 1);
    assert_eq!(rows[0].1, "00 ff ab 5c");
    assert_eq!(rows[0].2, "...\\");
}

#[test]
fn base_offset_near_limit() {
    let data: &[u8] = &[0x10, 0x11, 0x12, 0x13];
    let cfg = Config { cols: 4, offs: usize::MAX - 4 };
    let rows = collect(&cfg, data);
    assert_eq!(rows.len(), 1);
    assert_eq!(rows[0].0, usize::MAX - 4);
    assert_eq!(rows[0].1, "10 11 12 13");
}

#[test]
fn rows_vector_matches_sink() {
    let data: Vec<u8> = (0u8..37).map(|b| b.wrapping_mul(7)).collect();
    let cfg = Config { cols: 5, offs: 12 };
    let from_sink = collect(&cfg, &data);
    let cfg2 = Config { cols: 5, offs: 12 };
    let from_vec = hexdump_rows(&cfg2, &data);
    assert_eq!(from_sink, from_vec);
    assert_eq!(from_vec.len(), 8);
    for k in 1..from_vec.len() {
        assert!(from_vec[k - 1].0 < from_vec[k].0);
        assert_eq!(from_vec[k].1.len(), from_vec[0].1.len());
        assert_eq!(from_vec[k].2.chars().count(), 5);
    }
}
