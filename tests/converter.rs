use mbtiles_tool::converter::{parse_decimal_u32, parse_tile_path};

#[test]
fn decimal_numbers() {
    assert_eq!(parse_decimal_u32(b"0"), Some(0));
    assert_eq!(parse_decimal_u32(b"6448"), Some(6448));
    assert_eq!(parse_decimal_u32(b"4294967295"), Some(u32::MAX));
    assert_eq!(parse_decimal_u32(b"4294967296"), None);
    assert_eq!(parse_decimal_u32(b""), None);
    assert_eq!(parse_decimal_u32(b"12a"), None);
    assert_eq!(parse_decimal_u32(b"-1"), None);
}

#[test]
fn tile_paths() {
    assert_eq!(parse_tile_path(b"12/345/678.pbf"), Some((345, 678, 12)));
    assert_eq!(parse_tile_path(b"0/0/0.mvt"), Some((0, 0, 0)));
    assert_eq!(parse_tile_path(b"12/345/678.png"), None);
    assert_eq!(parse_tile_path(b"a/1/2.pbf"), None);
    assert_eq!(parse_tile_path(b"1/2/3/4.mvt"), None);
    assert_eq!(parse_tile_path(b"1/2.pbf"), None);
    assert_eq!(parse_tile_path(b"metadata.json"), None);
}
