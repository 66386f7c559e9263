use mbtiles_tool::payload::{is_gzip, maybe_compress, maybe_decompress};

#[test]
fn compress_then_decompress() {
    let data = b"hello vector tiles".to_vec();
    let gz = maybe_compress(data.clone());
    assert_ne!(gz, data);
    assert!(is_gzip(&gz));
    assert_eq!(maybe_decompress(gz.clone()).unwrap(), data);
    // already compressed: left alone
    assert_eq!(maybe_compress(gz.clone()), gz);
}

#[test]
fn bare_payload_is_not_decompressed() {
    let data = vec![0x1a, 0x02, 0x03];
    assert_eq!(maybe_decompress(data.clone()).unwrap(), data);
}

#[test]
fn short_payloads_are_not_gzip() {
    assert!(!is_gzip(&[]));
    assert!(!is_gzip(&[0x1f]));
    assert!(!is_gzip(&[0x1f, 0x00]));
    assert!(!is_gzip(&[0x00, 0x8b]));
    assert!(is_gzip(&[0x1f, 0x8b]));
    let gz = maybe_compress(vec![0x1f]);
    assert!(is_gzip(&gz));
    assert_eq!(maybe_decompress(gz).unwrap(), vec![0x1f]);
    assert_eq!(maybe_decompress(vec![]).unwrap(), Vec::<u8>::new());
}

#[test]
fn broken_gzip_fails() {
    assert_eq!(maybe_decompress(vec![0x1f, 0x8b, 0, 0]), None);
}
