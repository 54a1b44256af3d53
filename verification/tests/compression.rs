use rust_dns::compression::{compress_domain, decompress, is_pointer, CompressedName};
use rust_dns::error::{DnsError, ParseError};

#[test]
fn test_compress_domain_google_dns() {
    let output = compress_domain("dns.google.com").unwrap();
    let expected = [
        3, b'd', b'n', b's', 6, b'g', b'o', b'o', b'g', b'l', b'e', 3, b'c', b'o', b'm', 0,
    ];
    assert_eq!(output.as_slice(), expected);
}

#[test]
fn test_compress_domain_nrk_no() {
    let output = compress_domain("nrk.no").unwrap();
    let expected = [3, b'n', b'r', b'k', 2, b'n', b'o', 0];
    assert_eq!(output.as_slice(), expected);
}

#[test]
fn compression_test_decompress_domain() {
    let message = [
        1, b'f', 3, b'i', b's', b'i', 4, b'a', b'r', b'p', b'a', 0, 3, b'f', b'o', b'o',
        0b11000000, 0, 0,
    ];
    let pointer = &message[12..18];
    let output = decompress(pointer, &message).unwrap();
    let expected = CompressedName(vec![message[12..12 + 4].to_vec(), message[..12].to_vec()]);

    assert_eq!(output, expected);
}

#[test]
fn test_compress_empty_domain() {
    let output = compress_domain("").unwrap();
    assert_eq!(output.as_slice(), [0]);
}

#[test]
fn test_compress_label_too_long() {
    // A label of exactly 64 bytes is rejected at encode time.
    let label = "a".repeat(64);
    let result = compress_domain(&label);
    assert!(matches!(result, Err(DnsError::NameTooLong)));

    let domain = format!("{}.com", label);
    let result = compress_domain(&domain);
    assert!(matches!(result, Err(DnsError::NameTooLong)));

    // 63 bytes is still fine.
    let label = "a".repeat(63);
    let encoded = compress_domain(&label).unwrap();
    assert_eq!(encoded.len(), 65);
    assert_eq!(encoded[0], 63);
}

#[test]
fn test_name_round_trip() {
    // encode, decode and display give the name back.
    let encoded = compress_domain("a.b").unwrap();
    assert_eq!(encoded.as_slice(), [1, b'a', 1, b'b', 0]);

    let message: [u8; 0] = [];
    let decoded = decompress(&encoded, &message).unwrap();
    assert_eq!(decoded.to_vec(), encoded);
    assert_eq!(decoded.display_bytes(), b"a.b".to_vec());
}

#[test]
fn test_compress_empty_label() {
    // An empty label encodes as a bare zero length byte.
    let output = compress_domain("a..b").unwrap();
    assert_eq!(output.as_slice(), [1, b'a', 0, 1, b'b', 0]);
}

#[test]
fn test_display_root_name() {
    let root = CompressedName(vec![vec![0]]);
    assert_eq!(root.display_bytes(), b".".to_vec());
    let empty = CompressedName(Vec::new());
    assert_eq!(empty.display_bytes(), b".".to_vec());
}

#[test]
fn test_decompress_pointer_cycle() {
    // A pointer at offset 0 that points back to offset 0: a cycle.
    let message = [0b1100_0000, 0, 0];
    let pointer = &message[0..2];
    let result = decompress(pointer, &message);
    assert!(matches!(result, Err(ParseError::BadName)));
}

#[test]
fn test_decompress_pointer_out_of_range() {
    // The pointer names an offset past the end of the message.
    let message = [3, b'f', b'o', b'o', 0b1100_0000, 77];
    let pointer = &message[0..6];
    let result = decompress(pointer, &message);
    assert!(matches!(result, Err(ParseError::BadName)));
}

#[test]
fn test_is_pointer() {
    assert!(is_pointer(0b1100_0000));
    assert!(is_pointer(0xFF));
    assert!(!is_pointer(63));
    assert!(!is_pointer(0b1000_0000));
    assert!(!is_pointer(0b0100_0000));
}
