use clog::error::ClogError;
use clog::header::init::init as first_line;
use clog::header::utils::{encode_header, init, parse_header};

#[test]
fn test_init() {
    let version_id: u32 = 111;
    println!("{}", first_line(version_id));
}

#[test]
fn first_line_spells_the_version() {
    assert_eq!(first_line(111), "clog @111");
    assert_eq!(first_line(0), "clog @0");
    assert_eq!(first_line(4294967295), "clog @4294967295");
}

#[test]
fn header_lines_are_zero_padded() {
    let (line1, line2) = init(b"0.0.1", 312, 72, b"SALT", b"NONCE");
    assert_eq!(line1, b"clog @0.0.1".to_vec());
    assert_eq!(line2, b"SALT.NONCE.00000312.00000072".to_vec());
    let (_, widest) = init(b"0.0.1", 99999999, 0, b"s", b"n");
    assert_eq!(widest, b"s.n.99999999.00000000".to_vec());
}

#[test]
fn encoded_header_is_72_bytes_of_base64_and_digits() {
    let salt = [0u8; 16];
    let nonce = [255u8; 12];
    let h = encode_header(&salt, &nonce, 312, 1234);
    assert_eq!(h.len(), 72);
    let expected = b"clog @0.0.1\nAAAAAAAAAAAAAAAAAAAAAA==.////////////////.00000312.00001234\n";
    assert_eq!(h, expected.to_vec());
}

#[test]
fn parsed_header_gives_back_its_fields() {
    let salt: Vec<u8> = (0u8..16).collect();
    let nonce: Vec<u8> = (100u8..112).collect();
    let mut image = encode_header(&salt, &nonce, 4242, 99);
    assert_eq!(&image[12..36], b"AAECAwQFBgcICQoLDA0ODw==");
    assert_eq!(&image[37..53], b"ZGVmZ2hpamtsbW5v");
    image.extend_from_slice(b"trailing bytes are not the header's business");
    let h = parse_header(&image).unwrap();
    assert_eq!(h.version, b"0.0.1".to_vec());
    assert_eq!(h.salt, salt);
    assert_eq!(h.nonce, nonce);
    assert_eq!(h.metadata_length, 4242);
    assert_eq!(h.metadata_offset, 99);
}

#[test]
fn malformed_headers_are_format_errors() {
    let salt = [7u8; 16];
    let nonce = [9u8; 12];
    let good = encode_header(&salt, &nonce, 1, 2);
    assert!(matches!(parse_header(&good[..71]), Err(ClogError::Format)));
    let mut bad_digit = good.clone();
    bad_digit[60] = b'x';
    assert!(matches!(parse_header(&bad_digit), Err(ClogError::Format)));
    let mut bad_magic = good.clone();
    bad_magic[0] = b'C';
    assert!(matches!(parse_header(&bad_magic), Err(ClogError::Format)));
    let mut bad_dot = good.clone();
    bad_dot[36] = b',';
    assert!(matches!(parse_header(&bad_dot), Err(ClogError::Format)));
    let mut bad_salt = good.clone();
    bad_salt[12] = b'!';
    assert!(matches!(parse_header(&bad_salt), Err(ClogError::Format)));
}

#[test]
fn other_versions_and_stray_bytes_in_the_fields() {
    let salt = [7u8; 16];
    let nonce = [9u8; 12];
    let mut image = encode_header(&salt, &nonce, 1, 2);
    image[6..11].copy_from_slice(b"1.2.3");
    let h = parse_header(&image).unwrap();
    assert_eq!(h.version, b"1.2.3".to_vec());
    assert_eq!((h.salt.to_vec(), h.metadata_length), (salt.to_vec(), 1));
    let mut dotted = encode_header(&salt, &nonce, 1, 2);
    dotted[20] = b'.';
    assert!(matches!(parse_header(&dotted), Err(ClogError::Format)));
    let mut spaced = encode_header(&salt, &nonce, 1, 2);
    spaced[40] = b' ';
    assert!(matches!(parse_header(&spaced), Err(ClogError::Format)));
}
