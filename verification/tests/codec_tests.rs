use bcfs::codec::{
    bytes_eq, create_log, encode_log_bytes, hex_decode, hex_encode, parse_log_bytes, topic_pad32,
    u128_to_le, u32_from_le, u32_to_le,
};

#[test]
fn le_u32_round_trip() {
    let b = u32_to_le(0x12345678);
    assert_eq!(b, vec![0x78, 0x56, 0x34, 0x12]);
    assert_eq!(u32_from_le(&b, 0), 0x12345678);
}

#[test]
fn le_u128_exact() {
    let b = u128_to_le(2_000_000_042);
    assert_eq!(b.len(), 16);
    let mut arr = [0u8; 16];
    arr.copy_from_slice(&b);
    assert_eq!(u128::from_le_bytes(arr), 2_000_000_042);
}

#[test]
fn hex_round_trip() {
    let h = hex_encode(&[0u8, 15, 16, 255]);
    assert_eq!(h, b"000f10ff");
    assert_eq!(hex_decode(&h), Some(vec![0u8, 15, 16, 255]));
    assert_eq!(hex_decode(b"0"), None);
    assert_eq!(hex_decode(b"0g"), None);
    assert_eq!(hex_decode(b"0F"), None);
}

#[test]
fn log_wire_format() {
    let topics = vec![b"hello".to_vec(), b"world".to_vec()];
    let data = b"I bid thee hello!".to_vec();
    let log = encode_log_bytes(&topics, &data);
    let mut expected: Vec<u8> = Vec::new();
    expected.extend_from_slice(&2u32.to_le_bytes());
    for t in &topics {
        expected.extend_from_slice(&(t.len() as u32).to_le_bytes());
        expected.extend_from_slice(t);
    }
    expected.extend_from_slice(&(data.len() as u32).to_le_bytes());
    expected.extend_from_slice(&data);
    assert_eq!(log, expected);
    assert_eq!(parse_log_bytes(&log), Some((topics, data)));
}

#[test]
fn log_parse_rejects_malformed() {
    assert_eq!(parse_log_bytes(b""), None);
    assert_eq!(parse_log_bytes(&[1, 0, 0, 0]), None);
    let (_, _, mut log) = create_log();
    log.push(0);
    assert_eq!(parse_log_bytes(&log), None);
}

#[test]
fn create_log_matches_encoder() {
    let (topics, data, log) = create_log();
    assert_eq!(topics, vec![b"hello".to_vec(), b"world".to_vec()]);
    assert_eq!(data, b"I bid thee hello!".to_vec());
    assert_eq!(log, encode_log_bytes(&topics, &data));
}

#[test]
fn pad32_truncates_and_pads() {
    let long = vec![7u8; 40];
    assert_eq!(topic_pad32(&long), vec![7u8; 32]);
    let mut expected = b"abc".to_vec();
    expected.resize(32, 0);
    assert_eq!(topic_pad32(b"abc"), expected);
}

#[test]
fn bytes_eq_basic() {
    assert!(bytes_eq(b"abc", b"abc"));
    assert!(!bytes_eq(b"abc", b"abd"));
    assert!(!bytes_eq(b"abc", b"ab"));
}
