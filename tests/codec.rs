use flesh::codec::{FLESHMessage, MessageError, PROTOCOL_VERSION};
use flesh::status::Status;

fn sample() -> FLESHMessage {
    FLESHMessage::new(Status::Acknowledge)
        .with_target(0x0102)
        .with_sender(0x0304)
        .with_header("Zeta", vec![9, 9])
        .with_header("alpha", vec![1, 2, 3])
        .with_body(b"hello".to_vec())
}

#[test]
fn new_message_fields() {
    let m = FLESHMessage::new(Status::Ping);
    assert_eq!(m.version, PROTOCOL_VERSION);
    assert!(matches!(m.status, Status::Ping));
    assert!(m.target.is_none() && m.sender.is_none() && m.signature.is_none());
    assert_eq!(m.headers.len(), 0);
    assert!(m.body.is_empty());
    assert!(m.timestamp > 1_600_000_000);
}

#[test]
fn serialize_round_trip() {
    let m = sample();
    let bytes = m.serialize().unwrap();
    let back = FLESHMessage::deserialize(&bytes).unwrap();
    assert_eq!(back.target, Some(0x0102));
    assert_eq!(back.sender, Some(0x0304));
    assert_eq!(back.body, b"hello".to_vec());
    assert_eq!(back.headers.get(b"alpha").unwrap(), &vec![1, 2, 3]);
    assert_eq!(back.headers.get(b"zeta").unwrap(), &vec![9, 9]);
    assert_eq!(back.timestamp, m.timestamp);
    assert_eq!(back.serialize().unwrap(), bytes);
}

#[test]
fn serialize_exact_layout() {
    let mut m = FLESHMessage::new(Status::Custom(200)).with_header("k", vec![7]).with_body(vec![5, 6]);
    m.timestamp = 0x0102030405060708;
    m.version = 0x0a0b;
    let bytes = m.serialize().unwrap();
    let expected: Vec<u8> = vec![
        0x0b, 0x0a, // version
        200, // status
        0, // no target
        0, // no sender
        8, 7, 6, 5, 4, 3, 2, 1, // timestamp
        1, 0, 0, 0, // one header
        1, 0, b'k', 1, 0, 0, 0, 7, // name and value
        2, 0, 0, 0, 5, 6, // body
        0, // no signature
    ];
    assert_eq!(bytes, expected);
}

#[test]
fn headers_sorted_and_case_insensitive() {
    let m = FLESHMessage::new(Status::Acknowledge)
        .with_header("b", vec![1])
        .with_header("A", vec![2])
        .with_header("a", vec![3]);
    assert_eq!(m.headers.len(), 2);
    assert_eq!(m.headers.entry(0).name, b"a".to_vec());
    assert_eq!(m.headers.entry(0).value, vec![3]);
    assert_eq!(m.headers.entry(1).name, b"b".to_vec());
}

#[test]
fn deserialize_rejects_trailing_bytes() {
    let mut bytes = sample().serialize().unwrap();
    bytes.push(0);
    assert!(matches!(FLESHMessage::deserialize(&bytes), Err(MessageError::DeserializationError)));
}

#[test]
fn deserialize_rejects_truncation_and_long_lengths() {
    let bytes = sample().serialize().unwrap();
    for cut in 0..bytes.len() {
        assert!(FLESHMessage::deserialize(&bytes[..cut]).is_err());
    }
    let mut m = FLESHMessage::new(Status::Acknowledge).with_body(vec![1, 2]).serialize().unwrap();
    let body_len_at = m.len() - 1 - 2 - 4;
    m[body_len_at] = 200;
    assert!(matches!(FLESHMessage::deserialize(&m), Err(MessageError::DeserializationError)));
}

#[test]
fn deserialize_rejects_unsorted_headers_and_bad_tags() {
    let m = FLESHMessage::new(Status::Acknowledge).with_header("a", vec![]).with_header("b", vec![]);
    let mut bytes = m.serialize().unwrap();
    let pos = bytes.iter().position(|&b| b == b'a').unwrap();
    bytes[pos] = b'c';
    assert!(FLESHMessage::deserialize(&bytes).is_err());
    let mut bytes2 = m.serialize().unwrap();
    bytes2[3] = 7;
    assert!(FLESHMessage::deserialize(&bytes2).is_err());
}

#[test]
fn for_id_and_is_ok() {
    let m = FLESHMessage::new(Status::Acknowledge);
    assert!(m.for_id(5));
    let m = m.with_target(6);
    assert!(!m.for_id(5));
    assert!(m.for_id(6));
    assert!(m.is_ok());
    assert!(!FLESHMessage::new(Status::NotFound).is_ok());
}

#[test]
fn custom_status_with_named_code_serializes_deterministically() {
    let mut m = FLESHMessage::new(Status::Custom(1)).with_body(vec![1]);
    m.timestamp = 5;
    let b = m.serialize().unwrap();
    let back = FLESHMessage::deserialize(&b).unwrap();
    assert!(matches!(back.status, Status::Announce));
    assert_eq!(back.serialize().unwrap(), b);
}

#[test]
fn header_insertion_order_does_not_matter() {
    let mut m1 = FLESHMessage::new(Status::Acknowledge).with_header("b", vec![2]).with_header("a", vec![1]).with_header("c", vec![3]);
    let mut m2 = FLESHMessage::new(Status::Acknowledge).with_header("c", vec![3]).with_header("a", vec![1]).with_header("b", vec![2]);
    m1.timestamp = 9;
    m2.timestamp = 9;
    assert_eq!(m1.serialize().unwrap(), m2.serialize().unwrap());
}
