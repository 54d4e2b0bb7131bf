use zeropool_memo::memo::{
    buf_take, parse_memo_header, shared_secrets_size, MessageEncryptionType,
};

#[test]
fn encryption_type_codes() {
    assert_eq!(MessageEncryptionType::ECDH.to_u16(), 0x0000);
    assert_eq!(MessageEncryptionType::Plain.to_u16(), 0x0100);
    assert_eq!(MessageEncryptionType::Symmetric.to_u16(), 0x0200);
    for t in [
        MessageEncryptionType::ECDH,
        MessageEncryptionType::Plain,
        MessageEncryptionType::Symmetric,
    ] {
        assert_eq!(MessageEncryptionType::from_u16(t.to_u16()).unwrap(), t);
    }
}

#[test]
fn unsupported_encryption_type() {
    assert!(MessageEncryptionType::from_u16(0x0300).is_err());
    assert!(MessageEncryptionType::from_u16(0x0001).is_err());
    assert!(MessageEncryptionType::from_u16(0xffff).is_err());
}

#[test]
fn memo_header_valid() {
    assert_eq!(
        parse_memo_header(&[3, 0, 0, 2, 9, 9]),
        Some((3, MessageEncryptionType::Symmetric))
    );
    assert_eq!(
        parse_memo_header(&[1, 1, 0, 0]),
        Some((257, MessageEncryptionType::ECDH))
    );
    assert_eq!(
        parse_memo_header(&[0xff, 0xff, 0, 1]),
        Some((0xffff, MessageEncryptionType::Plain))
    );
}

#[test]
fn memo_header_invalid() {
    // too short
    assert_eq!(parse_memo_header(&[]), None);
    assert_eq!(parse_memo_header(&[1]), None);
    assert_eq!(parse_memo_header(&[1, 0, 0]), None);
    // no items
    assert_eq!(parse_memo_header(&[0, 0, 0, 2]), None);
    // unknown encryption type
    assert_eq!(parse_memo_header(&[1, 0, 0, 3]), None);
    assert_eq!(parse_memo_header(&[1, 0, 1, 0]), None);
}

#[test]
fn buf_take_ranges() {
    let memo = [1u8, 2, 3, 4, 5];
    let (bytes, next) = buf_take(&memo, 1, 3).unwrap();
    assert_eq!(bytes, &[2, 3, 4]);
    assert_eq!(next, 4);
    let (bytes, next) = buf_take(&memo, 5, 0).unwrap();
    assert!(bytes.is_empty());
    assert_eq!(next, 5);
    assert!(buf_take(&memo, 3, 3).is_none());
    assert!(buf_take(&memo, 0, 6).is_none());
}

#[test]
fn shared_secrets_sizes() {
    assert_eq!(
        shared_secrets_size(MessageEncryptionType::ECDH, 32, 3),
        Some(32 + 3 * 32 + 16)
    );
    assert_eq!(
        shared_secrets_size(MessageEncryptionType::Symmetric, 32, 3),
        Some(24 + 3 * 32 + 16)
    );
    assert_eq!(shared_secrets_size(MessageEncryptionType::Plain, 32, 3), None);
    assert_eq!(
        shared_secrets_size(MessageEncryptionType::Symmetric, 32, 1),
        Some(72)
    );
}
