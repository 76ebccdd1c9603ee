use routing_core::frame::{ParseError, Prepare};

#[test]
fn prepare_serializes_query_as_long_string() {
    let prepare = Prepare {
        query: "SELECT pk FROM t",
    };
    let mut buf = bytes::BytesMut::new();
    assert!(prepare.serialize(&mut buf).is_ok());
    let mut expected = vec![0u8, 0, 0, 16];
    expected.extend_from_slice(b"SELECT pk FROM t");
    assert_eq!(&buf[..], &expected[..]);
}

#[test]
fn prepare_serializes_empty_query() {
    let prepare = Prepare { query: "" };
    let mut buf = bytes::BytesMut::new();
    assert!(prepare.serialize(&mut buf).is_ok());
    assert_eq!(&buf[..], &[0u8, 0, 0, 0][..]);
}

#[test]
fn prepare_appends_after_existing_bytes() {
    let prepare = Prepare { query: "x" };
    let mut buf = bytes::BytesMut::new();
    bytes::BufMut::put_u8(&mut buf, 0xab);
    assert!(prepare.serialize(&mut buf).is_ok());
    assert_eq!(&buf[..], &[0xab, 0, 0, 0, 1, b'x'][..]);
}

#[test]
fn prepare_serializes_multibyte_query_by_byte_length() {
    // Two characters, five UTF-8 bytes: the length prefix counts bytes.
    let query = "\u{e9}\u{20ac}";
    let prepare = Prepare { query };
    let mut buf = bytes::BytesMut::new();
    assert!(prepare.serialize(&mut buf).is_ok());
    let mut expected = vec![0u8, 0, 0, 5];
    expected.extend_from_slice(query.as_bytes());
    assert_eq!(&buf[..], &expected[..]);
}

#[test]
fn prepare_rejects_query_longer_than_the_length_field() {
    let query = "a".repeat(0x8000_0000);
    let prepare = Prepare { query: &query };
    let mut buf = bytes::BytesMut::new();
    assert_eq!(prepare.serialize(&mut buf), Err(ParseError::StringTooLong));
    assert!(buf.is_empty());
}
