//! Codec tests: decoding framed bytes and encoding frames back.

use redust::protocol_handler::{
    deserialize_buffer, serialize_data, take_frame, BulkStringData, RESPType,
};

fn bulk(text: &[u8]) -> RESPType {
    RESPType::BulkString(Some(BulkStringData {
        text: text.to_vec(),
        prefix_length: text.len(),
    }))
}

#[test]
fn test_deserialize_simple_string_cases() {
    assert_eq!(deserialize_buffer(b"+PING"), (None, 0));
    assert_eq!(
        deserialize_buffer(b"+OK\r\n"),
        (Some(RESPType::SimpleString(b"OK".to_vec())), 5)
    );
    assert_eq!(
        deserialize_buffer(b"+OK\r\n+Next"),
        (Some(RESPType::SimpleString(b"OK".to_vec())), 5)
    );
}

#[test]
fn test_deserialize_error_cases() {
    assert_eq!(deserialize_buffer(b"-ERR"), (None, 0));
    assert_eq!(
        deserialize_buffer(b"-ERR\r\n"),
        (Some(RESPType::Error(b"ERR".to_vec())), 6)
    );
    assert_eq!(
        deserialize_buffer(b"-ERR\r\n+Partial"),
        (Some(RESPType::Error(b"ERR".to_vec())), 6)
    );
}

#[test]
fn test_deserialize_integer_cases() {
    assert_eq!(deserialize_buffer(b":20"), (None, 0));
    assert_eq!(deserialize_buffer(b":20\r\n"), (Some(RESPType::Integer(20)), 5));
    assert_eq!(deserialize_buffer(b":20\r\n+PING"), (Some(RESPType::Integer(20)), 5));
    assert_eq!(deserialize_buffer(b":-1\r\n"), (Some(RESPType::Integer(-1)), 5));
    assert_eq!(deserialize_buffer(b":abc\r\n"), (None, 0));
}

#[test]
fn test_deserialize_bulk_string_cases() {
    assert_eq!(deserialize_buffer(b"$5\r\nhello"), (None, 0));
    assert_eq!(deserialize_buffer(b"$0\r\n\r\n"), (Some(bulk(b"")), 6));
    assert_eq!(deserialize_buffer(b"$-1\r\n"), (Some(RESPType::BulkString(None)), 5));
    assert_eq!(deserialize_buffer(b"$4\r\ntest\r\n"), (Some(bulk(b"test")), 10));
    assert_eq!(deserialize_buffer(b"$4\r\ntest\r\n+Next"), (Some(bulk(b"test")), 10));
    // a payload may contain CRLF bytes of its own
    assert_eq!(deserialize_buffer(b"$4\r\na\r\nb\r\n"), (Some(bulk(b"a\r\nb")), 10));
    // a negative length other than the null sentinel is no frame
    assert_eq!(deserialize_buffer(b"$-2\r\nxx\r\n"), (None, 0));
}

#[test]
fn test_deserialize_array_cases() {
    assert_eq!(deserialize_buffer(b"*0"), (None, 0));
    assert_eq!(deserialize_buffer(b"*0\r\n"), (Some(RESPType::Array(vec![])), 4));
    assert_eq!(
        deserialize_buffer(b"*2\r\n$5\r\nhello\r\n$5\r\nworld\r\n"),
        (
            Some(RESPType::Array(vec![bulk(b"hello"), bulk(b"world")])),
            26
        )
    );
    assert_eq!(
        deserialize_buffer(b"*2\r\n*2\r\n+Hello\r\n$5\r\nWorld\r\n*3\r\n:1\r\n:2\r\n:3\r\n"),
        (
            Some(RESPType::Array(vec![
                RESPType::Array(vec![
                    RESPType::SimpleString(b"Hello".to_vec()),
                    bulk(b"World"),
                ]),
                RESPType::Array(vec![
                    RESPType::Integer(1),
                    RESPType::Integer(2),
                    RESPType::Integer(3),
                ]),
            ])),
            43
        )
    );
    // an incomplete child leaves the whole array pending
    assert_eq!(deserialize_buffer(b"*2\r\n$5\r\nhello\r\n$5\r\nwor"), (None, 0));
    // a negative count is no frame
    assert_eq!(deserialize_buffer(b"*-1\r\n"), (None, 0));
}

#[test]
fn test_deserialize_unknown_leading_byte() {
    assert_eq!(deserialize_buffer(b"hello\r\n"), (None, 0));
    assert_eq!(deserialize_buffer(b""), (None, 0));
}

#[test]
fn test_serialize_simple_string_cases() {
    assert_eq!(
        serialize_data(&RESPType::SimpleString(b"".to_vec())),
        Some(b"+\r\n".to_vec())
    );
    assert_eq!(
        serialize_data(&RESPType::SimpleString(b"OK".to_vec())),
        Some(b"+OK\r\n".to_vec())
    );
}

#[test]
fn test_serialize_error_cases() {
    assert_eq!(serialize_data(&RESPType::Error(b"".to_vec())), Some(b"-\r\n".to_vec()));
    assert_eq!(
        serialize_data(&RESPType::Error(b"ERR".to_vec())),
        Some(b"-ERR\r\n".to_vec())
    );
}

#[test]
fn test_serialize_integer_cases() {
    assert_eq!(serialize_data(&RESPType::Integer(-1)), Some(b":-1\r\n".to_vec()));
    assert_eq!(serialize_data(&RESPType::Integer(20)), Some(b":20\r\n".to_vec()));
    assert_eq!(
        serialize_data(&RESPType::Integer(i64::MIN)),
        Some(b":-9223372036854775808\r\n".to_vec())
    );
}

#[test]
fn test_serialize_bulk_string_cases() {
    assert_eq!(serialize_data(&bulk(b"")), Some(b"$0\r\n\r\n".to_vec()));
    assert_eq!(
        serialize_data(&RESPType::BulkString(None)),
        Some(b"$-1\r\n".to_vec())
    );
    assert_eq!(serialize_data(&bulk(b"test")), Some(b"$4\r\ntest\r\n".to_vec()));
}

#[test]
fn test_serialize_array_cases() {
    assert_eq!(
        serialize_data(&RESPType::Array(vec![bulk(b"hello"), bulk(b"world")])),
        Some(b"*2\r\n$5\r\nhello\r\n$5\r\nworld\r\n".to_vec())
    );
    assert_eq!(
        serialize_data(&RESPType::Array(vec![
            RESPType::Array(vec![
                RESPType::SimpleString(b"Hello".to_vec()),
                bulk(b"World"),
            ]),
            RESPType::Array(vec![
                RESPType::Integer(1),
                RESPType::Integer(2),
                RESPType::Integer(3),
            ]),
        ])),
        Some(b"*2\r\n*2\r\n+Hello\r\n$5\r\nWorld\r\n*3\r\n:1\r\n:2\r\n:3\r\n".to_vec())
    );
}

#[test]
fn test_roundtrip_with_trailing_bytes() {
    let frame = RESPType::Array(vec![bulk(b"SET"), bulk(b"k"), bulk(b"v")]);
    let encoded = serialize_data(&frame).unwrap();
    let mut with_tail = encoded.clone();
    with_tail.extend_from_slice(b"garbage after the frame");
    let (decoded, used) = deserialize_buffer(&with_tail);
    assert_eq!(decoded, Some(frame));
    assert_eq!(used, encoded.len());
}

#[test]
fn test_every_strict_prefix_is_incomplete() {
    let frame = RESPType::Array(vec![bulk(b"PING")]);
    let encoded = serialize_data(&frame).unwrap();
    for cut in 0..encoded.len() {
        assert_eq!(deserialize_buffer(&encoded[..cut]), (None, 0));
    }
}

#[test]
fn test_take_frame_drains_exactly_one_frame() {
    let mut buffer = b"*1\r\n$4\r\nPING\r\n:7\r\n:8".to_vec();
    let first = take_frame(&mut buffer).unwrap();
    assert_eq!(
        first,
        RESPType::Array(vec![bulk(b"PING")])
    );
    assert_eq!(buffer, b":7\r\n:8".to_vec());
    let second = take_frame(&mut buffer).unwrap();
    assert_eq!(second, RESPType::Integer(7));
    assert_eq!(buffer, b":8".to_vec());
    assert_eq!(take_frame(&mut buffer), None);
    assert_eq!(buffer, b":8".to_vec());
}
