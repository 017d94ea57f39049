use bytes::BytesMut;
use redis_starter_rust::parser::{decode, parse_redis_value, DecodeResult, RedisValue, RespError};

#[test]
fn should_parse_simple_string() {
    assert_eq!(
        parse_redis_value(&mut BytesMut::from("+OK\r\n")).unwrap(),
        RedisValue::SimpleString("OK".to_string())
    );
}

#[test]
fn should_parse_bulk_string() {
    assert_eq!(
        parse_redis_value(&mut BytesMut::from("$5\r\nhello\r\n")).unwrap(),
        RedisValue::BulkString("hello".to_string())
    );
}

#[test]
fn should_parse_empty_bulk_string() {
    assert_eq!(
        parse_redis_value(&mut BytesMut::from("$0\r\n\r\n")).unwrap(),
        RedisValue::BulkString("".to_string())
    );
}

#[test]
fn should_parse_array() {
    let array = RedisValue::Array(vec![
        RedisValue::BulkString("hello".to_string()),
        RedisValue::BulkString("world".to_string()),
        RedisValue::SimpleString("OK".to_string()),
    ]);
    assert_eq!(
        parse_redis_value(&mut BytesMut::from(
            "*3\r\n$5\r\nhello\r\n$5\r\nworld\r\n+OK\r\n"
        ))
        .unwrap(),
        array
    );
}

#[test]
fn null_bulk_string_parses_as_empty_text() {
    assert_eq!(
        parse_redis_value(&mut BytesMut::from("$-1\r\n")).unwrap(),
        RedisValue::BulkString(String::new())
    );
}

#[test]
fn empty_bulk_string_serializes_as_null() {
    assert_eq!(RedisValue::BulkString(String::new()).serialize(), b"$-1\r\n".to_vec());
}

#[test]
fn serialize_each_kind() {
    assert_eq!(RedisValue::SimpleString("PONG".into()).serialize(), b"+PONG\r\n".to_vec());
    assert_eq!(RedisValue::BulkString("hey".into()).serialize(), b"$3\r\nhey\r\n".to_vec());
    assert_eq!(RedisValue::Error("ERR x".into()).serialize(), b"-ERR x\r\n".to_vec());
    let arr = RedisValue::Array(vec![
        RedisValue::BulkString("dir".into()),
        RedisValue::BulkString("/tmp".into()),
    ]);
    assert_eq!(arr.serialize(), b"*2\r\n$3\r\ndir\r\n$4\r\n/tmp\r\n".to_vec());
    assert_eq!(RedisValue::Array(vec![]).serialize(), b"*0\r\n".to_vec());
}

#[test]
fn bulk_length_counts_bytes() {
    assert_eq!(RedisValue::BulkString("é".into()).serialize(), "$2\r\né\r\n".as_bytes().to_vec());
}

#[test]
fn round_trip_nested_frames() {
    let value = RedisValue::Array(vec![
        RedisValue::SimpleString("OK".into()),
        RedisValue::Array(vec![
            RedisValue::BulkString("héllo wörld".into()),
            RedisValue::SimpleString("no".into()),
        ]),
        RedisValue::BulkString("a\r\nb".into()),
        RedisValue::Array(vec![]),
    ]);
    let mut wire = value.serialize();
    let len = wire.len();
    wire.extend_from_slice(b"+tail\r\n");
    match decode(&wire) {
        DecodeResult::Complete(v, n) => {
            assert_eq!(v, value);
            assert_eq!(n, len);
        }
        _ => panic!("expected a frame"),
    }
}

#[test]
fn pipelined_frames_are_taken_one_at_a_time() {
    let mut buf = BytesMut::from("+A\r\n$1\r\nb\r\n*1\r\n");
    assert_eq!(parse_redis_value(&mut buf), Ok(RedisValue::SimpleString("A".into())));
    assert_eq!(&buf[..], b"$1\r\nb\r\n*1\r\n");
    assert_eq!(parse_redis_value(&mut buf), Ok(RedisValue::BulkString("b".into())));
    assert_eq!(parse_redis_value(&mut buf), Err(RespError::Incomplete));
    assert_eq!(&buf[..], b"*1\r\n");
}

#[test]
fn partial_frames_need_more() {
    for partial in ["", "+OK", "$5\r\nhel", "$5\r\nhello", "*2\r\n$1\r\na\r\n", "$"] {
        let mut buf = BytesMut::from(partial);
        assert_eq!(parse_redis_value(&mut buf), Err(RespError::Incomplete), "{:?}", partial);
        assert_eq!(&buf[..], partial.as_bytes());
    }
}

#[test]
fn malformed_frames_are_invalid() {
    for bad in ["-x\r\n", "-ERR\r\n", "?x\r\n", "$abc\r\n", "$-2\r\n", "*-1\r\n", "$3\r\nabcXY", ":1\r\n", "$99999999999999999999\r\n"] {
        let mut buf = BytesMut::from(bad);
        assert_eq!(parse_redis_value(&mut buf), Err(RespError::Invalid), "{:?}", bad);
    }
}

#[test]
fn invalid_utf8_is_invalid() {
    let mut buf = BytesMut::from(&b"$2\r\n\xff\xfe\r\n"[..]);
    assert_eq!(parse_redis_value(&mut buf), Err(RespError::Invalid));
}

#[test]
fn get_bulk_string_only_for_bulk() {
    assert_eq!(RedisValue::BulkString("k".into()).get_bulk_string(), Some("k".to_owned()));
    assert_eq!(RedisValue::SimpleString("k".into()).get_bulk_string(), None);
}
