//! Decoding tests: one frame at a time out of a buffer, with exact
//! consumption, plus the whole-input length oracle.
use bytes::BytesMut;
use simple_redis::BulkString;
use simple_redis::RespArray;
use simple_redis::RespError;
use simple_redis::RespFrame;
use simple_redis::RespMap;
use simple_redis::RespNull;
use simple_redis::RespSet;
use simple_redis::SimpleError;
use simple_redis::SimpleString;
use simple_redis::parse_frame_length;

fn double_frame(x: f64) -> RespFrame {
    let text = if x.abs() >= 1e8 || x.abs() < 1e-8 {
        format!("{:e}", x)
    } else {
        format!("{}", x)
    };
    RespFrame::Double(text.into_bytes())
}

#[test]
fn test_decode_simple_string() {
    let mut buf = BytesMut::new();
    buf.extend_from_slice(b"+OK\r\n+hello");

    let frame = RespFrame::decode(&mut buf).unwrap();
    assert_eq!(frame, RespFrame::SimpleString(SimpleString::new("OK")));
    assert_eq!(buf.to_vec(), b"+hello");

    let frame = RespFrame::decode(&mut buf).unwrap_err();
    assert_eq!(frame, RespError::NotComplete);
    buf.extend_from_slice(b"\r\n");
    let frame = RespFrame::decode(&mut buf).unwrap();
    assert_eq!(frame, RespFrame::SimpleString(SimpleString::new("hello")));
}

#[test]
fn test_decode_simple_error() {
    let mut buf = BytesMut::new();
    buf.extend_from_slice(b"-ERROR error\r\n");
    let frame = RespFrame::decode(&mut buf).unwrap();
    assert_eq!(frame, RespFrame::SimpleError(SimpleError::new("ERROR error")));
}

#[test]
fn test_decode_i64() {
    let mut buf = BytesMut::new();
    buf.extend_from_slice(b":10\r\n:-30\r\n");
    let frame = RespFrame::decode(&mut buf).unwrap();
    assert_eq!(frame, RespFrame::Integer(10));
    let frame = RespFrame::decode(&mut buf).unwrap();
    assert_eq!(frame, RespFrame::Integer(-30));
}

#[test]
fn test_decode_bulk_string() {
    let mut buf = BytesMut::new();
    buf.extend_from_slice(b"$5\r\nhello\r\n$6\r\nworld\r\r\n");
    let frame = RespFrame::decode(&mut buf).unwrap();
    assert_eq!(frame, RespFrame::BulkString(BulkString::new(Some(b"hello".to_vec()))));
    let frame = RespFrame::decode(&mut buf).unwrap();
    assert_eq!(frame, RespFrame::BulkString(BulkString::new(Some(b"world\r".to_vec()))));

    buf.extend_from_slice(b"$-1\r\n");
    let frame = RespFrame::decode(&mut buf).unwrap();
    assert_eq!(frame, RespFrame::BulkString(BulkString::new(None)));
}

#[test]
fn test_decode_resp_array() {
    let mut buf = BytesMut::new();
    buf.extend_from_slice(b"*3\r\n$3\r\nset\r\n$5\r\nhello\r\n$5\r\nworld\r\n");
    let frame = RespFrame::decode(&mut buf).unwrap();
    assert_eq!(
        frame,
        RespFrame::Array(RespArray::new(Some(vec![
            RespFrame::BulkString(BulkString::new(Some(b"set".to_vec()))),
            RespFrame::BulkString(BulkString::new(Some(b"hello".to_vec()))),
            RespFrame::BulkString(BulkString::new(Some(b"world".to_vec()))),
        ])))
    );

    buf.extend_from_slice(b"*-1\r\n");
    let frame = RespFrame::decode(&mut buf).unwrap();
    assert_eq!(frame, RespFrame::Array(RespArray::new(None)));
}

#[test]
fn test_decode_null() {
    let mut buf = BytesMut::new();
    buf.extend_from_slice(b"_\r\n");
    let frame = RespFrame::decode(&mut buf).unwrap();
    assert_eq!(frame, RespFrame::Null(RespNull::new()));

    buf.extend_from_slice(b"_1\r\n");
    let frame = RespFrame::decode(&mut buf);
    assert_eq!(
        frame.unwrap_err(),
        RespError::InvalidFrameData(format!("{:?}", BytesMut::from("_1\r\n".as_bytes())))
    );
}

#[test]
fn test_decode_bool() {
    let mut buf = BytesMut::new();
    buf.extend_from_slice(b"#t\r\n#f\r\n#d\r\n");
    let frame = RespFrame::decode(&mut buf).unwrap();
    assert_eq!(frame, RespFrame::Boolean(true));
    let frame = RespFrame::decode(&mut buf).unwrap();
    assert_eq!(frame, RespFrame::Boolean(false));
    let frame = RespFrame::decode(&mut buf);
    assert_eq!(frame.unwrap_err(), RespError::InvalidFrameData("d".to_string()));
}

#[test]
fn test_decode_f64() {
    let mut buf = BytesMut::new();
    buf.extend_from_slice(b",123.456\r\n");
    buf.extend_from_slice(b",-123.456\r\n");
    buf.extend_from_slice(b",1.23456e8\r\n");
    buf.extend_from_slice(b",-1.23456e-9\r\n");
    let frame = RespFrame::decode(&mut buf).unwrap();
    assert_eq!(frame, double_frame(123.456));
    let frame = RespFrame::decode(&mut buf).unwrap();
    assert_eq!(frame, double_frame(-123.456));
    let frame = RespFrame::decode(&mut buf).unwrap();
    assert_eq!(frame, double_frame(1.23456e8));
    let frame = RespFrame::decode(&mut buf).unwrap();
    assert_eq!(frame, double_frame(-1.23456e-9));
}

#[test]
fn test_decode_resp_map() {
    let mut buf = BytesMut::new();
    buf.extend_from_slice(b"%2\r\n+foo\r\n$3\r\nbar\r\n+hello\r\n+world\r\n");
    let frame = RespFrame::decode(&mut buf).unwrap();

    let mut map = RespMap::new();
    map.insert(
        SimpleString::new("hello"),
        RespFrame::SimpleString(SimpleString::new("world")),
    );
    map.insert(
        SimpleString::new("foo"),
        RespFrame::BulkString(BulkString::new(Some(b"bar".to_vec()))),
    );
    let frame1 = RespFrame::MapFrame(map);
    assert_eq!(frame, frame1);
}

#[test]
fn test_decode_resp_set() {
    let mut buf = BytesMut::new();
    buf.extend_from_slice(b"~3\r\n:10\r\n$5\r\nhello\r\n+world\r\n");
    let frame = RespFrame::decode(&mut buf).unwrap();

    let set = RespSet::new(vec![
        RespFrame::BulkString(BulkString::new(Some(b"hello".to_vec()))),
        RespFrame::SimpleString(SimpleString::new("world")),
        RespFrame::Integer(10),
    ]);
    let frame1 = RespFrame::SetFrame(set);
    assert_eq!(frame, frame1);

    buf.extend_from_slice(b"~6\r\n:10\r\n$5\r\nhello\r\n+world\r\n:10\r\n$5\r\nhello\r\n+world\r\n");
    let frame = RespFrame::decode(&mut buf).unwrap();
    assert_eq!(frame, frame1);
}

#[test]
fn simple_string_test_decode_simple_string() {
    let mut buf = BytesMut::new();
    buf.extend_from_slice(b"+OK\r\n+hello");

    let frame = RespFrame::decode(&mut buf).unwrap();
    assert_eq!(frame, RespFrame::SimpleString(SimpleString::new("OK")));
    assert_eq!(buf.to_vec(), b"+hello");

    let frame = RespFrame::decode(&mut buf).unwrap_err();
    assert_eq!(frame, RespError::NotComplete);
    buf.extend_from_slice(b"\r\n");
    let frame = RespFrame::decode(&mut buf).unwrap();
    assert_eq!(frame, RespFrame::SimpleString(SimpleString::new("hello")));
}

#[test]
fn simple_error_test_decode_simple_error() {
    let mut buf = BytesMut::new();
    buf.extend_from_slice(b"-ERROR error\r\n");
    let frame = RespFrame::decode(&mut buf).unwrap();
    assert_eq!(frame, RespFrame::SimpleError(SimpleError::new("ERROR error")));
}

#[test]
fn integer_test_decode_i64() {
    let mut buf = BytesMut::new();
    buf.extend_from_slice(b":10\r\n:-30\r\n");
    let frame = RespFrame::decode(&mut buf).unwrap();
    assert_eq!(frame, RespFrame::Integer(10));
    let frame = RespFrame::decode(&mut buf).unwrap();
    assert_eq!(frame, RespFrame::Integer(-30));
}

#[test]
fn bulk_string_test_decode_bulk_string() {
    let mut buf = BytesMut::new();
    buf.extend_from_slice(b"$5\r\nhello\r\n$6\r\nworld\r\r\n");
    let frame = RespFrame::decode(&mut buf).unwrap();
    assert_eq!(frame, RespFrame::BulkString(BulkString::new(Some(b"hello".to_vec()))));
    let frame = RespFrame::decode(&mut buf).unwrap();
    assert_eq!(frame, RespFrame::BulkString(BulkString::new(Some(b"world\r".to_vec()))));

    buf.extend_from_slice(b"$-1\r\n");
    let frame = RespFrame::decode(&mut buf).unwrap();
    assert_eq!(frame, RespFrame::BulkString(BulkString::new(None)));
}

#[test]
fn array_test_decode_resp_array() {
    let mut buf = BytesMut::new();
    buf.extend_from_slice(b"*3\r\n$3\r\nset\r\n$5\r\nhello\r\n$5\r\nworld\r\n");
    let frame = RespFrame::decode(&mut buf).unwrap();
    assert_eq!(
        frame,
        RespFrame::Array(RespArray::new(Some(vec![
            RespFrame::BulkString(BulkString::new(Some(b"set".to_vec()))),
            RespFrame::BulkString(BulkString::new(Some(b"hello".to_vec()))),
            RespFrame::BulkString(BulkString::new(Some(b"world".to_vec()))),
        ])))
    );

    buf.extend_from_slice(b"*-1\r\n");
    let frame = RespFrame::decode(&mut buf).unwrap();
    assert_eq!(frame, RespFrame::Array(RespArray::new(None)));
}

#[test]
fn null_test_decode_null() {
    let mut buf = BytesMut::new();
    buf.extend_from_slice(b"_\r\n");
    let frame = RespFrame::decode(&mut buf).unwrap();
    assert_eq!(frame, RespFrame::Null(RespNull::new()));

    buf.extend_from_slice(b"_1\r\n");
    let frame = RespFrame::decode(&mut buf);
    assert_eq!(
        frame.unwrap_err(),
        RespError::InvalidFrameData(format!("{:?}", BytesMut::from("_1\r\n".as_bytes())))
    );
}

#[test]
fn bool_test_decode_bool() {
    let mut buf = BytesMut::new();
    buf.extend_from_slice(b"#t\r\n#f\r\n#d\r\n");
    let frame = RespFrame::decode(&mut buf).unwrap();
    assert_eq!(frame, RespFrame::Boolean(true));
    let frame = RespFrame::decode(&mut buf).unwrap();
    assert_eq!(frame, RespFrame::Boolean(false));
    let frame = RespFrame::decode(&mut buf);
    assert_eq!(frame.unwrap_err(), RespError::InvalidFrameData("d".to_string()));
}

#[test]
fn double_test_decode_f64() {
    let mut buf = BytesMut::new();
    buf.extend_from_slice(b",123.456\r\n");
    buf.extend_from_slice(b",-123.456\r\n");
    buf.extend_from_slice(b",1.23456e8\r\n");
    buf.extend_from_slice(b",-1.23456e-9\r\n");
    let frame = RespFrame::decode(&mut buf).unwrap();
    assert_eq!(frame, double_frame(123.456));
    let frame = RespFrame::decode(&mut buf).unwrap();
    assert_eq!(frame, double_frame(-123.456));
    let frame = RespFrame::decode(&mut buf).unwrap();
    assert_eq!(frame, double_frame(1.23456e8));
    let frame = RespFrame::decode(&mut buf).unwrap();
    assert_eq!(frame, double_frame(-1.23456e-9));
}

#[test]
fn map_test_decode_resp_map() {
    let mut buf = BytesMut::new();
    buf.extend_from_slice(b"%2\r\n+foo\r\n$3\r\nbar\r\n+hello\r\n+world\r\n");
    let frame = RespFrame::decode(&mut buf).unwrap();

    let mut map = RespMap::new();
    map.insert(
        SimpleString::new("hello"),
        RespFrame::SimpleString(SimpleString::new("world")),
    );
    map.insert(
        SimpleString::new("foo"),
        RespFrame::BulkString(BulkString::new(Some(b"bar".to_vec()))),
    );
    let frame1 = RespFrame::MapFrame(map);
    assert_eq!(frame, frame1);
}

#[test]
fn set_test_decode_resp_set() {
    let mut buf = BytesMut::new();
    buf.extend_from_slice(b"~3\r\n:10\r\n$5\r\nhello\r\n+world\r\n");
    let frame = RespFrame::decode(&mut buf).unwrap();

    let set = RespSet::new(vec![
        RespFrame::BulkString(BulkString::new(Some(b"hello".to_vec()))),
        RespFrame::SimpleString(SimpleString::new("world")),
        RespFrame::Integer(10),
    ]);
    let frame1 = RespFrame::SetFrame(set);
    assert_eq!(frame, frame1);

    buf.extend_from_slice(b"~6\r\n:10\r\n$5\r\nhello\r\n+world\r\n:10\r\n$5\r\nhello\r\n+world\r\n");
    let frame = RespFrame::decode(&mut buf).unwrap();
    assert_eq!(frame, frame1);
}

#[test]
fn test_parse_frame_length_for_simple_string() {
    let input = b"+hello\r\n".as_ref();
    let len = parse_frame_length(input).unwrap();
    assert_eq!(len, input.len());
}

#[test]
fn test_parse_frame_length_for_simple_error() {
    let input = b"-error message\r\n".as_ref();
    let len = parse_frame_length(input).unwrap();
    assert_eq!(len, input.len());
}

#[test]
fn test_parse_frame_length_for_integer() {
    let input = b":1234\r\n".as_ref();
    let len = parse_frame_length(input).unwrap();
    assert_eq!(len, input.len());
}

#[test]
fn test_parse_frame_length_for_bulk_string() {
    let input = b"$5\r\nhello\r\n".as_ref();
    let len = parse_frame_length(input).unwrap();
    assert_eq!(len, input.len());
}

#[test]
fn test_parse_frame_length_for_array() {
    let input = b"*3\r\n:1\r\n:2\r\n:3\r\n".as_ref();
    let len = parse_frame_length(input).unwrap();
    assert_eq!(len, input.len());
}

#[test]
fn test_parse_frame_length_for_null() {
    let input = b"_\r\n".as_ref();
    let len = parse_frame_length(input).unwrap();
    assert_eq!(len, input.len());
}

#[test]
fn test_parse_frame_length_for_boolean() {
    let input = b"#t\r\n".as_ref();
    let len = parse_frame_length(input).unwrap();
    assert_eq!(len, input.len());

    let input = b"#f\r\n".as_ref();
    let len = parse_frame_length(input).unwrap();
    assert_eq!(len, input.len());
}

#[test]
fn test_parse_frame_length_for_double() {
    let input = b",-3.14\r\n".as_ref();
    let len = parse_frame_length(input).unwrap();
    assert_eq!(len, input.len());
}

#[test]
fn test_parse_frame_length_for_map() {
    let input = b"%2\r\n+key1\r\n:1\r\n+key2\r\n:2\r\n".as_ref();
    let len = parse_frame_length(input).unwrap();
    assert_eq!(len, input.len());
}

#[test]
fn test_parse_frame_length_for_set() {
    let input = b"~3\r\n:1\r\n:2\r\n:3\r\n".as_ref();
    let len = parse_frame_length(input).unwrap();
    assert_eq!(len, input.len());
}

#[test]
fn test_parse_frame_length_for_incomplete() {
    let input = b"+hello".as_ref();
    let len = parse_frame_length(input);
    assert_eq!(len, Err(RespError::NotComplete));
}

#[test]
fn test_parse_frame_length_for_invalid_frame() {
    let input = b"hello\r\n".as_ref();
    let len = parse_frame_length(input);
    assert_eq!(len, Err(RespError::InvalidFrame("hello\r\n".to_string())));
}
