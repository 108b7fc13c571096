//! Encoding tests: exact byte serialization per frame type, plus the
//! whole-frame parser.
use simple_redis::BulkString;
use simple_redis::RespArray;
use simple_redis::RespEncode;
use simple_redis::RespError;
use simple_redis::RespFrame;
use simple_redis::RespMap;
use simple_redis::RespNull;
use simple_redis::RespSet;
use simple_redis::SimpleError;
use simple_redis::SimpleString;
use simple_redis::parse_frame;

fn double_frame(x: f64) -> RespFrame {
    let text = if x.abs() >= 1e8 || x.abs() < 1e-8 {
        format!("{:e}", x)
    } else {
        format!("{}", x)
    };
    RespFrame::Double(text.into_bytes())
}

#[test]
fn test_encode_simple_string() {
    let simple_string = RespFrame::SimpleString(SimpleString::new("hello"));
    assert_eq!(simple_string.encode(), b"+hello\r\n")
}

#[test]
fn test_encode_simple_error() {
    let simple_error = RespFrame::SimpleError(SimpleError::new("ERR some error!"));
    assert_eq!(simple_error.encode(), b"-ERR some error!\r\n")
}

#[test]
fn test_encode_integer() {
    let i = RespFrame::Integer(10);
    assert_eq!(i.encode(), b":10\r\n");

    let i = RespFrame::Integer(-10);
    assert_eq!(i.encode(), b":-10\r\n");
}

#[test]
fn test_encode_bulk_string() {
    let bulk_string = RespFrame::BulkString(BulkString::new(Some(b"hello".to_vec())));
    assert_eq!(bulk_string.encode(), b"$5\r\nhello\r\n");
}

#[test]
fn test_encode_array() {
    let array = RespFrame::Array(RespArray::new(Some(vec![
        RespFrame::BulkString(BulkString::new(Some(b"set".to_vec()))),
        RespFrame::BulkString(BulkString::new(Some(b"hello".to_vec()))),
        RespFrame::BulkString(BulkString::new(Some(b"world".to_vec()))),
    ])));
    assert_eq!(array.encode(), b"*3\r\n$3\r\nset\r\n$5\r\nhello\r\n$5\r\nworld\r\n");
}

#[test]
fn test_encode_null() {
    let null = RespFrame::Null(RespNull::new());
    assert_eq!(null.encode(), b"_\r\n");
}

#[test]
fn test_encode_bool() {
    let bo = RespFrame::Boolean(true);
    assert_eq!(bo.encode(), b"#t\r\n");

    let bo = RespFrame::Boolean(false);
    assert_eq!(bo.encode(), b"#f\r\n");
}

#[test]
fn test_encode_double() {
    let f = double_frame(123.456);
    assert_eq!(f.encode(), b",123.456\r\n");
    let f = double_frame(-123.456);
    assert_eq!(f.encode(), b",-123.456\r\n");
    let f = double_frame(1.23456e+8);
    assert_eq!(f.encode(), b",1.23456e8\r\n");
    let f = double_frame(-1.23456e-9);
    assert_eq!(f.encode(), b",-1.23456e-9\r\n");
}

#[test]
fn test_encode_map() {
    let mut map = RespMap::new();
    map.insert(
        SimpleString::new("hello"),
        RespFrame::SimpleString(SimpleString::new("world")),
    );
    map.insert(
        SimpleString::new("foo"),
        RespFrame::BulkString(BulkString::new(Some(b"bar".to_vec()))),
    );
    let frame = RespFrame::MapFrame(map);
    assert_eq!(frame.encode(), b"%2\r\n+foo\r\n$3\r\nbar\r\n+hello\r\n+world\r\n");
}

#[test]
fn test_encode_set() {
    let frame = RespFrame::SetFrame(RespSet::new(vec![
        RespFrame::Integer(10),
        RespFrame::BulkString(BulkString::new(Some(b"hello".to_vec()))),
        RespFrame::SimpleString(SimpleString::new("world")),
    ]));
    assert_eq!(frame.encode(), b"~3\r\n:10\r\n$5\r\nhello\r\n+world\r\n");
}

#[test]
fn encode_test_encode_simple_string() {
    let simple_string = RespFrame::SimpleString(SimpleString::new("hello"));
    assert_eq!(simple_string.encode(), b"+hello\r\n")
}

#[test]
fn encode_test_encode_integer() {
    let i = RespFrame::Integer(10);
    assert_eq!(i.encode(), b":10\r\n");

    let i = RespFrame::Integer(-10);
    assert_eq!(i.encode(), b":-10\r\n");
}

#[test]
fn encode_test_encode_bulk_string() {
    let bulk_string = RespFrame::BulkString(BulkString::new(Some(b"hello".to_vec())));
    assert_eq!(bulk_string.encode(), b"$5\r\nhello\r\n");
}

#[test]
fn encode_test_encode_array() {
    let array = RespFrame::Array(RespArray::new(Some(vec![
        RespFrame::BulkString(BulkString::new(Some(b"set".to_vec()))),
        RespFrame::BulkString(BulkString::new(Some(b"hello".to_vec()))),
        RespFrame::BulkString(BulkString::new(Some(b"world".to_vec()))),
    ])));
    assert_eq!(array.encode(), b"*3\r\n$3\r\nset\r\n$5\r\nhello\r\n$5\r\nworld\r\n");
}

#[test]
fn encode_test_encode_null() {
    let null = RespFrame::Null(RespNull::new());
    assert_eq!(null.encode(), b"_\r\n");
}

#[test]
fn encode_test_encode_bool() {
    let bo = RespFrame::Boolean(true);
    assert_eq!(bo.encode(), b"#t\r\n");

    let bo = RespFrame::Boolean(false);
    assert_eq!(bo.encode(), b"#f\r\n");
}

#[test]
fn encode_test_encode_double() {
    let f = double_frame(123.456);
    assert_eq!(f.encode(), b",123.456\r\n");
    let f = double_frame(-123.456);
    assert_eq!(f.encode(), b",-123.456\r\n");
    let f = double_frame(1.23456e+8);
    assert_eq!(f.encode(), b",1.23456e8\r\n");
    let f = double_frame(-1.23456e-9);
    assert_eq!(f.encode(), b",-1.23456e-9\r\n");
}

#[test]
fn encode_test_encode_map() {
    let mut map = RespMap::new();
    map.insert(
        SimpleString::new("hello"),
        RespFrame::SimpleString(SimpleString::new("world")),
    );
    map.insert(
        SimpleString::new("foo"),
        RespFrame::BulkString(BulkString::new(Some(b"bar".to_vec()))),
    );
    let frame = RespFrame::MapFrame(map);
    assert_eq!(frame.encode(), b"%2\r\n+foo\r\n$3\r\nbar\r\n+hello\r\n+world\r\n");
}

#[test]
fn encode_test_encode_set() {
    let frame = RespFrame::SetFrame(RespSet::new(vec![
        RespFrame::Integer(10),
        RespFrame::BulkString(BulkString::new(Some(b"hello".to_vec()))),
        RespFrame::SimpleString(SimpleString::new("world")),
    ]));
    assert_eq!(frame.encode(), b"~3\r\n:10\r\n$5\r\nhello\r\n+world\r\n");
}

#[test]
fn array_test_encode_array() {
    let array = RespFrame::Array(RespArray::new(Some(vec![
        RespFrame::BulkString(BulkString::new(Some(b"set".to_vec()))),
        RespFrame::BulkString(BulkString::new(Some(b"hello".to_vec()))),
        RespFrame::BulkString(BulkString::new(Some(b"world".to_vec()))),
    ])));
    assert_eq!(array.encode(), b"*3\r\n$3\r\nset\r\n$5\r\nhello\r\n$5\r\nworld\r\n");
}

#[test]
fn bool_test_encode_bool() {
    let bo = RespFrame::Boolean(true);
    assert_eq!(bo.encode(), b"#t\r\n");

    let bo = RespFrame::Boolean(false);
    assert_eq!(bo.encode(), b"#f\r\n");
}

#[test]
fn bulk_string_test_encode_bulk_string() {
    let bulk_string = RespFrame::BulkString(BulkString::new(Some(b"hello".to_vec())));
    assert_eq!(bulk_string.encode(), b"$5\r\nhello\r\n");
}

#[test]
fn double_test_encode_double() {
    let f = double_frame(123.456);
    assert_eq!(f.encode(), b",123.456\r\n");
    let f = double_frame(-123.456);
    assert_eq!(f.encode(), b",-123.456\r\n");
    let f = double_frame(1.23456e+8);
    assert_eq!(f.encode(), b",1.23456e8\r\n");
    let f = double_frame(-1.23456e-9);
    assert_eq!(f.encode(), b",-1.23456e-9\r\n");
}

#[test]
fn map_test_encode_map() {
    let mut map = RespMap::new();
    map.insert(
        SimpleString::new("hello"),
        RespFrame::SimpleString(SimpleString::new("world")),
    );
    map.insert(
        SimpleString::new("foo"),
        RespFrame::BulkString(BulkString::new(Some(b"bar".to_vec()))),
    );
    let frame = RespFrame::MapFrame(map);
    assert_eq!(frame.encode(), b"%2\r\n+foo\r\n$3\r\nbar\r\n+hello\r\n+world\r\n");
}

#[test]
fn null_test_encode_null() {
    let null = RespFrame::Null(RespNull::new());
    assert_eq!(null.encode(), b"_\r\n");
}

#[test]
fn set_test_encode_set() {
    let frame = RespFrame::SetFrame(RespSet::new(vec![
        RespFrame::Integer(10),
        RespFrame::BulkString(BulkString::new(Some(b"hello".to_vec()))),
        RespFrame::SimpleString(SimpleString::new("world")),
    ]));
    assert_eq!(frame.encode(), b"~3\r\n:10\r\n$5\r\nhello\r\n+world\r\n");
}

#[test]
fn simple_string_test_encode_simple_string() {
    let simple_string = RespFrame::SimpleString(SimpleString::new("hello"));
    assert_eq!(simple_string.encode(), b"+hello\r\n")
}

#[test]
fn integer_test_encode_simple_string() {
    let simple_string = RespFrame::SimpleString(SimpleString::new("hello"));
    assert_eq!(simple_string.encode(), b"+hello\r\n")
}

#[test]
fn simple_error_test_encode_integer() {
    let i = RespFrame::Integer(10);
    assert_eq!(i.encode(), b":10\r\n");

    let i = RespFrame::Integer(-10);
    assert_eq!(i.encode(), b":-10\r\n");
}

#[test]
fn test_parse_simple_string() {
    let input = b"+hello\r\n";
    let frame = parse_frame(input).unwrap();
    assert_eq!(frame, RespFrame::SimpleString(SimpleString::new("hello")));
}

#[test]
fn test_parse_simple_error() {
    let input = b"-error message\r\n";
    let frame = parse_frame(input).unwrap();
    assert_eq!(frame, RespFrame::SimpleError(SimpleError::new("error message")));
}

#[test]
fn test_parse_integer() {
    let input = b":1234\r\n";
    let frame = parse_frame(input).unwrap();
    assert_eq!(frame, RespFrame::Integer(1234));
}

#[test]
fn test_parse_bulk_string() {
    let input = b"$5\r\nhello\r\n";
    let frame = parse_frame(input).unwrap();
    assert_eq!(frame, RespFrame::BulkString(BulkString::new(Some(b"hello".to_vec()))));
}

#[test]
fn test_parse_array() {
    let input = b"*3\r\n:1\r\n:2\r\n:3\r\n";
    let frame = parse_frame(input).unwrap();
    assert_eq!(
        frame,
        RespFrame::Array(RespArray::new(Some(vec![
            RespFrame::Integer(1),
            RespFrame::Integer(2),
            RespFrame::Integer(3),
        ])))
    );
}

#[test]
fn test_parse_null() {
    let input = b"_\r\n";
    let frame = parse_frame(input).unwrap();
    assert_eq!(frame, RespFrame::Null(RespNull::new()));
}

#[test]
fn test_parse_boolean() {
    let input = b"#t\r\n";
    let frame = parse_frame(input).unwrap();
    assert_eq!(frame, RespFrame::Boolean(true));

    let input = b"#f\r\n";
    let frame = parse_frame(input).unwrap();
    assert_eq!(frame, RespFrame::Boolean(false));
}

#[test]
fn test_parse_double() {
    let input = b",-11.44\r\n";
    let frame = parse_frame(input).unwrap();
    assert_eq!(frame, double_frame(-11.44));
}

#[test]
fn test_parse_map() {
    let input = b"%2\r\n+key1\r\n:1\r\n+key2\r\n:2\r\n";
    let frame = parse_frame(input).unwrap();
    let mut map = RespMap::new();
    map.insert(SimpleString::new("key1"), RespFrame::Integer(1));
    map.insert(SimpleString::new("key2"), RespFrame::Integer(2));
    assert_eq!(frame, RespFrame::MapFrame(map));
}

#[test]
fn test_parse_set() {
    let input = b"~3\r\n:1\r\n:2\r\n:3\r\n";
    let frame = parse_frame(input).unwrap();
    assert_eq!(
        frame,
        RespFrame::SetFrame(RespSet::new(vec![
            RespFrame::Integer(1),
            RespFrame::Integer(2),
            RespFrame::Integer(3),
        ]))
    );
}

#[test]
fn test_parse_invalid_marker_is_error() {
    let input = b"hello\r\n";
    let r = parse_frame(input);
    assert!(matches!(r, Err(RespError::InvalidFrameType(_))));
}
