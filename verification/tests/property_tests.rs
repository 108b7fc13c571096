//! Scenario tests: round trips, split reads, permuted wire order, exact
//! consumption, error kinds, and the stream framer.
use bytes::BytesMut;
use simple_redis::BulkString;
use simple_redis::RespArray;
use simple_redis::RespEncode;
use simple_redis::RespError;
use simple_redis::RespFrame;
use simple_redis::RespFrameCodec;
use simple_redis::RespMap;
use simple_redis::RespNull;
use simple_redis::RespSet;
use simple_redis::SimpleError;
use simple_redis::SimpleString;
use simple_redis::parse_frame_length;

fn clone_via_wire(f: &RespFrame) -> Vec<u8> {
    simple_redis::encode_frame(f)
}

#[test]
fn test_scenario_set_command_round_trip() {
    let wire = b"*3\r\n$3\r\nset\r\n$5\r\nhello\r\n$5\r\nworld\r\n";
    let mut buf = BytesMut::from(wire.as_slice());
    let frame = RespFrame::decode(&mut buf).unwrap();
    assert_eq!(
        frame,
        RespFrame::Array(RespArray::new(Some(vec![
            RespFrame::BulkString(BulkString::new(Some(b"set".to_vec()))),
            RespFrame::BulkString(BulkString::new(Some(b"hello".to_vec()))),
            RespFrame::BulkString(BulkString::new(Some(b"world".to_vec()))),
        ])))
    );
    assert_eq!(buf.len(), 0);
    assert_eq!(frame.encode(), wire);
}

#[test]
fn test_scenario_null_bulk_string_round_trip() {
    let mut buf = BytesMut::from(b"$-1\r\n".as_slice());
    let frame = RespFrame::decode(&mut buf).unwrap();
    assert_eq!(frame, RespFrame::BulkString(BulkString::new(None)));
    assert_eq!(frame.encode(), b"$-1\r\n");
}

#[test]
fn test_scenario_null_array_distinct_from_null() {
    let mut buf = BytesMut::from(b"*-1\r\n".as_slice());
    let frame = RespFrame::decode(&mut buf).unwrap();
    assert_eq!(frame, RespFrame::Array(RespArray::new(None)));
    assert_ne!(frame, RespFrame::Null(RespNull::new()));
}

#[test]
fn test_scenario_split_read_incomplete_then_complete() {
    let mut buf = BytesMut::from(b"+OK\r".as_slice());
    let r = RespFrame::decode(&mut buf);
    assert_eq!(r.unwrap_err(), RespError::NotComplete);
    assert_eq!(buf.to_vec(), b"+OK\r");
    buf.extend_from_slice(b"\n");
    let frame = RespFrame::decode(&mut buf).unwrap();
    assert_eq!(frame, RespFrame::SimpleString(SimpleString::new("OK")));
}

#[test]
fn test_scenario_set_with_duplicates_equals_without() {
    let mut buf1 = BytesMut::from(
        b"~6\r\n:10\r\n$5\r\nhello\r\n+world\r\n:10\r\n$5\r\nhello\r\n+world\r\n".as_slice(),
    );
    let mut buf2 = BytesMut::from(b"~3\r\n:10\r\n$5\r\nhello\r\n+world\r\n".as_slice());
    let f1 = RespFrame::decode(&mut buf1).unwrap();
    let f2 = RespFrame::decode(&mut buf2).unwrap();
    assert_eq!(f1, f2);
    assert!(matches!(&f1, RespFrame::SetFrame(s) if s.len() == 3));
}

#[test]
fn test_scenario_scientific_double_round_trip() {
    let wire = b",1.23456e8\r\n";
    let mut buf = BytesMut::from(wire.as_slice());
    let frame = RespFrame::decode(&mut buf).unwrap();
    let expected_text = format!("{:e}", 1.23456e8f64);
    assert_eq!(frame, RespFrame::Double(expected_text.into_bytes()));
    assert_eq!(frame.encode(), wire);
}

#[test]
fn test_round_trip_every_variant() {
    let mut map = RespMap::new();
    map.insert(SimpleString::new("a"), RespFrame::Integer(1));
    map.insert(SimpleString::new("b"), RespFrame::Boolean(true));
    let frames = vec![
        RespFrame::SimpleString(SimpleString::new("fine")),
        RespFrame::SimpleError(SimpleError::new("ERR broken")),
        RespFrame::Integer(-42),
        RespFrame::BulkString(BulkString::new(Some(b"\r\nraw\r\n".to_vec()))),
        RespFrame::BulkString(BulkString::new(None)),
        RespFrame::Array(RespArray::new(None)),
        RespFrame::Array(RespArray::new(Some(vec![]))),
        RespFrame::Array(RespArray::new(Some(vec![RespFrame::Null(RespNull::new())]))),
        RespFrame::Null(RespNull::new()),
        RespFrame::Boolean(false),
        RespFrame::Double(b"3.14".to_vec()),
        RespFrame::MapFrame(map),
        RespFrame::SetFrame(RespSet::new(vec![])),
    ];
    for f in frames {
        let wire = clone_via_wire(&f);
        let mut buf = BytesMut::from(wire.as_slice());
        let back = RespFrame::decode(&mut buf).unwrap();
        assert_eq!(back, f);
        assert_eq!(buf.len(), 0);
    }
}

#[test]
fn test_permuted_map_decodes_equal() {
    let mut b1 = BytesMut::from(b"%2\r\n+x\r\n:1\r\n+y\r\n:2\r\n".as_slice());
    let mut b2 = BytesMut::from(b"%2\r\n+y\r\n:2\r\n+x\r\n:1\r\n".as_slice());
    let f1 = RespFrame::decode(&mut b1).unwrap();
    let f2 = RespFrame::decode(&mut b2).unwrap();
    assert_eq!(f1, f2);
}

#[test]
fn test_permuted_set_decodes_equal() {
    let mut b1 = BytesMut::from(b"~3\r\n:3\r\n:1\r\n:2\r\n".as_slice());
    let mut b2 = BytesMut::from(b"~3\r\n:2\r\n:3\r\n:1\r\n".as_slice());
    let f1 = RespFrame::decode(&mut b1).unwrap();
    let f2 = RespFrame::decode(&mut b2).unwrap();
    assert_eq!(f1, f2);
}

#[test]
fn test_exact_consumption_matches_oracle() {
    let wire = b"*2\r\n$1\r\na\r\n:5\r\n+extra\r\n";
    let n = parse_frame_length(wire).unwrap();
    let mut buf = BytesMut::from(wire.as_slice());
    let _ = RespFrame::decode(&mut buf).unwrap();
    assert_eq!(buf.len(), wire.len() - n);
    assert_eq!(buf.to_vec(), b"+extra\r\n");
}

#[test]
fn test_error_kind_invalid_frame_length() {
    let mut buf = BytesMut::from(b"$-5\r\nhello\r\n".as_slice());
    let r = RespFrame::decode(&mut buf);
    assert_eq!(r.unwrap_err(), RespError::InvalidFrameLength(-5));
}

#[test]
fn test_error_kind_invalid_frame_type() {
    let mut buf = BytesMut::from(b"xyz\r\n".as_slice());
    let r = RespFrame::decode(&mut buf);
    assert!(matches!(r.unwrap_err(), RespError::InvalidFrameType(_)));
}

#[test]
fn test_error_kind_invalid_frame_data_on_bad_integer() {
    let mut buf = BytesMut::from(b":12a\r\n".as_slice());
    let r = RespFrame::decode(&mut buf);
    assert!(matches!(r.unwrap_err(), RespError::InvalidFrameData(_)));
}

#[test]
fn test_error_kind_invalid_frame_data_on_bad_utf8_text() {
    let mut buf = BytesMut::from(b"+a\xff\xfe\r\n".as_slice());
    let r = RespFrame::decode(&mut buf);
    assert!(matches!(r.unwrap_err(), RespError::InvalidFrameData(_)));
}

#[test]
fn test_error_kind_invalid_frame_data_on_bad_float() {
    let mut buf = BytesMut::from(b",12..5\r\n".as_slice());
    let r = RespFrame::decode(&mut buf);
    assert!(matches!(r.unwrap_err(), RespError::InvalidFrameData(_)));
}

#[test]
fn test_float_grammar_accepts_special_words() {
    for text in ["inf", "-inf", "+Infinity", "NaN", "3.", ".5", "1e10", "-1.5E-3"] {
        let wire = format!(",{}\r\n", text).into_bytes();
        let mut buf = BytesMut::from(wire.as_slice());
        let frame = RespFrame::decode(&mut buf).unwrap();
        assert_eq!(frame, RespFrame::Double(text.as_bytes().to_vec()));
        assert!(text.parse::<f64>().is_ok());
    }
}

#[test]
fn test_float_grammar_matches_float_parser_on_rejects() {
    for text in ["", ".", "e5", "3e", "1.2.3", "one", "--5"] {
        let wire = format!(",{}\r\n", text).into_bytes();
        let mut buf = BytesMut::from(wire.as_slice());
        let r = RespFrame::decode(&mut buf);
        assert!(r.is_err(), "accepted {:?}", text);
        assert!(text.parse::<f64>().is_err());
    }
}

#[test]
fn test_bulk_missing_trailing_terminator_is_data_error() {
    let mut buf = BytesMut::from(b"$3\r\nabcde\r\n".as_slice());
    let r = RespFrame::decode(&mut buf);
    assert!(matches!(r.unwrap_err(), RespError::InvalidFrameData(_)));
}

#[test]
fn test_incomplete_bulk_waits_for_more() {
    let mut buf = BytesMut::from(b"$5\r\nab".as_slice());
    let r = RespFrame::decode(&mut buf);
    assert_eq!(r.unwrap_err(), RespError::NotComplete);
    assert_eq!(buf.to_vec(), b"$5\r\nab");
    buf.extend_from_slice(b"cde\r\n");
    let frame = RespFrame::decode(&mut buf).unwrap();
    assert_eq!(frame, RespFrame::BulkString(BulkString::new(Some(b"abcde".to_vec()))));
}

#[test]
fn test_codec_framer_pipelined_frames() {
    let mut codec = RespFrameCodec;
    let mut src = BytesMut::from(b"+one\r\n+two".as_slice());
    let first = codec.decode(&mut src).unwrap();
    assert_eq!(first, Some(RespFrame::SimpleString(SimpleString::new("one"))));
    let second = codec.decode(&mut src).unwrap();
    assert_eq!(second, None);
    src.extend_from_slice(b"\r\n");
    let second = codec.decode(&mut src).unwrap();
    assert_eq!(second, Some(RespFrame::SimpleString(SimpleString::new("two"))));

    let mut dst = BytesMut::new();
    codec.encode(RespFrame::Integer(7), &mut dst);
    assert_eq!(dst.to_vec(), b":7\r\n");
}

#[test]
fn test_map_duplicate_key_keeps_last_value() {
    let mut buf = BytesMut::from(b"%2\r\n+k\r\n:1\r\n+k\r\n:2\r\n".as_slice());
    let frame = RespFrame::decode(&mut buf).unwrap();
    let mut map = RespMap::new();
    map.insert(SimpleString::new("k"), RespFrame::Integer(2));
    assert_eq!(frame, RespFrame::MapFrame(map));
}

#[test]
fn test_nested_aggregates_round_trip() {
    let wire = b"*2\r\n*1\r\n:1\r\n%1\r\n+k\r\n~2\r\n:9\r\n:10\r\n";
    let n = parse_frame_length(wire).unwrap();
    assert_eq!(n, wire.len());
    let mut buf = BytesMut::from(wire.as_slice());
    let frame = RespFrame::decode(&mut buf).unwrap();
    let bytes = frame.encode();
    let mut buf2 = BytesMut::from(bytes.as_slice());
    let frame2 = RespFrame::decode(&mut buf2).unwrap();
    let mut buf3 = BytesMut::from(wire.as_slice());
    assert_eq!(frame2, RespFrame::decode(&mut buf3).unwrap());
}

#[test]
fn test_integer_parse_grammar_matches_std() {
    for text in ["+5", "007", "-0"] {
        let wire = format!(":{}\r\n", text).into_bytes();
        let mut buf = BytesMut::from(wire.as_slice());
        let frame = RespFrame::decode(&mut buf).unwrap();
        assert_eq!(frame, RespFrame::Integer(text.parse::<i64>().unwrap()));
    }
    for text in ["", "-", "12 3", "99999999999999999999"] {
        let wire = format!(":{}\r\n", text).into_bytes();
        let mut buf = BytesMut::from(wire.as_slice());
        assert!(RespFrame::decode(&mut buf).is_err());
        assert!(text.parse::<i64>().is_err());
    }
}

#[test]
fn test_invalid_frame_error_carries_lossy_text() {
    let input = b"\xffhello\r\n";
    let r = parse_frame_length(input);
    let expected = String::from_utf8_lossy(input).to_string();
    assert_eq!(r, Err(RespError::InvalidFrame(expected)));
}

#[test]
fn test_simple_string_utf8_payload_round_trip() {
    let frame = RespFrame::SimpleString(SimpleString::new("héllo ✓"));
    let wire = clone_via_wire(&frame);
    let mut buf = BytesMut::from(wire.as_slice());
    assert_eq!(RespFrame::decode(&mut buf).unwrap(), frame);
}
