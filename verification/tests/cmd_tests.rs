//! Command-layer tests: frame-to-command parsing and execution against the
//! shared store.
use bytes::BytesMut;
use simple_redis::Backend;
use simple_redis::BulkString;
use simple_redis::RespArray;
use simple_redis::RespFrame;
use simple_redis::SimpleString;
use simple_redis::cmd::Command;
use simple_redis::cmd::CommandExecutor;
use simple_redis::cmd::Echo;
use simple_redis::cmd::Get;
use simple_redis::cmd::HGet;
use simple_redis::cmd::HGetAll;
use simple_redis::cmd::HSet;
use simple_redis::cmd::Hmget;
use simple_redis::cmd::Sadd;
use simple_redis::cmd::SetCmd;
use simple_redis::cmd::Sismember;
use simple_redis::network::RedisRequest;
use simple_redis::network::redis_request_handler;

#[test]
fn test_echo_try_from() {
    let mut buf = BytesMut::from(b"*2\r\n$4\r\necho\r\n$11\r\nhello world\r\n".as_slice());
    let array = RespArray::decode(&mut buf).expect("error in decode resp array");
    let hget = Command::try_from(array).unwrap();
    assert_eq!(hget, Command::Echo(Echo::new("hello world".to_string())))
}

#[test]
fn get_test_get_try_from() {
    let mut buf = BytesMut::from(b"*2\r\n$3\r\nget\r\n$5\r\nhello\r\n".as_slice());
    let array = RespArray::decode(&mut buf).expect("error in decode resp array");
    let get = Command::try_from(array).unwrap();
    assert_eq!(get, Command::Get(Get::new("hello".to_string())))
}

#[test]
fn test_cmd_get_set() {
    let backend = Backend::new();
    let mut buf = BytesMut::from(b"*3\r\n$3\r\nset\r\n$5\r\nhello\r\n$5\r\nworld\r\n".as_slice());
    let array = RespArray::decode(&mut buf).expect("error in decode resp array");
    let cmd = Command::try_from(array).unwrap();
    let ret = cmd.execute(&backend);
    assert_eq!(ret, RespFrame::SimpleString(SimpleString::new("OK")));

    let mut buf = BytesMut::from(b"*2\r\n$3\r\nget\r\n$5\r\nhello\r\n".as_slice());
    let array = RespArray::decode(&mut buf).expect("error in decode resp array");
    let get = Command::try_from(array).unwrap();
    let ret = get.execute(&backend);
    assert_eq!(ret, RespFrame::BulkString(BulkString::new(Some(b"world".to_vec()))));
}

#[test]
fn set_test_set_try_from() {
    let mut buf = BytesMut::from(b"*3\r\n$3\r\nset\r\n$5\r\nhello\r\n$5\r\nworld\r\n".as_slice());
    let array = RespArray::decode(&mut buf).expect("error in decode resp array");
    let set = Command::try_from(array).unwrap();
    let mut buf = BytesMut::from(b"$5\r\nworld\r\n".as_slice());
    let value = BulkString::decode(&mut buf).unwrap();
    assert_eq!(
        set,
        Command::SetCmd(SetCmd::new("hello".to_string(), RespFrame::BulkString(value)))
    )
}

#[test]
fn hget_test_hget_try_from() {
    let mut buf = BytesMut::from(b"*3\r\n$4\r\nhget\r\n$5\r\nhello\r\n$5\r\nworld\r\n".as_slice());
    let array = RespArray::decode(&mut buf).expect("error in decode resp array");
    let hget = Command::try_from(array).unwrap();
    assert_eq!(hget, Command::HGet(HGet::new("hello".to_string(), "world".to_string())))
}

#[test]
fn test_cmd_hget_hset() {
    let backend = Backend::new();
    let mut buf = BytesMut::from(
        b"*4\r\n$4\r\nhset\r\n$3\r\nmap\r\n$5\r\nhello\r\n$5\r\nworld\r\n".as_slice(),
    );
    let array = RespArray::decode(&mut buf).expect("error in decode resp array");
    let cmd = Command::try_from(array).unwrap();
    let ret = cmd.execute(&backend);
    assert_eq!(ret, RespFrame::Integer(1));

    let mut buf = BytesMut::from(b"*3\r\n$4\r\nhget\r\n$3\r\nmap\r\n$5\r\nhello\r\n".as_slice());
    let array = RespArray::decode(&mut buf).expect("error in decode resp array");
    let get = Command::try_from(array).unwrap();
    let ret = get.execute(&backend);
    assert_eq!(ret, RespFrame::BulkString(BulkString::new(Some(b"world".to_vec()))));
}

#[test]
fn hgetall_test_hgetall_try_from() {
    let mut buf = BytesMut::from(b"*2\r\n$7\r\nhgetall\r\n$5\r\nhello\r\n".as_slice());
    let array = RespArray::decode(&mut buf).expect("error in decode resp array");
    let hgetall = Command::try_from(array).unwrap();
    assert_eq!(hgetall, Command::HGetAll(HGetAll::new("hello".to_string())))
}

#[test]
fn test_cmd_hgetall() {
    let backend = Backend::new();
    let mut buf = BytesMut::from(
        b"*4\r\n$4\r\nhset\r\n$3\r\nmap\r\n$5\r\nhello\r\n$5\r\nworld\r\n".as_slice(),
    );
    let array = RespArray::decode(&mut buf).expect("error in decode resp array");
    let cmd = Command::try_from(array).unwrap();
    let ret = cmd.execute(&backend);
    assert_eq!(ret, RespFrame::Integer(1));

    let mut buf = BytesMut::from(
        b"*4\r\n$4\r\nhset\r\n$3\r\nmap\r\n$4\r\nname\r\n$3\r\ntom\r\n".as_slice(),
    );
    let array = RespArray::decode(&mut buf).expect("error in decode resp array");
    let cmd = Command::try_from(array).unwrap();
    let ret = cmd.execute(&backend);
    assert_eq!(ret, RespFrame::Integer(1));

    let mut buf = BytesMut::from(b"*2\r\n$7\r\nhgetall\r\n$3\r\nmap\r\n".as_slice());
    let array = RespArray::decode(&mut buf).expect("error in decode resp array");
    let get = Command::try_from(array).unwrap();
    let ret = get.execute(&backend);
    let vec = vec![
        RespFrame::BulkString(BulkString::new(Some(b"hello".to_vec()))),
        RespFrame::BulkString(BulkString::new(Some(b"world".to_vec()))),
        RespFrame::BulkString(BulkString::new(Some(b"name".to_vec()))),
        RespFrame::BulkString(BulkString::new(Some(b"tom".to_vec()))),
    ];

    assert_eq!(ret, RespFrame::Array(RespArray::new(Some(vec))));
}

#[test]
fn test_hmget_try_from() {
    let mut buf = BytesMut::from(
        b"*4\r\n$5\r\nhmget\r\n$3\r\nmap\r\n$4\r\nname\r\n$3\r\nage\r\n".as_slice(),
    );
    let array = RespArray::decode(&mut buf).expect("error in decode resp array");
    let hget = Command::try_from(array).unwrap();
    assert_eq!(
        hget,
        Command::Hmget(Hmget::new("map".to_string(), vec![
            "name".to_string(),
            "age".to_string(),
        ]))
    )
}

#[test]
fn test_cmd_hmget_hset() {
    let backend = Backend::new();
    let mut buf = BytesMut::from(
        b"*6\r\n$4\r\nhset\r\n$3\r\nmap\r\n$4\r\nname\r\n$3\r\ntom\r\n$3\r\nage\r\n$2\r\n11\r\n"
            .as_slice(),
    );
    let array = RespArray::decode(&mut buf).expect("error in decode resp array");
    let cmd = Command::try_from(array).unwrap();
    let ret = cmd.execute(&backend);
    assert_eq!(ret, RespFrame::Integer(2));

    let mut buf = BytesMut::from(
        b"*4\r\n$5\r\nhmget\r\n$3\r\nmap\r\n$4\r\nname\r\n$3\r\nage\r\n".as_slice(),
    );
    let array = RespArray::decode(&mut buf).expect("error in decode resp array");
    let get = Command::try_from(array).unwrap();
    let ret = get.execute(&backend);
    assert_eq!(
        ret,
        RespFrame::Array(RespArray::new(Some(vec![
            RespFrame::BulkString(BulkString::new(Some(b"tom".to_vec()))),
            RespFrame::BulkString(BulkString::new(Some(b"11".to_vec()))),
        ])))
    );

    let mut buf = BytesMut::from(
        b"*5\r\n$5\r\nhmget\r\n$3\r\nmap\r\n$4\r\nname\r\n$3\r\nage\r\n$3\r\nsex\r\n".as_slice(),
    );
    let array = RespArray::decode(&mut buf).expect("error in decode resp array");
    let get = Command::try_from(array).unwrap();
    let ret = get.execute(&backend);
    assert_eq!(
        ret,
        RespFrame::Array(RespArray::new(Some(vec![
            RespFrame::BulkString(BulkString::new(Some(b"tom".to_vec()))),
            RespFrame::BulkString(BulkString::new(Some(b"11".to_vec()))),
            RespFrame::BulkString(BulkString::new(None)),
        ])))
    );
}

#[test]
fn hset_test_hset_try_from() {
    let mut buf = BytesMut::from(
        b"*4\r\n$4\r\nhset\r\n$3\r\nmap\r\n$5\r\nhello\r\n$5\r\nworld\r\n".as_slice(),
    );
    let array = RespArray::decode(&mut buf).expect("error in decode resp array");
    let hset = Command::try_from(array).unwrap();
    assert_eq!(
        hset,
        Command::HSet(HSet::new(
            "map".to_string(),
            vec!["hello".to_string()],
            vec![RespFrame::BulkString(BulkString::new(Some(b"world".to_vec())))],
        ))
    )
}

#[test]
fn test_sadd_try_from() {
    let mut buf = BytesMut::from(b"*3\r\n$4\r\nsadd\r\n$3\r\nset\r\n$3\r\none\r\n".as_slice());
    let array = RespArray::decode(&mut buf).expect("error in decode resp array");
    let sadd = Command::try_from(array).unwrap();
    assert_eq!(sadd, Command::Sadd(Sadd::new("set".to_string(), vec!["one".to_string()])))
}

#[test]
fn test_sismember_try_from() {
    let mut buf = BytesMut::from(b"*3\r\n$9\r\nsismember\r\n$3\r\nset\r\n$3\r\none\r\n".as_slice());
    let array = RespArray::decode(&mut buf).expect("error in decode resp array");
    let sadd = Command::try_from(array).unwrap();
    assert_eq!(
        sadd,
        Command::Sismember(Sismember::new("set".to_string(), "one".to_string()))
    )
}

#[test]
fn test_cmd_sismember_sadd() {
    let backend = Backend::new();
    let mut buf = BytesMut::from(b"*3\r\n$4\r\nsadd\r\n$3\r\nset\r\n$3\r\none\r\n".as_slice());
    let array = RespArray::decode(&mut buf).expect("error in decode resp array");
    let cmd = Command::try_from(array).unwrap();
    let ret = cmd.execute(&backend);
    assert_eq!(ret, RespFrame::Integer(1));

    let mut buf = BytesMut::from(
        b"*3\r\n$9\r\nsismember\r\n$3\r\nset\r\n$3\r\none\r\n".as_slice(),
    );
    let array = RespArray::decode(&mut buf).expect("error in decode resp array");
    let cmd = Command::try_from(array).unwrap();
    let ret = cmd.execute(&backend);
    assert_eq!(ret, RespFrame::Integer(1));

    let mut buf = BytesMut::from(
        b"*3\r\n$9\r\nsismember\r\n$3\r\nset\r\n$3\r\ntwo\r\n".as_slice(),
    );
    let array = RespArray::decode(&mut buf).expect("error in decode resp array");
    let cmd = Command::try_from(array).unwrap();
    let ret = cmd.execute(&backend);
    assert_eq!(ret, RespFrame::Integer(0));
}

#[test]
fn test_unrecognized_command_is_ok() {
    let backend = Backend::new();
    let mut buf = BytesMut::from(b"*1\r\n$4\r\nping\r\n".as_slice());
    let array = RespArray::decode(&mut buf).unwrap();
    let cmd = Command::try_from(array).unwrap();
    let ret = cmd.execute(&backend);
    assert_eq!(ret, RespFrame::SimpleString(SimpleString::new("OK")));
}

#[test]
fn test_null_array_is_command_error() {
    let mut buf = BytesMut::from(b"*-1\r\n".as_slice());
    let array = RespArray::decode(&mut buf).unwrap();
    assert!(Command::try_from(array).is_err());
}

#[test]
fn test_non_utf8_argument_is_command_error() {
    let mut buf = BytesMut::from(b"*2\r\n$3\r\nget\r\n$2\r\n\xff\xfe\r\n".as_slice());
    let array = RespArray::decode(&mut buf).unwrap();
    assert!(Command::try_from(array).is_err());
}

#[test]
fn test_request_handler_echo_round_trip() {
    let backend = Backend::new();
    let mut buf = BytesMut::from(b"*2\r\n$4\r\necho\r\n$5\r\nhello\r\n".as_slice());
    let frame = RespFrame::decode(&mut buf).unwrap();
    let response = redis_request_handler(RedisRequest { frame, backend });
    assert_eq!(
        response.frame,
        RespFrame::BulkString(BulkString::new(Some(b"hello".to_vec())))
    );
}

#[test]
fn test_request_handler_malformed_command_replies_error() {
    let backend = Backend::new();
    let mut buf = BytesMut::from(b"*2\r\n$3\r\nget\r\n:5\r\n".as_slice());
    let frame = RespFrame::decode(&mut buf).unwrap();
    let response = redis_request_handler(RedisRequest { frame, backend });
    assert!(matches!(response.frame, RespFrame::SimpleError(_)));
}

#[test]
fn test_request_handler_bad_frame_replies_error() {
    let backend = Backend::new();
    let request = RedisRequest { frame: RespFrame::Integer(1), backend };
    let response = redis_request_handler(request);
    assert!(matches!(response.frame, RespFrame::SimpleError(_)));
}
