use bytes::BytesMut;
use resp_codec::backend::Backend;
use resp_codec::cmd::validate_command;
use resp_codec::cmd::Command;
use resp_codec::cmd::CommandExecutor;
use resp_codec::frame::RespArray;
use resp_codec::frame::RespFrame;

fn bulk(s: &str) -> RespFrame {
    RespFrame::BulkString(s.as_bytes().to_vec())
}

#[test]
fn test_command() {
    let mut buf = BytesMut::new();
    buf.extend_from_slice(b"*2\r\n$3\r\nget\r\n$5\r\nhello\r\n");

    let frame = RespArray::decode(&mut buf).unwrap();

    let cmd = Command::try_from_array(frame).unwrap();

    let mut backend = Backend::new();

    let ret = cmd.execute(&mut backend);
    assert_eq!(ret, RespFrame::Null);
}

#[test]
fn get_after_set_returns_value() {
    let mut backend = Backend::new();

    let set = Command::try_from_array(RespArray::new(vec![
        bulk("set"),
        bulk("hello"),
        bulk("world"),
    ]))
    .unwrap();
    let ret = set.execute(&mut backend);
    assert_eq!(ret, RespFrame::SimpleString("OK".to_string()));

    let get = Command::try_from_array(RespArray::new(vec![bulk("get"), bulk("hello")])).unwrap();
    let ret = get.execute(&mut backend);
    assert_eq!(ret, bulk("world"));
}

#[test]
fn get_on_empty_backend_returns_null() {
    let mut backend = Backend::new();
    let get = Command::try_from_array(RespArray::new(vec![bulk("get"), bulk("hello")])).unwrap();
    assert_eq!(get.execute(&mut backend), RespFrame::Null);
}

#[test]
fn hset_hget_hgetall_work() {
    let mut backend = Backend::new();

    let hset = Command::try_from_array(RespArray::new(vec![
        bulk("hset"),
        bulk("map"),
        bulk("b"),
        bulk("two"),
    ]))
    .unwrap();
    assert_eq!(
        hset.execute(&mut backend),
        RespFrame::SimpleString("OK".to_string())
    );

    let hset = Command::try_from_array(RespArray::new(vec![
        bulk("hset"),
        bulk("map"),
        bulk("a"),
        bulk("one"),
    ]))
    .unwrap();
    hset.execute(&mut backend);

    let hget = Command::try_from_array(RespArray::new(vec![bulk("hget"), bulk("map"), bulk("b")]))
        .unwrap();
    assert_eq!(hget.execute(&mut backend), bulk("two"));

    let missing =
        Command::try_from_array(RespArray::new(vec![bulk("hget"), bulk("map"), bulk("c")]))
            .unwrap();
    assert_eq!(missing.execute(&mut backend), RespFrame::Null);

    let all = Command::try_from_array(RespArray::new(vec![bulk("hgetall"), bulk("map")])).unwrap();
    assert_eq!(
        all.execute(&mut backend),
        RespFrame::MapData(vec![
            ("a".to_string(), bulk("one")),
            ("b".to_string(), bulk("two")),
        ])
    );
}

#[test]
fn unrecognized_command_returns_ok() {
    let mut backend = Backend::new();
    let cmd = Command::try_from_array(RespArray::new(vec![bulk("ping")])).unwrap();
    assert_eq!(
        cmd.execute(&mut backend),
        RespFrame::SimpleString("OK".to_string())
    );
}

#[test]
fn command_must_be_array_of_bulk_strings() {
    assert!(Command::try_from(RespFrame::Integer(3)).is_err());
    assert!(Command::try_from_array(RespArray::new(vec![RespFrame::Integer(3)])).is_err());
    assert!(Command::try_from_array(RespArray::new(vec![])).is_err());
}

#[test]
fn validate_command_checks_names_and_counts() {
    let good = RespArray::new(vec![bulk("GeT"), bulk("hello")]);
    assert!(validate_command(&good, &["get"], 1).is_ok());

    let wrong_count = RespArray::new(vec![bulk("get")]);
    assert!(validate_command(&wrong_count, &["get"], 1).is_err());

    let wrong_name = RespArray::new(vec![bulk("gat"), bulk("hello")]);
    assert!(validate_command(&wrong_name, &["get"], 1).is_err());

    let not_bulk = RespArray::new(vec![RespFrame::Integer(1), bulk("hello")]);
    assert!(validate_command(&not_bulk, &["get"], 1).is_err());
}

#[test]
fn command_over_decoded_frame_roundtrip() {
    let mut backend = Backend::new();

    let wire = RespFrame::Array(RespArray::new(vec![bulk("set"), bulk("k"), bulk("v")])).encode();
    let mut buf = BytesMut::from(&wire[..]);
    let frame = RespFrame::decode(&mut buf).unwrap();
    let cmd = Command::try_from(frame).unwrap();
    let reply = cmd.execute(&mut backend);
    assert_eq!(reply.encode(), b"+OK\r\n");

    let wire = RespFrame::Array(RespArray::new(vec![bulk("get"), bulk("k")])).encode();
    let mut buf = BytesMut::from(&wire[..]);
    let frame = RespFrame::decode(&mut buf).unwrap();
    let cmd = Command::try_from(frame).unwrap();
    let reply = cmd.execute(&mut backend);
    assert_eq!(reply, bulk("v"));
    assert_eq!(reply.encode(), b"$1\r\nv\r\n");
}

#[test]
fn non_text_key_is_a_utf8_error() {
    let arr = RespArray::new(vec![bulk("get"), RespFrame::BulkString(vec![0xff, 0xfe])]);
    let err = Command::try_from_array(arr).unwrap_err();
    assert!(matches!(err, resp_codec::cmd::CommandError::Utf8Error(_)));
}

#[test]
fn command_names_match_case_insensitively() {
    let mut backend = Backend::new();

    let set = Command::try_from_array(RespArray::new(vec![
        bulk("SeT"),
        bulk("hello"),
        bulk("world"),
    ]))
    .unwrap();
    assert_eq!(
        set.execute(&mut backend),
        RespFrame::SimpleString("OK".to_string())
    );

    let get = Command::try_from_array(RespArray::new(vec![bulk("GET"), bulk("hello")])).unwrap();
    assert_eq!(get.execute(&mut backend), bulk("world"));

    let bad = Command::try_from_array(RespArray::new(vec![bulk("GET")]));
    assert!(bad.is_err());
}
