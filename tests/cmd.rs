use simple_redis::{
    BulkString, Command, CommandError, HSet, HmGet, RespArray, RespFrame, SimpleString, SisMember,
};

fn bulk_arg(s: &str) -> RespFrame {
    Some(BulkString::new(s.as_bytes())).into()
}

fn request(parts: &[&str]) -> RespFrame {
    Some(RespArray::new(parts.iter().map(|p| bulk_arg(p)).collect())).into()
}

#[test]
fn test_echo() {
    let frame: RespFrame = Some(RespArray::new(vec![bulk_arg("echo"), bulk_arg("hello")])).into();

    let echo = Command::try_from(frame).unwrap();
    let ret = match echo {
        Command::Echo(e) => e.execute(),
        other => panic!("unexpected command {:?}", other),
    };
    assert_eq!(ret, Some(BulkString::new(b"hello")).into());
}

#[test]
fn test_sadd() {
    let frame = request(&["sadd", "myset", "A", "B", "C"]);

    let sadd = Command::try_from(frame).unwrap();
    let ret = match sadd {
        Command::SAdd(s) => s.execute(),
        other => panic!("unexpected command {:?}", other),
    };
    assert_eq!(ret, 3.into());
}

#[test]
fn echo_request_decoded_from_the_wire_replies_with_its_argument() {
    let frame = RespFrame::decode_exact(b"*2\r\n$4\r\necho\r\n$5\r\nhello\r\n").unwrap();
    match Command::try_from(frame).unwrap() {
        Command::Echo(e) => assert_eq!(e.execute(), bulk_arg("hello")),
        other => panic!("unexpected command {:?}", other),
    }
}

#[test]
fn commands_need_an_array_headed_by_a_bulk_string() {
    assert_eq!(Command::try_from(RespFrame::Integer(1)).unwrap_err(), CommandError::InvalidCommand);
    assert_eq!(Command::try_from(RespFrame::Array(None)).unwrap_err(), CommandError::InvalidCommand);
    let headless: RespFrame = Some(RespArray::new(vec![RespFrame::Integer(1)])).into();
    assert_eq!(Command::try_from(headless).unwrap_err(), CommandError::InvalidCommand);
}

#[test]
fn wrong_argument_counts_are_rejected() {
    assert_eq!(Command::try_from(request(&["echo"])).unwrap_err(), CommandError::InvalidArgument);
    assert_eq!(
        Command::try_from(request(&["echo", "a", "b"])).unwrap_err(),
        CommandError::InvalidArgument
    );
    assert_eq!(Command::try_from(request(&["hset", "k", "f"])).unwrap_err(), CommandError::InvalidArgument);
    assert_eq!(Command::try_from(request(&["sadd", "k"])).unwrap_err(), CommandError::InvalidArgument);
}

#[test]
fn keys_must_be_utf8() {
    let frame: RespFrame = Some(RespArray::new(vec![
        bulk_arg("sismember"),
        Some(BulkString::new(b"\xff")).into(),
        bulk_arg("m"),
    ]))
    .into();
    assert_eq!(Command::try_from(frame).unwrap_err(), CommandError::Utf8Error);
}

#[test]
fn hmget_reads_its_fields() {
    match Command::try_from(request(&["hmget", "myhash", "field1", "field2"])).unwrap() {
        Command::HmGet(h) => {
            assert_eq!(h.key, "myhash");
            assert_eq!(h.members, vec!["field1".to_string(), "field2".to_string()]);
        }
        other => panic!("unexpected command {:?}", other),
    }
}

#[test]
fn replies_that_take_store_results() {
    assert_eq!(HSet::reply(false), RespFrame::Integer(1));
    assert_eq!(HSet::reply(true), RespFrame::Integer(0));
    assert_eq!(SisMember::reply(true), RespFrame::Integer(1));
    assert_eq!(SisMember::reply(false), RespFrame::Integer(0));
    assert_eq!(
        HmGet::reply("h", Some(vec![Some(bulk_arg("v")), None])),
        RespFrame::Array(Some(RespArray::new(vec![bulk_arg("v"), RespFrame::BulkString(None)])))
    );
    assert_eq!(
        HmGet::reply("h", None),
        RespFrame::Error(simple_redis::SimpleError::new("key h is not exist"))
    );
}

#[test]
fn unknown_commands_are_named_in_the_reply() {
    match Command::try_from(request(&["flushall", "x"])).unwrap() {
        Command::Unrecognized(u) => assert_eq!(
            u.execute(),
            RespFrame::Error(simple_redis::SimpleError::new(
                "ERR unknown command 'flushall', with args beginning with:"
            ))
        ),
        other => panic!("unexpected command {:?}", other),
    }
}

#[test]
fn info_replies_ok() {
    match Command::try_from(request(&["info"])).unwrap() {
        Command::Info(i) => assert_eq!(i.execute(), RespFrame::SimpleString(SimpleString::new("Ok"))),
        other => panic!("unexpected command {:?}", other),
    }
}
