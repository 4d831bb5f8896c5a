use bytes::Bytes;
use my_redis::cmd::{Command, Get, Outcome, Publish, SetCmd, Subscribe, Unknown, Unsubscribe};
use my_redis::connection::Connection;
use my_redis::db::Db;
use my_redis::frame::Frame;

fn bulk(text: &str) -> Frame {
    Frame::Bulk(Bytes::copy_from_slice(text.as_bytes()))
}

fn request(words: &[&str]) -> Frame {
    Frame::Array(words.iter().map(|w| bulk(w)).collect())
}

fn error_of(frame: Frame) -> String {
    match Command::from_frame(frame) {
        Err(text) => text,
        Ok(cmd) => panic!("{:?}", cmd),
    }
}

#[test]
fn get_is_read_from_a_frame() {
    match Command::from_frame(request(&["get", "hello"])).unwrap() {
        Command::Get(cmd) => assert_eq!(cmd.key(), "hello"),
        other => panic!("{:?}", other),
    }
}

#[test]
fn the_name_of_a_command_may_be_in_any_case() {
    assert!(matches!(Command::from_frame(request(&["GET", "k"])), Ok(Command::Get(_))));
    assert!(matches!(Command::from_frame(request(&["GeT", "k"])), Ok(Command::Get(_))));
    assert!(matches!(Command::from_frame(request(&["SET", "k", "v"])), Ok(Command::SetCmd(_))));
    assert!(matches!(
        Command::from_frame(request(&["Publish", "c", "m"])),
        Ok(Command::Publish(_))
    ));
    assert!(matches!(
        Command::from_frame(request(&["SUBSCRIBE", "c"])),
        Ok(Command::Subscribe(_))
    ));
    assert!(matches!(
        Command::from_frame(request(&["UnSubscribe"])),
        Ok(Command::Unsubscribe(_))
    ));
}

#[test]
fn the_name_may_come_as_a_simple_frame() {
    let frame = Frame::Array(vec![Frame::Simple("Get".to_string()), bulk("k")]);
    assert!(matches!(Command::from_frame(frame), Ok(Command::Get(_))));
}

#[test]
fn a_command_must_be_an_array_with_a_name() {
    assert_eq!(error_of(bulk("get")), "protocol error; expected array");
    assert_eq!(error_of(Frame::Array(vec![])), "protocol error,unexpected end of stream");
    assert_eq!(
        error_of(Frame::Array(vec![Frame::Integer(1)])),
        "protocol error; expected simple frame or bulk frame"
    );
}

#[test]
fn arguments_must_be_there() {
    assert_eq!(error_of(request(&["get"])), "protocol error,unexpected end of stream");
    assert_eq!(error_of(request(&["set", "k"])), "protocol error,unexpected end of stream");
    assert_eq!(error_of(request(&["publish", "c"])), "protocol error,unexpected end of stream");
    assert_eq!(error_of(request(&["subscribe"])), "protocol error,unexpected end of stream");
    assert_eq!(
        error_of(request(&["set", "k", "v", "EX"])),
        "protocol error,unexpected end of stream"
    );
}

#[test]
fn arguments_left_over_are_an_error() {
    assert_eq!(error_of(request(&["get", "a", "b"])), "protocol error; expected end of array");
    assert_eq!(
        error_of(request(&["publish", "c", "m", "x"])),
        "protocol error; expected end of array"
    );
    assert_eq!(
        error_of(request(&["set", "k", "v", "PX", "1", "x"])),
        "protocol error; expected end of array"
    );
}

#[test]
fn set_is_read_without_a_time() {
    match Command::from_frame(request(&["set", "k", "v"])).unwrap() {
        Command::SetCmd(cmd) => {
            assert_eq!(cmd.key(), "k");
            assert_eq!(&cmd.value()[..], b"v");
            assert_eq!(cmd.expire(), None);
        }
        other => panic!("{:?}", other),
    }
}

#[test]
fn set_is_read_with_seconds_or_milliseconds() {
    match Command::from_frame(request(&["set", "k", "v", "EX", "10"])).unwrap() {
        Command::SetCmd(cmd) => assert_eq!(cmd.expire(), Some(10_000)),
        other => panic!("{:?}", other),
    }
    match Command::from_frame(request(&["set", "k", "v", "PX", "10"])).unwrap() {
        Command::SetCmd(cmd) => assert_eq!(cmd.expire(), Some(10)),
        other => panic!("{:?}", other),
    }
    let frame = Frame::Array(vec![bulk("set"), bulk("k"), bulk("v"), bulk("PX"), Frame::Integer(3)]);
    match Command::from_frame(frame).unwrap() {
        Command::SetCmd(cmd) => assert_eq!(cmd.expire(), Some(3)),
        other => panic!("{:?}", other),
    }
}

#[test]
fn seconds_too_many_to_count_are_held_at_the_longest_time() {
    match Command::from_frame(request(&["set", "k", "v", "EX", "18446744073709551615"])).unwrap() {
        Command::SetCmd(cmd) => assert_eq!(cmd.expire(), Some(u64::MAX)),
        other => panic!("{:?}", other),
    }
    match Command::from_frame(request(&["set", "k", "v", "EX", "18446744073709551"])).unwrap() {
        Command::SetCmd(cmd) => assert_eq!(cmd.expire(), Some(18446744073709551000)),
        other => panic!("{:?}", other),
    }
    match Command::from_frame(request(&["set", "k", "v", "EX", "18446744073709552"])).unwrap() {
        Command::SetCmd(cmd) => assert_eq!(cmd.expire(), Some(u64::MAX)),
        other => panic!("{:?}", other),
    }
}

#[test]
fn set_takes_no_other_option() {
    assert_eq!(
        error_of(request(&["set", "k", "v", "NX"])),
        "currently `set` only supports the expiration option"
    );
    assert_eq!(
        error_of(request(&["set", "k", "v", "ex", "10"])),
        "currently `set` only supports the expiration option"
    );
    assert_eq!(
        error_of(request(&["set", "k", "v", "EX", "soon"])),
        "protocol error; expected number"
    );
    let frame = Frame::Array(vec![bulk("set"), bulk("k"), bulk("v"), Frame::Integer(1)]);
    assert_eq!(error_of(frame), "protocol error; expected simple frame or bulk frame");
}

#[test]
fn subscribe_and_unsubscribe_take_any_number_of_channels() {
    match Command::from_frame(request(&["subscribe", "a", "b", "c"])).unwrap() {
        Command::Subscribe(cmd) => assert!(cmd.into_frame().same(&request(&["subscribe", "a", "b", "c"]))),
        other => panic!("{:?}", other),
    }
    match Command::from_frame(request(&["unsubscribe"])).unwrap() {
        Command::Unsubscribe(cmd) => assert!(cmd.into_frame().same(&request(&["unsubscribe"]))),
        other => panic!("{:?}", other),
    }
    match Command::from_frame(request(&["unsubscribe", "a", "b"])).unwrap() {
        Command::Unsubscribe(cmd) => assert!(cmd.into_frame().same(&request(&["unsubscribe", "a", "b"]))),
        other => panic!("{:?}", other),
    }
    let frame = Frame::Array(vec![bulk("subscribe"), bulk("a"), Frame::Integer(1)]);
    assert_eq!(error_of(frame), "protocol error; expected simple frame or bulk frame");
}

#[test]
fn a_name_that_is_not_known_makes_an_unknown_command() {
    match Command::from_frame(request(&["PING", "x", "y"])).unwrap() {
        Command::Unknown(cmd) => assert_eq!(cmd.get_name(), "ping"),
        other => panic!("{:?}", other),
    }
}

#[test]
fn commands_go_by_their_names() {
    assert_eq!(Command::Get(Get::new("k")).get_name(), "get");
    assert_eq!(Command::Publish(Publish::new("c", Bytes::new())).get_name(), "pub");
    assert_eq!(Command::SetCmd(SetCmd::new("k", Bytes::new(), None)).get_name(), "set");
    assert_eq!(Command::Subscribe(Subscribe::new(&[])).get_name(), "subscribe");
    assert_eq!(Command::Unsubscribe(Unsubscribe::new(&[])).get_name(), "unsubscribe");
    assert_eq!(Command::Unknown(Unknown::new("foo")).get_name(), "foo");
}

#[test]
fn commands_turn_into_frames() {
    assert!(Get::new("k").into_frame().same(&request(&["get", "k"])));
    assert!(SetCmd::new("k", Bytes::from_static(b"v"), None)
        .into_frame()
        .same(&request(&["set", "k", "v"])));
    let timed = Frame::Array(vec![bulk("set"), bulk("k"), bulk("v"), bulk("PX"), Frame::Integer(5)]);
    assert!(SetCmd::new("k", Bytes::from_static(b"v"), Some(5)).into_frame().same(&timed));
    assert!(Publish::new("c", Bytes::from_static(b"m"))
        .info_frame()
        .same(&request(&["publish", "c", "m"])));
    let names = vec!["a".to_string(), "b".to_string()];
    assert!(Subscribe::new(&names).into_frame().same(&request(&["subscribe", "a", "b"])));
    assert!(Unsubscribe::new(&names).into_frame().same(&request(&["unsubscribe", "a", "b"])));
}

#[test]
fn every_request_reads_back_as_its_command() {
    match Command::from_frame(Get::new("k").into_frame()).unwrap() {
        Command::Get(cmd) => assert_eq!(cmd.key(), "k"),
        other => panic!("{:?}", other),
    }
    match Command::from_frame(Publish::new("c", Bytes::from_static(b"\xffm")).info_frame()).unwrap() {
        Command::Publish(cmd) => {
            assert!(cmd.info_frame().same(&Frame::Array(vec![
                bulk("publish"),
                bulk("c"),
                Frame::Bulk(Bytes::from_static(b"\xffm")),
            ])))
        }
        other => panic!("{:?}", other),
    }
    let names = vec!["a".to_string(), "b".to_string()];
    match Command::from_frame(Subscribe::new(&names).into_frame()).unwrap() {
        Command::Subscribe(cmd) => assert!(cmd.into_frame().same(&request(&["subscribe", "a", "b"]))),
        other => panic!("{:?}", other),
    }
    match Command::from_frame(Unsubscribe::new(&names).into_frame()).unwrap() {
        Command::Unsubscribe(cmd) => {
            assert!(cmd.into_frame().same(&request(&["unsubscribe", "a", "b"])))
        }
        other => panic!("{:?}", other),
    }
    match Command::from_frame(Unsubscribe::new(&[]).into_frame()).unwrap() {
        Command::Unsubscribe(cmd) => assert!(cmd.into_frame().same(&request(&["unsubscribe"]))),
        other => panic!("{:?}", other),
    }
    assert_eq!(
        error_of(Subscribe::new(&[]).into_frame()),
        "protocol error,unexpected end of stream"
    );
}

#[test]
fn a_set_request_reads_back_with_its_time() {
    for expire in [None, Some(0), Some(10), Some(u64::MAX)] {
        let sent = SetCmd::new("k", Bytes::from_static(b"v"), expire);
        match Command::from_frame(sent.into_frame()).unwrap() {
            Command::SetCmd(cmd) => {
                assert_eq!(cmd.key(), "k");
                assert_eq!(cmd.value(), &Bytes::from_static(b"v"));
                assert_eq!(cmd.expire(), expire);
            }
            other => panic!("{:?}", other),
        }
    }
}

#[test]
fn a_set_request_goes_over_the_wire_with_its_time() {
    let mut conn = Connection::new();
    conn.write_frame(&SetCmd::new("k", Bytes::from_static(b"v"), Some(10)).into_frame());
    let bytes = conn.flush();
    assert_eq!(bytes, b"*5\r\n$3\r\nset\r\n$1\r\nk\r\n$1\r\nv\r\n$2\r\nPX\r\n:10\r\n".to_vec());
    assert_eq!(conn.receive(&bytes), Ok(true));
    match Command::from_frame(conn.parse_frame().unwrap().unwrap()).unwrap() {
        Command::SetCmd(cmd) => assert_eq!(cmd.expire(), Some(10)),
        other => panic!("{:?}", other),
    }
}

#[test]
fn get_answers_with_the_value_or_null() {
    let mut db = Db::new();
    let mut dst = Connection::new();
    db.set("k".to_string(), Bytes::from_static(b"v"), None, 0);
    Get::new("k").apply(&db, &mut dst);
    assert_eq!(dst.flush(), b"$1\r\nv\r\n".to_vec());
    Get::new("missing").apply(&db, &mut dst);
    assert_eq!(dst.flush(), b"$-1\r\n".to_vec());
}

#[test]
fn set_stores_and_answers_ok() {
    let mut db = Db::new();
    let mut dst = Connection::new();
    let wake = SetCmd::new("k", Bytes::from_static(b"v"), None).apply(&mut db, &mut dst, 5);
    assert!(!wake);
    assert_eq!(dst.flush(), b"+OK\r\n".to_vec());
    assert_eq!(db.get("k"), Some(Bytes::from_static(b"v")));
    let wake = SetCmd::new("k", Bytes::from_static(b"w"), Some(10)).apply(&mut db, &mut dst, 5);
    assert!(wake);
    assert_eq!(db.get("k"), Some(Bytes::from_static(b"w")));
    assert_eq!(db.next_expiration(), Some(15));
}

#[test]
fn publish_answers_with_the_number_of_receivers() {
    let mut db = Db::new();
    let mut dst = Connection::new();
    assert_eq!(Publish::new("c", Bytes::from_static(b"m")).apply(&db, &mut dst), 0);
    assert_eq!(dst.flush(), b":0\r\n".to_vec());
    let _rx1 = db.subscribe("c".to_string());
    let _rx2 = db.subscribe("c".to_string());
    assert_eq!(Publish::new("c", Bytes::from_static(b"m")).apply(&db, &mut dst), 2);
    assert_eq!(dst.flush(), b":2\r\n".to_vec());
}

#[test]
fn an_unknown_command_is_answered_with_an_error() {
    let mut dst = Connection::new();
    Unknown::new("foo").apply(&mut dst);
    assert_eq!(dst.flush(), b"-ERR unknown command 'foo'\r\n".to_vec());
}

#[test]
fn applying_a_command_tells_what_came_of_it() {
    let mut db = Db::new();
    let mut dst = Connection::new();
    let cmd = Command::from_frame(request(&["set", "k", "v", "PX", "100"])).unwrap();
    assert!(matches!(cmd.apply(&mut db, &mut dst, 0), Ok(Outcome::Stored { wake: true })));
    let cmd = Command::from_frame(request(&["set", "j", "v", "PX", "200"])).unwrap();
    assert!(matches!(cmd.apply(&mut db, &mut dst, 0), Ok(Outcome::Stored { wake: false })));
    let cmd = Command::from_frame(request(&["get", "k"])).unwrap();
    assert!(matches!(cmd.apply(&mut db, &mut dst, 0), Ok(Outcome::Answered)));
    let cmd = Command::from_frame(request(&["publish", "c", "m"])).unwrap();
    assert!(matches!(cmd.apply(&mut db, &mut dst, 0), Ok(Outcome::Published { reached: 0 })));
    let cmd = Command::from_frame(request(&["nope"])).unwrap();
    assert!(matches!(cmd.apply(&mut db, &mut dst, 0), Ok(Outcome::Answered)));
    assert_eq!(
        dst.flush(),
        b"+OK\r\n+OK\r\n$1\r\nv\r\n:0\r\n-ERR unknown command 'nope'\r\n".to_vec()
    );
    let cmd = Command::from_frame(request(&["subscribe", "a"])).unwrap();
    assert!(matches!(cmd.apply(&mut db, &mut dst, 0), Ok(Outcome::Session(_))));
    let cmd = Command::from_frame(request(&["unsubscribe", "a"])).unwrap();
    assert_eq!(
        cmd.apply(&mut db, &mut dst, 0).unwrap_err(),
        "unsubscribe si unsupproted in this context"
    );
    assert_eq!(dst.flush(), Vec::<u8>::new());
}
