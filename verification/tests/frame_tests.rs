use bytes::Bytes;
use my_redis::connection::Connection;
use my_redis::frame::{Cursor, Error, Frame};

fn parse_all(data: &[u8]) -> Result<Frame, Error> {
    let mut cur = Cursor::new(data);
    Frame::parse(&mut cur)
}

fn other_text(r: Result<Frame, Error>) -> String {
    match r {
        Err(Error::Other(text)) => text,
        Err(Error::Incomplete) => panic!("incomplete"),
        Ok(frame) => panic!("parsed {:?}", frame),
    }
}

fn encoded(frame: &Frame) -> Vec<u8> {
    let mut conn = Connection::new();
    conn.write_frame(frame);
    conn.flush()
}

fn bulk(text: &str) -> Frame {
    Frame::Bulk(Bytes::copy_from_slice(text.as_bytes()))
}

fn samples() -> Vec<Frame> {
    vec![
        Frame::Simple("OK".to_string()),
        Frame::Simple(String::new()),
        Frame::Simple("tail\r".to_string()),
        Frame::Error("ERR unknown command 'foo'".to_string()),
        Frame::Integer(0),
        Frame::Integer(1234),
        Frame::Integer(999_999_999_999),
        Frame::Integer(1_000_000_000_000),
        Frame::Integer(u64::MAX),
        bulk("hello"),
        bulk(""),
        Frame::Bulk(Bytes::copy_from_slice(b"line\r\nbreak\xff\x00")),
        Frame::Null,
        Frame::Array(vec![]),
        Frame::Array(vec![bulk("set"), bulk("k"), bulk("v")]),
        Frame::Array(vec![
            Frame::Integer(1),
            Frame::Array(vec![Frame::Null, Frame::Array(vec![]), Frame::Simple("x".to_string())]),
            bulk("end"),
        ]),
    ]
}

#[test]
fn check_accepts_a_simple_frame() {
    let data = b"+OK\r\n";
    let mut cur = Cursor::new(&data[..]);
    assert!(Frame::check(&mut cur).is_ok());
    assert_eq!(cur.position(), 5);
}

#[test]
fn check_finds_a_cut_frame_incomplete() {
    let data = b"+OK\r";
    let mut cur = Cursor::new(&data[..]);
    assert!(matches!(Frame::check(&mut cur), Err(Error::Incomplete)));
    assert_eq!(cur.position(), 0);
}

#[test]
fn check_of_nothing_is_incomplete() {
    let mut cur = Cursor::new(&b""[..]);
    assert!(matches!(Frame::check(&mut cur), Err(Error::Incomplete)));
}

#[test]
fn check_stops_behind_the_first_frame() {
    let data = b":12\r\n+next\r\n";
    let mut cur = Cursor::new(&data[..]);
    assert!(Frame::check(&mut cur).is_ok());
    assert_eq!(cur.position(), 5);
    assert!(Frame::check(&mut cur).is_ok());
    assert_eq!(cur.position(), 12);
}

#[test]
fn check_rejects_an_unknown_type_byte() {
    let mut cur = Cursor::new(&b"!oops\r\n"[..]);
    match Frame::check(&mut cur) {
        Err(Error::Other(text)) => {
            assert_eq!(text, "protocol error;invalid frame type byte `33`")
        }
        _ => panic!("accepted"),
    }
    assert_eq!(cur.position(), 0);
}

#[test]
fn parse_rejects_an_unknown_type_byte() {
    assert_eq!(
        other_text(parse_all(b"\xffoops\r\n")),
        "protocol error;invalid frame type byte `255`"
    );
}

#[test]
fn check_reads_a_null_marker_as_a_line() {
    let mut cur = Cursor::new(&b"$-1\r\n+next\r\n"[..]);
    assert!(Frame::check(&mut cur).is_ok());
    assert_eq!(cur.position(), 5);
    for cut in [&b"$"[..], &b"$-"[..], &b"$-1"[..], &b"$-1\r"[..], &b"$-abc"[..], &b"$-1ab"[..]] {
        let mut cur = Cursor::new(cut);
        assert!(matches!(Frame::check(&mut cur), Err(Error::Incomplete)));
        assert_eq!(cur.position(), 0);
    }
}

#[test]
fn check_rejects_a_null_marker_that_is_not_minus_one() {
    for (bytes, text) in [
        (&b"$-2\r\n"[..], "protocol error;invalid bulk frame `-2`"),
        (&b"$-\r\n"[..], "protocol error;invalid bulk frame `-`"),
        (&b"$-abc\r\n"[..], "protocol error;invalid bulk frame `-abc`"),
        (&b"$-1 \r\n"[..], "protocol error;invalid bulk frame `-1 `"),
        (&b"$-\xff\r\n"[..], "protocol error; invalid frame format"),
    ] {
        let mut cur = Cursor::new(bytes);
        match Frame::check(&mut cur) {
            Err(Error::Other(found)) => assert_eq!(found, text),
            other => panic!("{:?}", other),
        }
        assert_eq!(cur.position(), 0);
        assert_eq!(other_text(parse_all(bytes)), text);
    }
}

#[test]
fn what_check_accepts_parse_does_not_find_incomplete() {
    let buffers: [&[u8]; 12] = [
        b"+OK\r\n",
        b"+\xff\r\n",
        b"-\xc3\r\nrest",
        b":12\r\n",
        b"$-1\r\n",
        b"$3\r\nabcXY",
        b"$0\r\n\r\n",
        b"*0\r\n",
        b"*2\r\n$-1\r\n+\xfe\r\n",
        b"*3\r\n:1\r\n*1\r\n$-1\r\n$1\r\na\r\ntail",
        b"*1\r\n*1\r\n-\xff\r\n",
        b"*2\r\n+a\r\n+b\r\n+c\r\n",
    ];
    for bytes in buffers {
        let mut cur = Cursor::new(bytes);
        assert!(Frame::check(&mut cur).is_ok(), "{:?}", bytes);
        let end = cur.position();
        cur.set_position(0);
        match Frame::parse(&mut cur) {
            Ok(_) => assert_eq!(cur.position(), end),
            Err(Error::Other(_)) => assert_eq!(cur.position(), 0),
            Err(Error::Incomplete) => panic!("incomplete: {:?}", bytes),
        }
        let mut whole = Cursor::new(bytes);
        let mut short = Cursor::new(&bytes[..end]);
        match (Frame::parse(&mut whole), Frame::parse(&mut short)) {
            (Ok(a), Ok(b)) => assert!(a.same(&b)),
            (Err(Error::Other(a)), Err(Error::Other(b))) => assert_eq!(a, b),
            other => panic!("{:?}", other),
        }
    }
}

#[test]
fn parse_reads_each_kind() {
    assert!(parse_all(b"+OK\r\n").unwrap().same(&Frame::Simple("OK".to_string())));
    assert!(parse_all(b"-bad\r\n").unwrap().same(&Frame::Error("bad".to_string())));
    assert!(parse_all(b":42\r\n").unwrap().same(&Frame::Integer(42)));
    assert!(parse_all(b"$5\r\nhello\r\n").unwrap().same(&bulk("hello")));
    assert!(parse_all(b"$0\r\n\r\n").unwrap().same(&bulk("")));
    assert!(parse_all(b"$-1\r\n").unwrap().same(&Frame::Null));
    let want = Frame::Array(vec![bulk("get"), Frame::Integer(7), Frame::Null]);
    assert!(parse_all(b"*3\r\n$3\r\nget\r\n:7\r\n$-1\r\n").unwrap().same(&want));
    assert!(parse_all(b"*0\r\n").unwrap().same(&Frame::Array(vec![])));
}

#[test]
fn parse_moves_the_cursor_behind_the_frame() {
    let data = b"$3\r\nabc\r\n+rest\r\n";
    let mut cur = Cursor::new(&data[..]);
    assert!(Frame::parse(&mut cur).unwrap().same(&bulk("abc")));
    assert_eq!(cur.position(), 9);
    assert_eq!(cur.remaining(), 7);
    assert_eq!(cur.get_ref().len(), 16);
}

#[test]
fn parse_does_not_check_what_ends_a_bulk() {
    assert!(parse_all(b"$3\r\nabcXY").unwrap().same(&bulk("abc")));
}

#[test]
fn parse_of_a_short_bulk_is_incomplete() {
    assert!(matches!(parse_all(b"$5\r\nhell"), Err(Error::Incomplete)));
    assert!(matches!(parse_all(b"$5\r\nhello\r"), Err(Error::Incomplete)));
    assert!(matches!(parse_all(b"$18446744073709551615\r\nabc"), Err(Error::Incomplete)));
}

#[test]
fn parse_of_a_short_array_is_incomplete() {
    assert!(matches!(parse_all(b"*2\r\n:1\r\n"), Err(Error::Incomplete)));
    assert!(matches!(parse_all(b"*18446744073709551615\r\n"), Err(Error::Incomplete)));
}

#[test]
fn parse_rejects_text_that_is_not_utf8() {
    assert_eq!(other_text(parse_all(b"+\xff\xfe\r\n")), "protocol error; invalid frame format");
    assert_eq!(other_text(parse_all(b"-\xc3\r\n")), "protocol error; invalid frame format");
}

#[test]
fn parse_rejects_a_null_marker_that_is_not_minus_one() {
    assert_eq!(other_text(parse_all(b"$-2\r\n")), "protocol error;invalid bulk frame `-2`");
    assert_eq!(other_text(parse_all(b"$-\r\n")), "protocol error;invalid bulk frame `-`");
    assert_eq!(other_text(parse_all(b"$-\xff\r\n")), "protocol error; invalid frame format");
    assert!(matches!(parse_all(b"$-1ab"), Err(Error::Incomplete)));
}

#[test]
fn parse_rejects_a_line_without_a_number() {
    assert_eq!(other_text(parse_all(b":abc\r\n")), "protocol error; invalid decimal number");
    assert_eq!(other_text(parse_all(b":\r\n")), "protocol error; invalid decimal number");
    assert_eq!(other_text(parse_all(b"$x\r\n")), "protocol error; invalid decimal number");
    assert_eq!(other_text(parse_all(b"* 1\r\n")), "protocol error; invalid decimal number");
}

#[test]
fn numbers_are_read_as_the_digits_at_the_start_of_the_line() {
    assert!(parse_all(b":12ab\r\n").unwrap().same(&Frame::Integer(12)));
    assert!(parse_all(b":007\r\n").unwrap().same(&Frame::Integer(7)));
    assert!(parse_all(b":+5\r\n").unwrap().same(&Frame::Integer(5)));
    assert!(parse_all(b":+\r\n").unwrap().same(&Frame::Integer(0)));
    assert!(parse_all(b":-\r\n").unwrap().same(&Frame::Integer(0)));
    assert!(parse_all(b":-000\r\n").unwrap().same(&Frame::Integer(0)));
    assert!(parse_all(b":+x9\r\n").unwrap().same(&Frame::Integer(0)));
    assert_eq!(other_text(parse_all(b":-1\r\n")), "protocol error; invalid decimal number");
    assert_eq!(other_text(parse_all(b":-010\r\n")), "protocol error; invalid decimal number");
    assert_eq!(other_text(parse_all(b": 1\r\n")), "protocol error; invalid decimal number");
}

#[test]
fn numbers_up_to_the_largest_are_read() {
    assert!(parse_all(b":18446744073709551615\r\n").unwrap().same(&Frame::Integer(u64::MAX)));
    assert!(
        parse_all(b":000000000000000000000000000018446744073709551615\r\n")
            .unwrap()
            .same(&Frame::Integer(u64::MAX))
    );
    assert_eq!(
        other_text(parse_all(b":18446744073709551616\r\n")),
        "protocol error; invalid decimal number"
    );
    assert_eq!(
        other_text(parse_all(b":99999999999999999999999\r\n")),
        "protocol error; invalid decimal number"
    );
}

#[test]
fn frames_are_written_byte_for_byte() {
    assert_eq!(encoded(&Frame::Simple("OK".to_string())), b"+OK\r\n".to_vec());
    assert_eq!(encoded(&Frame::Error("ERR x".to_string())), b"-ERR x\r\n".to_vec());
    assert_eq!(encoded(&Frame::Integer(1234)), b":1234\r\n".to_vec());
    assert_eq!(encoded(&Frame::Integer(0)), b":0\r\n".to_vec());
    assert_eq!(encoded(&Frame::Integer(u64::MAX)), b":18446744073709551615\r\n".to_vec());
    assert_eq!(encoded(&bulk("hello")), b"$5\r\nhello\r\n".to_vec());
    assert_eq!(encoded(&bulk("")), b"$0\r\n\r\n".to_vec());
    assert_eq!(encoded(&Frame::Null), b"$-1\r\n".to_vec());
    assert_eq!(encoded(&Frame::Array(vec![])), b"*0\r\n".to_vec());
    assert_eq!(
        encoded(&Frame::Array(vec![bulk("foo"), Frame::Integer(7)])),
        b"*2\r\n$3\r\nfoo\r\n:7\r\n".to_vec()
    );
    assert_eq!(
        encoded(&Frame::Array(vec![Frame::Array(vec![Frame::Null]), Frame::Simple("é".to_string())])),
        b"*2\r\n*1\r\n$-1\r\n+\xc3\xa9\r\n".to_vec()
    );
}

#[test]
fn write_value_writes_what_is_no_array() {
    let mut conn = Connection::new();
    conn.write_value(&Frame::Integer(5));
    conn.write_value(&Frame::Null);
    conn.write_decimal(90);
    assert_eq!(conn.flush(), b":5\r\n$-1\r\n90\r\n".to_vec());
    assert_eq!(conn.flush(), Vec::<u8>::new());
}

#[test]
fn what_is_written_reads_back_as_itself() {
    for frame in samples() {
        let bytes = encoded(&frame);
        let mut cur = Cursor::new(&bytes[..]);
        assert!(Frame::check(&mut cur).is_ok());
        assert_eq!(cur.position(), bytes.len());
        cur.set_position(0);
        let back = Frame::parse(&mut cur).unwrap();
        assert!(back.same(&frame), "{:?} came back as {:?}", frame, back);
        assert_eq!(cur.position(), bytes.len());
    }
}

#[test]
fn text_with_a_line_break_does_not_read_back() {
    let frame = Frame::Simple("a\r\nb".to_string());
    let bytes = encoded(&frame);
    assert_eq!(bytes, b"+a\r\nb\r\n".to_vec());
    let back = parse_all(&bytes).unwrap();
    assert!(back.same(&Frame::Simple("a".to_string())));
    assert!(!back.same(&frame));
}

#[test]
fn a_frame_in_two_pieces_reads_as_when_whole() {
    for frame in samples() {
        let bytes = encoded(&frame);
        for cut in 0..=bytes.len() {
            let mut conn = Connection::new();
            if cut > 0 {
                assert_eq!(conn.receive(&bytes[..cut]), Ok(true));
            }
            if cut < bytes.len() {
                assert!(matches!(conn.parse_frame(), Ok(None)), "{:?} cut at {}", frame, cut);
                assert_eq!(conn.receive(&bytes[cut..]), Ok(true));
            }
            let back = conn.parse_frame().unwrap().unwrap();
            assert!(back.same(&frame), "{:?} cut at {}", frame, cut);
            assert!(matches!(conn.parse_frame(), Ok(None)));
            assert_eq!(conn.receive(&[]), Ok(false));
        }
    }
}

#[test]
fn same_tells_frames_apart() {
    let all = samples();
    for (i, a) in all.iter().enumerate() {
        for (j, b) in all.iter().enumerate() {
            assert_eq!(a.same(b), i == j, "{:?} and {:?}", a, b);
        }
    }
    assert!(!Frame::Simple("x".to_string()).same(&Frame::Error("x".to_string())));
    assert!(!Frame::Simple("x".to_string()).same(&bulk("x")));
}

#[test]
fn eq_str_compares_simple_and_bulk_frames() {
    assert!(Frame::Simple("subscribe".to_string()).eq_str("subscribe"));
    assert!(bulk("subscribe").eq_str("subscribe"));
    assert!(!bulk("subscribe").eq_str("subscribed"));
    assert!(!Frame::Error("subscribe".to_string()).eq_str("subscribe"));
    assert!(!Frame::Null.eq_str(""));
}

#[test]
fn an_array_frame_grows_by_pushes() {
    let mut frame = Frame::array();
    assert!(frame.same(&Frame::Array(vec![])));
    frame.push_bulk(Bytes::from_static(b"message"));
    frame.push_int(3);
    assert!(frame.same(&Frame::Array(vec![bulk("message"), Frame::Integer(3)])));
}

#[test]
fn errors_say_what_went_wrong() {
    assert_eq!(Error::Incomplete.message(), "stream ended early");
    assert_eq!(Error::Other("why".to_string()).message(), "why");
}

#[test]
fn a_clone_holds_the_same() {
    for frame in samples() {
        let copy = frame.clone();
        assert!(copy.same(&frame));
        assert!(frame.duplicate().same(&copy));
        assert_eq!(encoded(&copy), encoded(&frame));
    }
}

#[test]
fn a_text_turns_into_an_error() {
    assert!(matches!(Error::from("why".to_string()), Error::Other(text) if text == "why"));
}
