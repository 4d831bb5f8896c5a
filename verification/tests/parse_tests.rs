use bytes::Bytes;
use my_redis::frame::Frame;
use my_redis::parse::{Parse, ParseError};

fn bulk(text: &str) -> Frame {
    Frame::Bulk(Bytes::copy_from_slice(text.as_bytes()))
}

fn other<T: std::fmt::Debug>(r: Result<T, ParseError>) -> String {
    match r {
        Err(ParseError::Other(text)) => text,
        other => panic!("{:?}", other),
    }
}

#[test]
fn only_an_array_can_be_parsed() {
    assert_eq!(other(Parse::new(Frame::Simple("get".to_string()))), "protocol error; expected array");
    assert_eq!(other(Parse::new(Frame::Null)), "protocol error; expected array");
    assert!(Parse::new(Frame::Array(vec![])).is_ok());
}

#[test]
fn elements_come_in_order() {
    let mut parse = Parse::new(Frame::Array(vec![
        Frame::Integer(1),
        Frame::Integer(2),
        Frame::Integer(3),
    ]))
    .unwrap();
    assert!(parse.next().unwrap().same(&Frame::Integer(1)));
    assert!(parse.next().unwrap().same(&Frame::Integer(2)));
    assert!(parse.next().unwrap().same(&Frame::Integer(3)));
    assert!(matches!(parse.next(), Err(ParseError::EndOfStream)));
    assert!(matches!(parse.next(), Err(ParseError::EndOfStream)));
}

#[test]
fn next_string_takes_simple_and_bulk_frames() {
    let mut parse = Parse::new(Frame::Array(vec![
        Frame::Simple("one".to_string()),
        bulk("two"),
        Frame::Bulk(Bytes::from_static(b"\xff")),
        Frame::Integer(4),
        Frame::Null,
    ]))
    .unwrap();
    assert_eq!(parse.next_string().unwrap(), "one");
    assert_eq!(parse.next_string().unwrap(), "two");
    assert_eq!(other(parse.next_string()), "protocol error; expected string");
    assert_eq!(
        other(parse.next_string()),
        "protocol error; expected simple frame or bulk frame"
    );
    assert_eq!(
        other(parse.next_string()),
        "protocol error; expected simple frame or bulk frame"
    );
    assert!(matches!(parse.next_string(), Err(ParseError::EndOfStream)));
}

#[test]
fn next_bytes_takes_simple_and_bulk_frames() {
    let mut parse = Parse::new(Frame::Array(vec![
        Frame::Simple("é".to_string()),
        Frame::Bulk(Bytes::from_static(b"\x00\xff")),
        Frame::Error("no".to_string()),
    ]))
    .unwrap();
    assert_eq!(&parse.next_bytes().unwrap()[..], b"\xc3\xa9");
    assert_eq!(&parse.next_bytes().unwrap()[..], b"\x00\xff");
    assert_eq!(
        other(parse.next_bytes()),
        "protocol error; expected simple frame or bulk frame"
    );
    assert!(matches!(parse.next_bytes(), Err(ParseError::EndOfStream)));
}

#[test]
fn next_int_takes_numbers_in_three_forms() {
    let mut parse = Parse::new(Frame::Array(vec![
        Frame::Integer(7),
        Frame::Simple("42".to_string()),
        bulk("1000"),
        bulk("ten"),
        Frame::Simple(String::new()),
        Frame::Null,
    ]))
    .unwrap();
    assert_eq!(parse.next_int().unwrap(), 7);
    assert_eq!(parse.next_int().unwrap(), 42);
    assert_eq!(parse.next_int().unwrap(), 1000);
    assert_eq!(other(parse.next_int()), "protocol error; expected number");
    assert_eq!(other(parse.next_int()), "protocol error; expected number");
    assert_eq!(other(parse.next_int()), "protocol error; expected int frame");
    assert!(matches!(parse.next_int(), Err(ParseError::EndOfStream)));
}

#[test]
fn finish_wants_nothing_left() {
    let mut parse = Parse::new(Frame::Array(vec![Frame::Integer(1)])).unwrap();
    assert_eq!(other(parse.finish()), "protocol error; expected end of array");
    assert!(parse.finish().is_ok());
    let mut parse = Parse::new(Frame::Array(vec![])).unwrap();
    assert!(parse.finish().is_ok());
}

#[test]
fn parse_errors_say_what_went_wrong() {
    assert_eq!(ParseError::EndOfStream.message(), "protocol error,unexpected end of stream");
    assert_eq!(ParseError::Other("why".to_string()).message(), "why");
}

#[test]
fn a_text_turns_into_a_parse_error() {
    assert!(matches!(ParseError::from("why".to_string()), ParseError::Other(text) if text == "why"));
}
