use my_redis::frame::{get_decimal, get_line, get_u8, peek_u8, skip, Cursor, Error};
use my_redis::number::push_decimal;
use my_redis::text::{decode_text, same_bytes, same_text};

#[test]
fn bytes_are_read_one_by_one() {
    let mut cur = Cursor::new(&b"ab"[..]);
    assert_eq!(peek_u8(&cur).unwrap(), b'a');
    assert_eq!(get_u8(&mut cur).unwrap(), b'a');
    assert_eq!(peek_u8(&cur).unwrap(), b'b');
    assert_eq!(get_u8(&mut cur).unwrap(), b'b');
    assert!(matches!(peek_u8(&cur), Err(Error::Incomplete)));
    assert!(matches!(get_u8(&mut cur), Err(Error::Incomplete)));
    assert_eq!(cur.position(), 2);
}

#[test]
fn skip_passes_over_what_is_there() {
    let mut cur = Cursor::new(&b"abcdef"[..]);
    assert!(skip(&mut cur, 4).is_ok());
    assert_eq!(cur.position(), 4);
    assert!(matches!(skip(&mut cur, 3), Err(Error::Incomplete)));
    assert_eq!(cur.position(), 4);
    assert!(skip(&mut cur, 2).is_ok());
    assert!(skip(&mut cur, 0).is_ok());
    assert_eq!(cur.remaining(), 0);
}

#[test]
fn a_cursor_past_the_end_has_nothing_left() {
    let mut cur = Cursor::new(&b"ab"[..]);
    cur.set_position(5);
    assert_eq!(cur.remaining(), 0);
    assert!(matches!(peek_u8(&cur), Err(Error::Incomplete)));
    assert!(matches!(get_u8(&mut cur), Err(Error::Incomplete)));
    assert!(matches!(skip(&mut cur, 0), Err(Error::Incomplete)));
    assert!(matches!(get_line(&mut cur), Err(Error::Incomplete)));
    assert_eq!(cur.position(), 5);
}

#[test]
fn a_line_ends_at_the_first_line_break() {
    let mut cur = Cursor::new(&b"one\r\ntwo\rx\n\r\n\r\nrest"[..]);
    assert_eq!(get_line(&mut cur).unwrap(), b"one");
    assert_eq!(cur.position(), 5);
    assert_eq!(get_line(&mut cur).unwrap(), b"two\rx\n");
    assert_eq!(get_line(&mut cur).unwrap(), b"");
    assert!(matches!(get_line(&mut cur), Err(Error::Incomplete)));
    assert_eq!(cur.position(), 15);
}

#[test]
fn a_line_needs_both_bytes_of_its_break() {
    let mut cur = Cursor::new(&b"abc\r"[..]);
    assert!(matches!(get_line(&mut cur), Err(Error::Incomplete)));
    let mut cur = Cursor::new(&b""[..]);
    assert!(matches!(get_line(&mut cur), Err(Error::Incomplete)));
    let mut cur = Cursor::new(&b"\n"[..]);
    assert!(matches!(get_line(&mut cur), Err(Error::Incomplete)));
}

#[test]
fn a_decimal_is_read_with_its_line() {
    let mut cur = Cursor::new(&b"42\r\nx\r\n7"[..]);
    assert_eq!(get_decimal(&mut cur).unwrap(), 42);
    assert_eq!(cur.position(), 4);
    assert!(matches!(get_decimal(&mut cur), Err(Error::Other(_))));
    assert_eq!(cur.position(), 4);
    cur.set_position(7);
    assert!(matches!(get_decimal(&mut cur), Err(Error::Incomplete)));
}

#[test]
fn numbers_are_written_in_decimal() {
    let mut out = b"n=".to_vec();
    push_decimal(&mut out, 0);
    push_decimal(&mut out, 10);
    push_decimal(&mut out, 907);
    push_decimal(&mut out, u64::MAX);
    assert_eq!(out, b"n=01090718446744073709551615".to_vec());
}

#[test]
fn text_is_decoded_from_utf8() {
    assert_eq!(decode_text(b"h\xc3\xa9"), Some("hé".to_string()));
    assert_eq!(decode_text(b""), Some(String::new()));
    assert_eq!(decode_text(b"\xc3"), None);
    assert_eq!(decode_text(b"\xed\xa0\x80"), None);
}

#[test]
fn texts_and_bytes_are_compared() {
    assert!(same_text("abc", "abc"));
    assert!(!same_text("abc", "abd"));
    assert!(!same_text("abc", "ab"));
    assert!(same_text("", ""));
    assert!(same_bytes(b"\x00\xff", b"\x00\xff"));
    assert!(!same_bytes(b"\x00", b"\x00\x00"));
}
