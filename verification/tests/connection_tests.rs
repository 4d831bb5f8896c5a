use bytes::Bytes;
use my_redis::connection::Connection;
use my_redis::frame::Frame;

#[test]
fn a_new_connection_holds_nothing() {
    let mut conn = Connection::new();
    assert!(matches!(conn.parse_frame(), Ok(None)));
    assert_eq!(conn.flush(), Vec::<u8>::new());
}

#[test]
fn the_end_of_an_idle_stream_is_clean() {
    let mut conn = Connection::new();
    assert_eq!(conn.receive(&[]), Ok(false));
}

#[test]
fn the_end_of_a_stream_inside_a_frame_is_an_error() {
    let mut conn = Connection::new();
    assert_eq!(conn.receive(b"+OK\r"), Ok(true));
    assert!(matches!(conn.parse_frame(), Ok(None)));
    assert_eq!(conn.receive(&[]), Err("connection reset by peer".to_string()));
}

#[test]
fn frames_come_out_one_by_one() {
    let mut conn = Connection::new();
    assert_eq!(conn.receive(b"+one\r\n:2\r\n$5\r\nth"), Ok(true));
    assert!(conn.parse_frame().unwrap().unwrap().same(&Frame::Simple("one".to_string())));
    assert!(conn.parse_frame().unwrap().unwrap().same(&Frame::Integer(2)));
    assert!(matches!(conn.parse_frame(), Ok(None)));
    assert_eq!(conn.receive(b"ree\r\n"), Ok(true));
    let want = Frame::Bulk(Bytes::from_static(b"three"));
    assert!(conn.parse_frame().unwrap().unwrap().same(&want));
    assert_eq!(conn.receive(&[]), Ok(false));
}

#[test]
fn a_malformed_frame_is_an_error_and_stays_buffered() {
    let mut conn = Connection::new();
    assert_eq!(conn.receive(b"?what\r\n"), Ok(true));
    assert_eq!(
        conn.parse_frame().unwrap_err(),
        "protocol error;invalid frame type byte `63`"
    );
    assert_eq!(
        conn.parse_frame().unwrap_err(),
        "protocol error;invalid frame type byte `63`"
    );
}

#[test]
fn a_frame_that_only_the_second_pass_rejects_is_an_error() {
    let mut conn = Connection::new();
    assert_eq!(conn.receive(b"+\xff\r\n"), Ok(true));
    assert_eq!(conn.parse_frame().unwrap_err(), "protocol error; invalid frame format");
}

#[test]
fn a_null_marker_is_waited_for_and_then_read() {
    let mut conn = Connection::new();
    assert_eq!(conn.receive(b"$-1"), Ok(true));
    assert!(matches!(conn.parse_frame(), Ok(None)));
    assert_eq!(conn.receive(b"\r"), Ok(true));
    assert!(matches!(conn.parse_frame(), Ok(None)));
    assert_eq!(conn.receive(b"\n:1\r\n"), Ok(true));
    assert!(conn.parse_frame().unwrap().unwrap().same(&Frame::Null));
    assert!(conn.parse_frame().unwrap().unwrap().same(&Frame::Integer(1)));
}

#[test]
fn a_malformed_null_marker_is_a_protocol_error() {
    let mut conn = Connection::new();
    assert_eq!(conn.receive(b"$-1ab"), Ok(true));
    assert!(matches!(conn.parse_frame(), Ok(None)));
    assert_eq!(conn.receive(b"\r\n"), Ok(true));
    assert_eq!(conn.parse_frame().unwrap_err(), "protocol error;invalid bulk frame `-1ab`");
}

#[test]
fn wanting_bytes_is_never_an_error() {
    let whole = b"*3\r\n$3\r\nset\r\n$-1\r\n:10\r\n";
    for cut in 0..whole.len() {
        let mut conn = Connection::new();
        if cut > 0 {
            assert_eq!(conn.receive(&whole[..cut]), Ok(true));
        }
        assert!(matches!(conn.parse_frame(), Ok(None)), "cut at {}", cut);
    }
}

#[test]
fn writes_gather_until_flushed() {
    let mut conn = Connection::new();
    conn.write_frame(&Frame::Simple("OK".to_string()));
    conn.write_frame(&Frame::Null);
    assert_eq!(conn.flush(), b"+OK\r\n$-1\r\n".to_vec());
    conn.write_frame(&Frame::Integer(1));
    assert_eq!(conn.flush(), b":1\r\n".to_vec());
}

#[test]
fn reading_and_writing_do_not_mix() {
    let mut conn = Connection::new();
    assert_eq!(conn.receive(b":7\r\n"), Ok(true));
    conn.write_frame(&Frame::Integer(8));
    assert!(conn.parse_frame().unwrap().unwrap().same(&Frame::Integer(7)));
    assert_eq!(conn.flush(), b":8\r\n".to_vec());
}
