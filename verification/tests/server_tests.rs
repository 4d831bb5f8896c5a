use bytes::Bytes;
use my_redis::cmd::Outcome;
use my_redis::connection::Connection;
use my_redis::db::Db;
use my_redis::frame::Frame;
use my_redis::server::{on_frame, on_shutdown, Backoff, Listener, MAX_BACKOFF, MAX_CONNECTIONS};
use my_redis::shutdown::Shutdown;
use my_redis::DEFAULT_PORT;

fn request(words: &[&str]) -> Frame {
    Frame::Array(words.iter().map(|w| Frame::Bulk(Bytes::copy_from_slice(w.as_bytes()))).collect())
}

#[test]
fn the_waits_double_up_to_the_longest() {
    let mut backoff = Backoff::new();
    let mut waits = Vec::new();
    while let Some(secs) = backoff.on_failure() {
        waits.push(secs);
    }
    assert_eq!(waits, vec![1, 2, 4, 8, 16, 32, 64]);
    assert_eq!(backoff.on_failure(), None);
    assert_eq!(MAX_BACKOFF, 64);
}

#[test]
fn no_more_connections_are_let_in_than_may_be() {
    let limit = 3;
    let mut listener = Listener::new(limit);
    for _ in 0..limit {
        assert!(listener.try_acquire());
    }
    assert_eq!(listener.active(), limit);
    assert!(!listener.try_acquire());
    assert!(!listener.try_acquire());
    assert_eq!(listener.active(), limit);
    listener.release();
    assert!(listener.try_acquire());
    assert!(!listener.try_acquire());
}

#[test]
fn a_server_serves_many_connections() {
    assert_eq!(MAX_CONNECTIONS, 256);
    assert_eq!(DEFAULT_PORT, "6379");
    let mut listener = Listener::new(MAX_CONNECTIONS);
    let mut granted = 0;
    while listener.try_acquire() {
        granted += 1;
    }
    assert_eq!(granted, 256);
}

#[test]
fn a_listener_without_room_lets_nobody_in() {
    let mut listener = Listener::new(0);
    assert!(!listener.try_acquire());
}

#[test]
fn a_server_is_finished_when_every_connection_is_done() {
    let mut listener = Listener::new(2);
    assert!(listener.try_acquire());
    assert!(listener.try_acquire());
    assert!(!listener.finished());
    listener.shutdown();
    assert!(listener.is_shutdown());
    assert!(!listener.finished());
    listener.release();
    assert!(!listener.finished());
    listener.release();
    assert!(listener.finished());
}

#[test]
fn a_server_without_connections_is_not_finished_before_it_shuts_down() {
    let mut listener = Listener::new(2);
    assert!(!listener.is_shutdown());
    assert!(!listener.finished());
    listener.shutdown();
    assert!(listener.finished());
}

#[test]
fn the_signal_to_stop_stays() {
    let mut shutdown = Shutdown::new();
    assert!(!shutdown.is_shutdown());
    shutdown.recv();
    assert!(shutdown.is_shutdown());
    shutdown.recv();
    assert!(shutdown.is_shutdown());
}

#[test]
fn a_handler_stops_without_an_error_on_the_signal() {
    assert!(matches!(on_shutdown(), Ok(None)));
}

#[test]
fn a_handler_stops_when_the_peer_is_gone() {
    let mut db = Db::new();
    let mut dst = Connection::new();
    assert!(matches!(on_frame(None, &mut db, &mut dst, 0), Ok(None)));
    assert_eq!(dst.flush(), Vec::<u8>::new());
}

#[test]
fn a_handler_applies_the_commands_that_come_in() {
    let mut db = Db::new();
    let mut dst = Connection::new();
    let r = on_frame(Some(request(&["set", "k", "v", "PX", "10"])), &mut db, &mut dst, 100);
    assert!(matches!(r, Ok(Some(Outcome::Stored { wake: true }))));
    assert_eq!(dst.flush(), b"+OK\r\n".to_vec());
    let r = on_frame(Some(request(&["get", "k"])), &mut db, &mut dst, 105);
    assert!(matches!(r, Ok(Some(Outcome::Answered))));
    assert_eq!(dst.flush(), b"$1\r\nv\r\n".to_vec());
    assert_eq!(db.purge_expired_keys(110), None);
    let r = on_frame(Some(request(&["get", "k"])), &mut db, &mut dst, 111);
    assert!(matches!(r, Ok(Some(Outcome::Answered))));
    assert_eq!(dst.flush(), b"$-1\r\n".to_vec());
    let r = on_frame(Some(request(&["subscribe", "a"])), &mut db, &mut dst, 111);
    assert!(matches!(r, Ok(Some(Outcome::Session(_)))));
}

#[test]
fn an_error_ends_the_connection() {
    let mut db = Db::new();
    let mut dst = Connection::new();
    assert_eq!(
        on_frame(Some(Frame::Null), &mut db, &mut dst, 0).unwrap_err(),
        "protocol error; expected array"
    );
    assert_eq!(
        on_frame(Some(request(&["unsubscribe"])), &mut db, &mut dst, 0).unwrap_err(),
        "unsubscribe si unsupproted in this context"
    );
    assert_eq!(dst.flush(), Vec::<u8>::new());
}
