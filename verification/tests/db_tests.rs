use bytes::Bytes;
use my_redis::db::{receivers_reached, Db};

fn value(text: &'static str) -> Bytes {
    Bytes::from_static(text.as_bytes())
}

#[test]
fn a_value_that_was_set_is_got() {
    let mut db = Db::new();
    db.set("k".to_string(), value("v"), None, 0);
    assert_eq!(db.get("k"), Some(value("v")));
    assert_eq!(db.get("missing"), None);
}

#[test]
fn the_last_value_set_wins() {
    let mut db = Db::new();
    db.set("k".to_string(), value("one"), None, 0);
    db.set("k".to_string(), value("two"), None, 1);
    assert_eq!(db.get("k"), Some(value("two")));
}

#[test]
fn a_value_is_gone_once_it_is_due_and_purged() {
    let mut db = Db::new();
    db.set("k".to_string(), value("v"), Some(10), 1000);
    assert_eq!(db.purge_expired_keys(1009), Some(1010));
    assert_eq!(db.get("k"), Some(value("v")));
    assert_eq!(db.purge_expired_keys(1010), None);
    assert_eq!(db.get("k"), None);
    assert_eq!(db.next_expiration(), None);
}

#[test]
fn a_value_without_a_time_is_never_purged() {
    let mut db = Db::new();
    db.set("k".to_string(), value("v"), None, 0);
    assert_eq!(db.purge_expired_keys(u64::MAX), None);
    assert_eq!(db.get("k"), Some(value("v")));
}

#[test]
fn an_earlier_deadline_wakes_the_purger() {
    let mut db = Db::new();
    assert!(db.set("a".to_string(), value("1"), Some(100), 0));
    assert!(db.set("b".to_string(), value("2"), Some(10), 0));
    assert!(!db.set("c".to_string(), value("3"), Some(50), 0));
    assert!(!db.set("d".to_string(), value("4"), Some(10), 0));
    assert!(!db.set("e".to_string(), value("5"), None, 0));
    assert_eq!(db.next_expiration(), Some(10));
    assert_eq!(db.purge_expired_keys(10), Some(50));
    assert_eq!(db.get("b"), None);
    assert_eq!(db.get("d"), None);
    assert_eq!(db.get("a"), Some(value("1")));
    assert_eq!(db.get("c"), Some(value("3")));
    assert_eq!(db.purge_expired_keys(99), Some(100));
    assert_eq!(db.get("c"), None);
    assert_eq!(db.purge_expired_keys(100), None);
    assert_eq!(db.get("a"), None);
    assert_eq!(db.get("e"), Some(value("5")));
}

#[test]
fn a_value_that_is_replaced_loses_its_deadline() {
    let mut db = Db::new();
    assert!(db.set("k".to_string(), value("old"), Some(10), 0));
    assert!(!db.set("k".to_string(), value("new"), None, 1));
    assert_eq!(db.next_expiration(), None);
    assert_eq!(db.purge_expired_keys(1000), None);
    assert_eq!(db.get("k"), Some(value("new")));
}

#[test]
fn a_value_that_is_replaced_takes_the_new_deadline() {
    let mut db = Db::new();
    assert!(db.set("k".to_string(), value("old"), Some(10), 0));
    assert!(!db.set("k".to_string(), value("new"), Some(100), 0));
    assert_eq!(db.next_expiration(), Some(100));
    assert_eq!(db.purge_expired_keys(50), Some(100));
    assert_eq!(db.get("k"), Some(value("new")));
    assert!(db.set("k".to_string(), value("newer"), Some(5), 50));
    assert_eq!(db.next_expiration(), Some(55));
}

#[test]
fn values_due_at_the_same_moment_go_together() {
    let mut db = Db::new();
    db.set("a".to_string(), value("1"), Some(10), 0);
    db.set("b".to_string(), value("2"), Some(5), 5);
    db.set("c".to_string(), value("3"), Some(11), 0);
    assert_eq!(db.purge_expired_keys(10), Some(11));
    assert_eq!(db.get("a"), None);
    assert_eq!(db.get("b"), None);
    assert_eq!(db.get("c"), Some(value("3")));
}

#[test]
fn a_deadline_too_far_off_is_held_at_the_end_of_time() {
    let mut db = Db::new();
    db.set("k".to_string(), value("v"), Some(u64::MAX), 10);
    assert_eq!(db.next_expiration(), Some(u64::MAX));
    assert_eq!(db.purge_expired_keys(u64::MAX - 1), Some(u64::MAX));
    assert_eq!(db.get("k"), Some(value("v")));
}

#[test]
fn a_store_that_is_shut_down_purges_nothing() {
    let mut db = Db::new();
    assert!(!db.is_shutdown());
    db.set("k".to_string(), value("v"), Some(10), 0);
    db.shutdown();
    assert!(db.is_shutdown());
    assert_eq!(db.purge_expired_keys(1000), None);
    assert_eq!(db.get("k"), Some(value("v")));
}

#[test]
fn every_value_takes_one_number() {
    let mut db = Db::new();
    assert_eq!(db.ids_left(), u64::MAX);
    db.set("k".to_string(), value("v"), None, 0);
    db.set("k".to_string(), value("v"), Some(1), 0);
    assert_eq!(db.ids_left(), u64::MAX - 2);
}

#[test]
fn publishing_to_nobody_reaches_nobody() {
    let db = Db::new();
    assert_eq!(db.publish("x", value("m")), 0);
}

#[test]
fn a_message_reaches_a_subscriber_once() {
    let mut db = Db::new();
    let mut rx = db.subscribe("a".to_string());
    assert_eq!(db.publish("a", value("m")), 1);
    assert_eq!(db.publish("x", value("m")), 0);
    assert_eq!(rx.try_recv().unwrap(), value("m"));
    assert!(rx.try_recv().is_err());
}

#[test]
fn a_message_reaches_every_subscriber_of_its_channel() {
    let mut db = Db::new();
    let mut rx1 = db.subscribe("a".to_string());
    let mut rx2 = db.subscribe("a".to_string());
    let mut other = db.subscribe("b".to_string());
    assert_eq!(db.publish("a", value("m")), 2);
    assert_eq!(rx1.try_recv().unwrap(), value("m"));
    assert_eq!(rx2.try_recv().unwrap(), value("m"));
    assert!(other.try_recv().is_err());
}

#[test]
fn a_channel_stays_when_its_subscribers_are_gone() {
    let mut db = Db::new();
    let rx = db.subscribe("a".to_string());
    drop(rx);
    assert_eq!(db.publish("a", value("m")), 0);
    let mut rx = db.subscribe("a".to_string());
    assert_eq!(db.publish("a", value("n")), 1);
    assert_eq!(rx.try_recv().unwrap(), value("n"));
}

#[test]
fn a_failed_send_reached_nobody() {
    assert_eq!(receivers_reached::<()>(Ok(3)), 3);
    assert_eq!(receivers_reached(Err("closed")), 0);
}
