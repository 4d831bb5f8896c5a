//! The store: values under keys, some of them with a deadline, and the
//! channels that messages are published on.
//!
//! The store keeps no clock. Every operation that depends on the time takes
//! the present moment as a number of milliseconds since a start that the
//! caller has fixed, and deadlines are such numbers too.

use vstd::prelude::*;
use vstd::hash_map::StringHashMap;
use std::collections::BTreeMap;
use bytes::Bytes;
use tokio::sync::broadcast::{Receiver, Sender};
use crate::buf::bytes_seq;
use crate::channel::{broadcast_channel, sender_send, sender_subscribe};

verus! {

/// How many messages a channel keeps for receivers that have fallen behind.
pub const CHANNEL_CAPACITY: usize = 1024;

/// A value in the store.
pub struct Entry {
    /// Tells entries apart that share a deadline.
    id: u64,
    data: Bytes,
    expires_at: Option<u64>,
}

/// What an [`Entry`] holds, as mathematics sees it.
pub struct EntryView {
    pub id: u64,
    pub data: Seq<u8>,
    pub expires_at: Option<u64>,
}

impl View for Entry {
    type V = EntryView;

    closed spec fn view(&self) -> EntryView {
        EntryView { id: self.id, data: bytes_seq(self.data), expires_at: self.expires_at }
    }
}

/// What a [`Db`] holds, as mathematics sees it.
pub struct DbView {
    /// The values, each under its key.
    pub entries: Map<Seq<char>, EntryView>,
    /// The names of the channels that were ever subscribed to.
    pub channels: Set<Seq<char>>,
    /// The number that the next value stored will carry.
    pub next_id: u64,
    /// Whether the store has been shut down.
    pub shutdown: bool,
}

/// The moment at which a value stored at `now` for `expire` milliseconds is
/// dropped. A moment too far off to be counted is held at the far end of time.
pub open spec fn deadline(now: u64, expire: Option<u64>) -> Option<u64> {
    match expire {
        None => None,
        Some(span) => if now + span <= u64::MAX {
            Some((now + span) as u64)
        } else {
            Some(u64::MAX)
        },
    }
}

/// Whether `entry` is due at `now`.
pub open spec fn expired(entry: EntryView, now: u64) -> bool {
    entry.expires_at matches Some(when) && when <= now
}

/// Whether no value has a deadline at or before `when`.
pub open spec fn all_later(entries: Map<Seq<char>, EntryView>, when: u64) -> bool {
    forall|k: Seq<char>| #[trigger]
        entries.contains_key(k) ==> (entries[k].expires_at matches Some(t) ==> t > when)
}

/// Whether `when` is the earliest deadline of any value.
pub open spec fn earliest(entries: Map<Seq<char>, EntryView>, when: u64) -> bool {
    &&& exists|k: Seq<char>| #[trigger] entries.contains_key(k) && entries[k].expires_at == Some(when)
    &&& forall|k: Seq<char>| #[trigger]
        entries.contains_key(k) ==> (entries[k].expires_at matches Some(t) ==> t >= when)
}

/// Whether no value has a deadline.
pub open spec fn none_expires(entries: Map<Seq<char>, EntryView>) -> bool {
    forall|k: Seq<char>| #[trigger] entries.contains_key(k) ==> entries[k].expires_at is None
}

/// The values of `entries` that are not due at `now`.
pub open spec fn unexpired(entries: Map<Seq<char>, EntryView>, now: u64) -> Map<
    Seq<char>,
    EntryView,
> {
    Map::new(|k: Seq<char>| entries.contains_key(k) && !expired(entries[k], now), |k: Seq<char>| entries[k])
}

/// Whether a value with the deadline `when` carries the number `id`.
pub open spec fn taken(entries: Map<Seq<char>, EntryView>, when: u64, id: u64) -> bool {
    exists|k: Seq<char>| #[trigger]
        entries.contains_key(k) && entries[k].expires_at == Some(when) && entries[k].id == id
}

/// The least number that no value with the deadline `when` carries.
pub open spec fn free_id(entries: Map<Seq<char>, EntryView>, when: u64) -> u64 {
    choose|id: u64| !taken(entries, when, id) && forall|j: u64| j < id ==> taken(entries, when, j)
}

impl DbView {
    /// The number that a value stored under `key` at the moment `now` for
    /// `expire` milliseconds is given.
    ///
    /// Numbers are given out one after the other. Should they ever run out,
    /// a value with a deadline is given the least number that no other
    /// value with the same deadline carries, which is all that is asked of
    /// the numbers; a value without a deadline needs none.
    pub open spec fn id_for(self, key: Seq<char>, expire: Option<u64>, now: u64) -> u64 {
        if self.next_id < u64::MAX {
            self.next_id
        } else {
            match deadline(now, expire) {
                Some(when) => free_id(self.entries.remove(key), when),
                None => 0,
            }
        }
    }

    /// The value under `key`, if there is one.
    pub open spec fn get(self, key: Seq<char>) -> Option<Seq<u8>> {
        if self.entries.contains_key(key) {
            Some(self.entries[key].data)
        } else {
            None
        }
    }

    /// The store once `value` was stored under `key` at the moment `now`,
    /// for `expire` milliseconds or for good: the value takes the place of
    /// what was under the key, and carries the next number.
    pub open spec fn set(self, key: Seq<char>, value: Seq<u8>, expire: Option<u64>, now: u64) -> DbView {
        DbView {
            entries: self.entries.insert(
                key,
                EntryView {
                    id: self.id_for(key, expire, now),
                    data: value,
                    expires_at: deadline(now, expire),
                },
            ),
            next_id: if self.next_id < u64::MAX {
                (self.next_id + 1) as u64
            } else {
                u64::MAX
            },
            ..self
        }
    }

    /// Whether storing a value at the moment `now` for `expire` milliseconds
    /// has to wake whoever purges the store: the new deadline is earlier
    /// than every deadline there is.
    pub open spec fn wakes(self, expire: Option<u64>, now: u64) -> bool {
        expire is Some && all_later(self.entries, deadline(now, expire)->0)
    }

    /// The store once it was purged at the moment `now`: every value that
    /// is due is gone, unless the store has been shut down.
    pub open spec fn purge(self, now: u64) -> DbView {
        if self.shutdown {
            self
        } else {
            DbView { entries: unexpired(self.entries, now), ..self }
        }
    }

    /// The earliest deadline of any value, if any value has one.
    pub open spec fn next_expiration(self) -> Option<u64> {
        if none_expires(self.entries) {
            None
        } else {
            Some(choose|when: u64| earliest(self.entries, when))
        }
    }

    /// The store once the channel `key` was subscribed to.
    pub open spec fn subscribe(self, key: Seq<char>) -> DbView {
        DbView { channels: self.channels.insert(key), ..self }
    }
}

/// There is one earliest deadline at most, and it is what
/// [`DbView::next_expiration`] names.
pub proof fn lemma_next_expiration(db: DbView)
    ensures
        forall|when: u64| earliest(db.entries, when) ==> db.next_expiration() == Some(when),
        db.next_expiration() matches Some(when) ==> earliest(db.entries, when),
        db.next_expiration() is None <==> none_expires(db.entries),
{
    assert forall|a: u64, b: u64| earliest(db.entries, a) && earliest(db.entries, b) implies a
        == b by {
        let ka = choose|k: Seq<char>| #[trigger]
            db.entries.contains_key(k) && db.entries[k].expires_at == Some(a);
        let kb = choose|k: Seq<char>| #[trigger]
            db.entries.contains_key(k) && db.entries[k].expires_at == Some(b);
        assert(db.entries.contains_key(ka) && db.entries.contains_key(kb));
    }
    if !none_expires(db.entries) {
        let k = choose|k: Seq<char>| #[trigger]
            db.entries.contains_key(k) && db.entries[k].expires_at is Some;
        lemma_some_deadline_is_earliest(db.entries, k);
    } else {
        assert forall|when: u64| !earliest(db.entries, when) by {
            if earliest(db.entries, when) {
                let k = choose|k: Seq<char>| #[trigger]
                    db.entries.contains_key(k) && db.entries[k].expires_at == Some(when);
                assert(db.entries.contains_key(k));
            }
        }
    }
}

/// Where a value has a deadline, some deadline is the earliest.
proof fn lemma_some_deadline_is_earliest(entries: Map<Seq<char>, EntryView>, key: Seq<char>)
    requires
        entries.contains_key(key),
        entries[key].expires_at is Some,
    ensures
        exists|when: u64| earliest(entries, when),
    decreases entries[key].expires_at->0,
{
    let when = entries[key].expires_at->0;
    if !earliest(entries, when) {
        let k = choose|k: Seq<char>| #[trigger]
            entries.contains_key(k) && !(entries[k].expires_at matches Some(t) ==> t >= when);
        lemma_some_deadline_is_earliest(entries, k);
    }
}

/// A value that was stored is found, and storing under one key leaves what
/// is found under every other key as it was.
pub proof fn lemma_set_then_get(
    db: DbView,
    key: Seq<char>,
    value: Seq<u8>,
    expire: Option<u64>,
    now: u64,
    other: Seq<char>,
)
    ensures
        db.set(key, value, expire, now).get(key) == Some(value),
        other != key ==> db.set(key, value, expire, now).get(other) == db.get(other),
{
}

/// A value that was stored for a time is gone once the store is purged at
/// or after the end of that time, and is still there when the store is
/// purged before.
pub proof fn lemma_purge_after_set(
    db: DbView,
    key: Seq<char>,
    value: Seq<u8>,
    span: u64,
    now: u64,
    later: u64,
)
    requires
        !db.shutdown,
    ensures
        later >= deadline(now, Some(span))->0 ==> db.set(key, value, Some(span), now).purge(
            later,
        ).get(key) is None,
        later < deadline(now, Some(span))->0 ==> db.set(key, value, Some(span), now).purge(
            later,
        ).get(key) == Some(value),
{
}

/// A value that was stored for good outlives every purge.
pub proof fn lemma_purge_keeps_values_for_good(
    db: DbView,
    key: Seq<char>,
    value: Seq<u8>,
    now: u64,
    later: u64,
)
    ensures
        db.set(key, value, None, now).purge(later).get(key) == Some(value),
{
}

/// Where storing a value wakes whoever purges the store, the deadline of
/// the value is the earliest there is afterwards: it is the next that the
/// purger has to wait for.
pub proof fn lemma_waking_deadline_is_next(
    db: DbView,
    key: Seq<char>,
    value: Seq<u8>,
    span: u64,
    now: u64,
)
    requires
        db.wakes(Some(span), now),
    ensures
        db.set(key, value, Some(span), now).next_expiration() == deadline(now, Some(span)),
{
    let after = db.set(key, value, Some(span), now);
    let when = deadline(now, Some(span))->0;
    assert(after.entries.contains_key(key) && after.entries[key].expires_at == Some(when));
    assert forall|k: Seq<char>| #[trigger] after.entries.contains_key(k) implies (
    after.entries[k].expires_at matches Some(t) ==> t >= when) by {
        if k != key {
            assert(db.entries.contains_key(k));
        }
    }
    assert(earliest(after.entries, when));
    lemma_next_expiration(after);
}

/// Of two values stored at the same moment, the one stored for the shorter
/// time is purged first, whichever was stored first: at the end of the
/// shorter time it is gone and the other is still there.
pub proof fn lemma_shorter_time_goes_first(
    db: DbView,
    a: Seq<char>,
    b: Seq<char>,
    value_a: Seq<u8>,
    value_b: Seq<u8>,
    long: u64,
    short: u64,
    now: u64,
)
    requires
        !db.shutdown,
        a != b,
        short < long,
        now + short < u64::MAX,
    ensures
        ({
            let both = db.set(a, value_a, Some(long), now).set(b, value_b, Some(short), now);
            let purged = both.purge((now + short) as u64);
            &&& purged.get(b) is None
            &&& purged.get(a) == Some(value_a)
        }),
        ({
            let both = db.set(b, value_b, Some(short), now).set(a, value_a, Some(long), now);
            let purged = both.purge((now + short) as u64);
            &&& purged.get(b) is None
            &&& purged.get(a) == Some(value_a)
        }),
{
}

/// Where one value with a deadline is stored and a second is stored for a
/// shorter time, storing the second wakes whoever purges the store, and the
/// deadline of the second is the next to wait for.
pub proof fn lemma_second_deadline_wakes(
    db: DbView,
    a: Seq<char>,
    b: Seq<char>,
    value_a: Seq<u8>,
    value_b: Seq<u8>,
    long: u64,
    short: u64,
    now: u64,
)
    requires
        none_expires(db.entries),
        a != b,
        short < long,
        now + short < u64::MAX,
    ensures
        db.wakes(Some(long), now),
        db.set(a, value_a, Some(long), now).wakes(Some(short), now),
        db.set(a, value_a, Some(long), now).set(b, value_b, Some(short), now).next_expiration()
            == Some((now + short) as u64),
{
    let one = db.set(a, value_a, Some(long), now);
    assert(db.wakes(Some(long), now));
    assert(one.wakes(Some(short), now)) by {
        assert forall|k: Seq<char>| #[trigger] one.entries.contains_key(k) implies (
        one.entries[k].expires_at matches Some(t) ==> t > deadline(now, Some(short))->0) by {
            if k != a {
                assert(db.entries.contains_key(k));
            }
        }
    }
    lemma_waking_deadline_is_next(one, b, value_b, short, now);
}

/// Whether the record `a` of the index comes before the record `b`, or is
/// the same: it is due earlier, or due at the same moment and stored no later.
pub open spec fn not_after(a: (u64, u64), b: (u64, u64)) -> bool {
    a.0 < b.0 || (a.0 == b.0 && a.1 <= b.1)
}

/// `BTreeMap::first_key_value`: the entry with the least key, where there is
/// one. Keys are pairs of numbers, which std orders by the first number and
/// then by the second.
#[verifier::external_body]
fn first_record(index: &BTreeMap<(u64, u64), String>) -> (r: Option<((u64, u64), &String)>)
    ensures
        match r {
            Some((at, key)) => index@.contains_key(at) && index@[at] == *key && forall|
                other: (u64, u64),
            | #[trigger] index@.contains_key(other) ==> not_after(at, other),
            None => forall|other: (u64, u64)| !(#[trigger] index@.contains_key(other)),
        },
{
    index.first_key_value().map(|(at, key)| (*at, key))
}

/// Whether values and index agree: every record of the index, which is
/// found by deadline and number, names a value with that deadline and
/// number; every value with a deadline has its record; and while numbers are
/// left to give out, no record carries one of them.
spec fn consistent(
    entries: Map<Seq<char>, Entry>,
    index: Map<(u64, u64), String>,
    next_id: u64,
) -> bool {
    &&& forall|at: (u64, u64)| #[trigger]
        index.contains_key(at) ==> {
            let key = index[at]@;
            entries.contains_key(key) && entries[key].id == at.1 && entries[key].expires_at == Some(
                at.0,
            )
        }
    &&& forall|k: Seq<char>| #[trigger]
        entries.contains_key(k) ==> (entries[k].expires_at matches Some(when) ==> {
            let at = (when, entries[k].id);
            index.contains_key(at) && index[at]@ == k
        })
    &&& forall|at: (u64, u64)| #[trigger]
        index.contains_key(at) && next_id < u64::MAX ==> at.1 < next_id
}

/// The values as mathematics sees them, each under its key.
spec fn views(entries: Map<Seq<char>, Entry>) -> Map<Seq<char>, EntryView> {
    Map::new(|k: Seq<char>| entries.contains_key(k), |k: Seq<char>| entries[k]@)
}

/// Where values and index agree, the numbers that values with a deadline
/// carry are those of the records with that deadline; so the least number
/// without a record is the least that is free.
proof fn lemma_free_id(
    entries: Map<Seq<char>, Entry>,
    index: Map<(u64, u64), String>,
    next_id: u64,
    when: u64,
    id: u64,
)
    requires
        consistent(entries, index, next_id),
        !index.contains_key((when, id)),
        forall|j: u64| j < id ==> #[trigger] index.contains_key((when, j)),
    ensures
        free_id(views(entries), when) == id,
{
    let all = views(entries);
    assert forall|j: u64| #[trigger] taken(all, when, j) <==> index.contains_key((when, j)) by {
        if taken(all, when, j) {
            let k = choose|k: Seq<char>| #[trigger]
                all.contains_key(k) && all[k].expires_at == Some(when) && all[k].id == j;
            assert(entries.contains_key(k));
        }
        if index.contains_key((when, j)) {
            let k = index[(when, j)]@;
            assert(entries.contains_key(k));
            assert(all.contains_key(k) && all[k].expires_at == Some(when) && all[k].id == j);
        }
    }
    let least = free_id(all, when);
    assert(!taken(all, when, id) && forall|j: u64| j < id ==> taken(all, when, j));
    if least < id {
        assert(taken(all, when, least));
    } else if id < least {
        assert(taken(all, when, id));
    }
}

/// Where the record of the value under `key` stands in the index, if the
/// value has a deadline.
spec fn record_of(entries: Map<Seq<char>, Entry>, key: Seq<char>) -> Option<(u64, u64)> {
    if entries.contains_key(key) && entries[key].expires_at is Some {
        Some((entries[key].expires_at->0, entries[key].id))
    } else {
        None
    }
}

/// The index without the record at `at`, if there is one to take out.
spec fn without_record(index: Map<(u64, u64), String>, at: Option<(u64, u64)>) -> Map<
    (u64, u64),
    String,
> {
    match at {
        Some(at) => index.remove(at),
        None => index,
    }
}

/// Taking a value and its record away leaves values and index in agreement.
proof fn lemma_consistent_remove(
    entries: Map<Seq<char>, Entry>,
    index: Map<(u64, u64), String>,
    next_id: u64,
    key: Seq<char>,
)
    requires
        consistent(entries, index, next_id),
    ensures
        consistent(
            entries.remove(key),
            without_record(index, record_of(entries, key)),
            next_id,
        ),
{
    let e2 = entries.remove(key);
    let x2 = without_record(index, record_of(entries, key));
    assert forall|at: (u64, u64)| #[trigger] x2.contains_key(at) implies ({
        let k = x2[at]@;
        e2.contains_key(k) && e2[k].id == at.1 && e2[k].expires_at == Some(at.0)
    }) by {
        assert(index.contains_key(at));
    }
    assert forall|k: Seq<char>| #[trigger] e2.contains_key(k) implies (e2[k].expires_at matches Some(
        when,
    ) ==> {
        let at = (when, e2[k].id);
        x2.contains_key(at) && x2[at]@ == k
    }) by {
        assert(entries.contains_key(k));
    }
    assert forall|at: (u64, u64)| #[trigger]
        x2.contains_key(at) && next_id < u64::MAX implies at.1 < next_id by {
        assert(index.contains_key(at));
    }
}

/// Putting in a new value, with its record if it has a deadline, leaves
/// values and index in agreement.
proof fn lemma_consistent_insert(
    entries: Map<Seq<char>, Entry>,
    index: Map<(u64, u64), String>,
    next_id: u64,
    key: String,
    entry: Entry,
    next_after: u64,
)
    requires
        consistent(entries, index, next_id),
        !entries.contains_key(key@),
        entry.expires_at matches Some(when) ==> !index.contains_key((when, entry.id)),
        next_id < u64::MAX ==> entry.id == next_id && next_after == next_id + 1,
        next_id == u64::MAX ==> next_after == u64::MAX,
    ensures
        consistent(
            entries.insert(key@, entry),
            match entry.expires_at {
                Some(when) => index.insert((when, entry.id), key),
                None => index,
            },
            next_after,
        ),
{
    let e2 = entries.insert(key@, entry);
    let x2 = match entry.expires_at {
        Some(when) => index.insert((when, entry.id), key),
        None => index,
    };
    assert forall|at: (u64, u64)| #[trigger] x2.contains_key(at) implies ({
        let k = x2[at]@;
        e2.contains_key(k) && e2[k].id == at.1 && e2[k].expires_at == Some(at.0)
    }) by {
        if index.contains_key(at) {
            assert(entries.contains_key(index[at]@));
        }
    }
    assert forall|k: Seq<char>| #[trigger] e2.contains_key(k) implies (e2[k].expires_at matches Some(
        when,
    ) ==> {
        let at = (when, e2[k].id);
        x2.contains_key(at) && x2[at]@ == k
    }) by {
        if k != key@ {
            assert(entries.contains_key(k));
        }
    }
    assert forall|at: (u64, u64)| #[trigger]
        x2.contains_key(at) && next_after < u64::MAX implies at.1 < next_after by {
        if index.contains_key(at) {
            assert(at.1 < next_id);
        }
    }
}

/// The least number that no record with the deadline `when` carries.
fn least_free(index: &BTreeMap<(u64, u64), String>, when: u64) -> (id: u64)
    ensures
        !index@.contains_key((when, id)),
        forall|j: u64| j < id ==> #[trigger] index@.contains_key((when, j)),
{
    let len = index.len();
    let mut id: u64 = 0;
    let ghost mut tried: Set<(u64, u64)> = Set::empty();
    while index.contains_key(&(when, id))
        invariant
            tried.finite(),
            tried.len() == id,
            tried.subset_of(index@.dom()),
            forall|at: (u64, u64)| tried.contains(at) <==> at.0 == when && at.1 < id,
            forall|j: u64| j < id ==> #[trigger] index@.contains_key((when, j)),
            index@.dom().finite(),
            index@.dom().len() == len,
        decreases index@.dom().len() - id,
    {
        proof {
            tried = tried.insert((when, id));
            vstd::set_lib::lemma_len_subset(tried, index@.dom());
        }
        id = id + 1;
    }
    id
}

/// The store.
pub struct Db {
    entries: StringHashMap<Entry>,
    pub_sub: StringHashMap<Sender<Bytes>>,
    /// The index of deadlines: the key of each value that has one, found
    /// by the deadline and the number of the value.
    expirations: BTreeMap<(u64, u64), String>,
    next_id: u64,
    shutdown: bool,
}

impl View for Db {
    type V = DbView;

    closed spec fn view(&self) -> DbView {
        DbView {
            entries: views(self.entries@),
            channels: self.pub_sub@.dom(),
            next_id: self.next_id,
            shutdown: self.shutdown,
        }
    }
}

/// How many receivers a message reached, given what sending it answered.
pub fn receivers_reached<E>(sent: Result<usize, E>) -> (n: usize)
    ensures
        n == match sent {
            Ok(count) => count,
            Err(_) => 0usize,
        },
{
    match sent {
        Ok(count) => count,
        Err(_) => 0,
    }
}

impl Db {
    /// Whether the index of deadlines agrees with the values. Every store
    /// that this module hands out is well formed, and every operation keeps
    /// it so.
    pub closed spec fn wf(&self) -> bool {
        consistent(self.entries@, self.expirations@, self.next_id)
    }

    /// A store without values or channels.
    pub fn new() -> (db: Db)
        ensures
            db.wf(),
            db@ == (DbView {
                entries: Map::<Seq<char>, EntryView>::empty(),
                channels: Set::<Seq<char>>::empty(),
                next_id: 0,
                shutdown: false,
            }),
    {
        let db = Db {
            entries: StringHashMap::new(),
            pub_sub: StringHashMap::new(),
            expirations: BTreeMap::new(),
            next_id: 0,
            shutdown: false,
        };
        assert(db@.entries =~= Map::<Seq<char>, EntryView>::empty());
        assert(db@.channels =~= Set::<Seq<char>>::empty());
        db
    }

    /// A copy of the value under `key`, if there is one.
    pub fn get(&self, key: &str) -> (r: Option<Bytes>)
        ensures
            match r {
                Some(data) => self@.get(key@) == Some(bytes_seq(data)),
                None => self@.get(key@) is None,
            },
    {
        match self.entries.get(key) {
            Some(entry) => Some(entry.data.clone()),
            None => None,
        }
    }

    /// The earliest deadline of any value, if any value has one.
    pub fn next_expiration(&self) -> (r: Option<u64>)
        requires
            self.wf(),
        ensures
            r == self@.next_expiration(),
            match r {
                Some(when) => earliest(self@.entries, when),
                None => none_expires(self@.entries),
            },
    {
        proof {
            lemma_next_expiration(self@);
        }
        match first_record(&self.expirations) {
            None => {
                assert forall|k: Seq<char>| #[trigger]
                    self@.entries.contains_key(k) implies self@.entries[k].expires_at is None by {
                    assert(self.entries@.contains_key(k));
                }
                None
            },
            Some((at, key)) => {
                proof {
                    assert(self.entries@.contains_key(key@));
                    assert(self@.entries.contains_key(key@));
                    assert forall|k: Seq<char>| #[trigger] self@.entries.contains_key(k) implies (
                    self@.entries[k].expires_at matches Some(t) ==> t >= at.0) by {
                        assert(self.entries@.contains_key(k));
                        if self.entries@[k].expires_at is Some {
                            let other = (self.entries@[k].expires_at->0, self.entries@[k].id);
                            assert(self.expirations@.contains_key(other));
                        }
                    }
                }
                Some(at.0)
            },
        }
    }

    /// How many numbers are left to give out one after the other.
    pub fn ids_left(&self) -> (n: u64)
        ensures
            n == u64::MAX - self@.next_id,
    {
        u64::MAX - self.next_id
    }

    /// Whether the store has been shut down.
    pub fn is_shutdown(&self) -> (r: bool)
        ensures
            r == self@.shutdown,
    {
        self.shutdown
    }

    /// Shuts the store down: from now on nothing is purged. There is no way back.
    pub fn shutdown(&mut self)
        requires
            old(self).wf(),
        ensures
            final(self).wf(),
            final(self)@ == (DbView { shutdown: true, ..old(self)@ }),
    {
        self.shutdown = true;
    }

    /// Stores `value` under `key`, in place of what was there, to be dropped
    /// `expire` milliseconds after `now` if a time is given.
    ///
    /// Answers whether whoever purges the store has to be woken: that is so
    /// when the new deadline is earlier than every deadline there was.
    pub fn set(&mut self, key: String, value: Bytes, expire: Option<u64>, now: u64) -> (notify: bool)
        requires
            old(self).wf(),
        ensures
            final(self).wf(),
            final(self)@ == old(self)@.set(key@, bytes_seq(value), expire, now),
            notify == old(self)@.wakes(expire, now),
    {
        let expires_at = match expire {
            Some(span) => Some(
                if span <= u64::MAX - now {
                    now + span
                } else {
                    u64::MAX
                },
            ),
            None => None,
        };
        let notify = match expires_at {
            Some(when) => match self.next_expiration() {
                Some(first) => {
                    proof {
                        let k = choose|k: Seq<char>| #[trigger]
                            self@.entries.contains_key(k) && self@.entries[k].expires_at == Some(
                                first,
                            );
                        assert(self@.entries.contains_key(k));
                    }
                    first > when
                },
                None => true,
            },
            None => false,
        };
        let ghost before = self.entries@;
        let ghost index = self.expirations@;
        let previous = match self.entries.get(key.as_str()) {
            Some(entry) => Some((entry.id, entry.expires_at)),
            None => None,
        };
        match previous {
            Some((old_id, Some(old_when))) => {
                self.expirations.remove(&(old_when, old_id));
            },
            _ => {},
        }
        proof {
            lemma_consistent_remove(before, index, self.next_id, key@);
        }
        let ghost without = before.remove(key@);
        let ghost fewer = self.expirations@;
        let ghost next = self.next_id;
        let id = if self.next_id < u64::MAX {
            let id = self.next_id;
            self.next_id = id + 1;
            id
        } else {
            match expires_at {
                Some(when) => {
                    let id = least_free(&self.expirations, when);
                    proof {
                        lemma_free_id(without, fewer, next, when, id);
                        assert(views(without) =~= old(self)@.entries.remove(key@));
                    }
                    id
                },
                None => 0,
            }
        };
        let entry = Entry { id, data: value, expires_at };
        match expires_at {
            Some(when) => {
                self.expirations.insert((when, id), key.clone());
            },
            None => {},
        }
        proof {
            lemma_consistent_insert(without, fewer, next, key, entry, self.next_id);
        }
        self.entries.insert(key, entry);
        proof {
            assert(self.entries@ =~= without.insert(key@, entry));
            assert(self@.entries =~= old(self)@.entries.insert(key@, entry@));
        }
        notify
    }

    /// Drops every value that is due at `now`, and answers the earliest
    /// deadline that is left, if any. A store that has been shut down is left
    /// as it is.
    pub fn purge_expired_keys(&mut self, now: u64) -> (r: Option<u64>)
        requires
            old(self).wf(),
        ensures
            final(self).wf(),
            final(self)@ == old(self)@.purge(now),
            old(self)@.shutdown ==> r is None,
            !old(self)@.shutdown ==> r == final(self)@.next_expiration(),
    {
        if self.shutdown {
            return None;
        }
        let ghost before = self.entries@;
        loop
            invariant
                self.wf(),
                self.pub_sub == old(self).pub_sub,
                self.next_id == old(self).next_id,
                self.shutdown == old(self).shutdown,
                !self.shutdown,
                before == old(self).entries@,
                forall|k: Seq<char>| #[trigger]
                    self.entries@.contains_key(k) ==> before.contains_key(k) && self.entries@[k]
                        == before[k],
                forall|k: Seq<char>|
                    #[trigger] before.contains_key(k) && !self.entries@.contains_key(k) ==> expired(
                        before[k]@,
                        now,
                    ),
            decreases self.expirations@.dom().len(),
        {
            let ghost index = self.expirations@;
            let ghost entries = self.entries@;
            let due = match first_record(&self.expirations) {
                Some((at, key)) => if at.0 <= now {
                    Some((at, key.clone()))
                } else {
                    None
                },
                None => None,
            };
            match due {
                Some((at, key)) => {
                    proof {
                        assert(entries.contains_key(key@));
                        lemma_consistent_remove(entries, index, self.next_id, key@);
                        assert(index.dom().finite());
                    }
                    self.expirations.remove(&at);
                    self.entries.remove(key.as_str());
                },
                None => {
                    let next = self.next_expiration();
                    proof {
                        assert(self@.entries =~= unexpired(old(self)@.entries, now)) by {
                            assert forall|k: Seq<char>| #[trigger]
                                self@.entries.contains_key(k) implies !expired(
                                old(self)@.entries[k],
                                now,
                            ) by {
                                assert(entries.contains_key(k));
                                if entries[k].expires_at is Some {
                                    let other = (entries[k].expires_at->0, entries[k].id);
                                    assert(index.contains_key(other));
                                }
                            }
                            assert forall|k: Seq<char>|
                                old(self)@.entries.contains_key(k) && !expired(
                                    old(self)@.entries[k],
                                    now,
                                ) implies #[trigger] self@.entries.contains_key(k) by {
                                assert(before.contains_key(k));
                            }
                        }
                    }
                    return next;
                },
            }
        }
    }

    /// A new receiver on the channel `key`, which is made if it is not there yet.
    pub fn subscribe(&mut self, key: String) -> (rx: Receiver<Bytes>)
        requires
            old(self).wf(),
        ensures
            final(self).wf(),
            final(self)@ == old(self)@.subscribe(key@),
    {
        let found = match self.pub_sub.get(key.as_str()) {
            Some(tx) => Some(sender_subscribe(tx)),
            None => None,
        };
        match found {
            Some(rx) => {
                assert(self@.channels =~= old(self)@.channels.insert(key@));
                rx
            },
            None => {
                let (tx, rx) = broadcast_channel(CHANNEL_CAPACITY);
                self.pub_sub.insert(key, tx);
                assert(self@.channels =~= old(self)@.channels.insert(key@));
                rx
            },
        }
    }

    /// Hands `value` to every receiver on the channel `key`, and answers how
    /// many there are: none when nobody ever subscribed to the channel, or
    /// when every receiver is gone.
    pub fn publish(&self, key: &str, value: Bytes) -> (n: usize)
        ensures
            !self@.channels.contains(key@) ==> n == 0,
    {
        match self.pub_sub.get(key) {
            Some(tx) => receivers_reached(sender_send(tx, value)),
            None => 0,
        }
    }
}

} // verus!
