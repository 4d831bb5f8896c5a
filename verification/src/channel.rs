//! Broadcast channels of `tokio` and the keyed set of streams of
//! `tokio-stream`, as the rest of the library sees them.
//!
//! Senders, receivers and streams are opaque to the verifier and are only
//! carried through. Of a set of streams the library reads and changes the
//! keys; they are named by [`stream_keys`]. The functions below are the only
//! places where the two crates are called, and their contracts are taken on
//! trust.

use vstd::prelude::*;
use bytes::Bytes;
use tokio::sync::broadcast::error::SendError;
use tokio::sync::broadcast::{Receiver, Sender};
use tokio_stream::wrappers::BroadcastStream;
use tokio_stream::StreamMap;

verus! {

#[verifier::external_type_specification]
#[verifier::external_body]
#[verifier::reject_recursive_types(T)]
pub struct ExSender<T>(Sender<T>);

#[verifier::external_type_specification]
#[verifier::external_body]
#[verifier::reject_recursive_types(T)]
pub struct ExReceiver<T>(Receiver<T>);

#[verifier::external_type_specification]
#[verifier::external_body]
#[verifier::reject_recursive_types(T)]
pub struct ExSendError<T>(SendError<T>);

#[verifier::external_type_specification]
#[verifier::external_body]
#[verifier::reject_recursive_types(T)]
pub struct ExBroadcastStream<T>(BroadcastStream<T>);

#[verifier::external_type_specification]
#[verifier::external_body]
#[verifier::reject_recursive_types(K)]
#[verifier::reject_recursive_types(V)]
pub struct ExStreamMap<K, V>(StreamMap<K, V>);

/// The keys of a set of streams, in the order in which the set holds them.
pub uninterp spec fn stream_keys(map: StreamMap<String, BroadcastStream<Bytes>>) -> Seq<Seq<char>>;

/// `keys` without the key at `i`, the last key moved into its place.
pub open spec fn swap_removed(keys: Seq<Seq<char>>, i: int) -> Seq<Seq<char>> {
    keys.update(i, keys.last()).drop_last()
}

/// Where `key` stands first in `keys`; the length of `keys` when it is not held.
pub open spec fn first_index(keys: Seq<Seq<char>>, key: Seq<char>) -> int
    decreases keys.len(),
{
    if keys.len() == 0 || keys[0] == key {
        0
    } else {
        1 + first_index(keys.drop_first(), key)
    }
}

/// `keys` without `key`: where it is held, the last key takes the place of
/// its first occurrence.
pub open spec fn without_key(keys: Seq<Seq<char>>, key: Seq<char>) -> Seq<Seq<char>> {
    if keys.contains(key) {
        swap_removed(keys, first_index(keys, key))
    } else {
        keys
    }
}

/// `tokio::sync::broadcast::channel`: a new channel that keeps up to
/// `capacity` messages for slow receivers, with its first receiver. The crate
/// panics on a capacity of zero or of more than `usize::MAX / 2`.
#[verifier::external_body]
pub(crate) fn broadcast_channel(capacity: usize) -> (r: (Sender<Bytes>, Receiver<Bytes>))
    requires
        0 < capacity <= usize::MAX / 2,
{
    tokio::sync::broadcast::channel(capacity)
}

/// `Sender::subscribe`: one more receiver on the sender's channel. The crate
/// panics when `usize::MAX >> 2` receivers are alive, which is more than
/// memory can hold at once.
#[verifier::external_body]
pub(crate) fn sender_subscribe(tx: &Sender<Bytes>) -> (rx: Receiver<Bytes>) {
    tx.subscribe()
}

/// `Sender::send`: hands `value` to every receiver alive and answers how
/// many there are, or gives the value back when there is none. How many
/// there are is not known to the verifier.
#[verifier::external_body]
pub(crate) fn sender_send(tx: &Sender<Bytes>, value: Bytes) -> (r: Result<usize, SendError<Bytes>>) {
    tx.send(value)
}

/// `BroadcastStream::new`: the receiver as a stream.
#[verifier::external_body]
pub(crate) fn broadcast_stream(rx: Receiver<Bytes>) -> (stream: BroadcastStream<Bytes>) {
    BroadcastStream::new(rx)
}

/// `StreamMap::new`: a set without streams.
#[verifier::external_body]
pub(crate) fn stream_map_new() -> (map: StreamMap<String, BroadcastStream<Bytes>>)
    ensures
        stream_keys(map) == Seq::<Seq<char>>::empty(),
{
    StreamMap::new()
}

/// `StreamMap::len`: how many streams the set holds.
#[verifier::external_body]
pub(crate) fn stream_map_len(map: &StreamMap<String, BroadcastStream<Bytes>>) -> (n: usize)
    ensures
        n == stream_keys(*map).len(),
{
    map.len()
}

/// `StreamMap::insert`: puts `stream` into the set under `key`. A stream
/// held under the same key is removed first, as by `remove`; the new one
/// comes last.
#[verifier::external_body]
pub(crate) fn stream_map_insert(
    map: &mut StreamMap<String, BroadcastStream<Bytes>>,
    key: String,
    stream: BroadcastStream<Bytes>,
)
    ensures
        stream_keys(*final(map)) == without_key(stream_keys(*old(map)), key@).push(key@),
{
    map.insert(key, stream);
}

/// `StreamMap::remove`: takes the stream held under `key` out of the set
/// and answers whether there was one. The last stream of the set moves into
/// the place of the one removed.
#[verifier::external_body]
pub(crate) fn stream_map_remove(
    map: &mut StreamMap<String, BroadcastStream<Bytes>>,
    key: &str,
) -> (found: bool)
    ensures
        found == stream_keys(*old(map)).contains(key@),
        stream_keys(*final(map)) == without_key(stream_keys(*old(map)), key@),
{
    map.remove(key).is_some()
}

/// `StreamMap::keys`: the keys of the set, each as a `String` of its own,
/// in the order in which the set holds them.
#[verifier::external_body]
pub(crate) fn stream_map_keys(map: &StreamMap<String, BroadcastStream<Bytes>>) -> (keys: Vec<String>)
    ensures
        keys@.len() == stream_keys(*map).len(),
        forall|i: int| 0 <= i < keys@.len() ==> (#[trigger] keys@[i])@ == stream_keys(*map)[i],
{
    map.keys().map(|key| key.to_string()).collect()
}

} // verus!
