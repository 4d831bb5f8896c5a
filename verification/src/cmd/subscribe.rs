//! `SUBSCRIBE channel [channel...]` and `UNSUBSCRIBE [channel...]`: listening
//! on channels.
//!
//! A connection that has subscribed stays in a session of its own until it
//! ends. In it, messages published on the joined channels are passed on, and
//! the client may join or leave channels; every other command is answered
//! as unknown. The functions here decide what is written and how the set of
//! joined channels changes; waiting for whatever happens next is left to
//! the caller.

use vstd::prelude::*;
use vstd::utf8::encode_utf8;
use bytes::Bytes;
use tokio_stream::wrappers::BroadcastStream;
use tokio_stream::StreamMap;
use crate::buf::{bytes_copy_from_slice, bytes_seq};
use crate::channel::{
    broadcast_stream, first_index, stream_keys, stream_map_insert, stream_map_keys,
    stream_map_len, stream_map_new, stream_map_remove, without_key,
};
use crate::cmd::unknown::Unknown;
use crate::cmd::{command_of, name_of, Command, CommandView};
use crate::connection::Connection;
use crate::db::{Db, DbView};
use crate::frame::{encode, encode_all, lemma_encode_all_push, Frame, FrameView};
use crate::parse::{string_of, take_string, Parse, ParseError, ParseErrorView};

verus! {

/// Joins channels.
#[derive(Debug)]
pub struct Subscribe {
    channels: Vec<String>,
}

/// Leaves channels: the named ones, or all when none is named.
#[derive(Debug)]
pub struct Unsubscribe {
    channels: Vec<String>,
}

/// The texts that `names` hold, in order.
pub open spec fn texts(names: Seq<String>) -> Seq<Seq<char>> {
    Seq::new(names.len(), |i: int| names[i]@)
}

impl View for Subscribe {
    type V = Seq<Seq<char>>;

    /// The names of the channels to join.
    closed spec fn view(&self) -> Seq<Seq<char>> {
        texts(self.channels@)
    }
}

impl View for Unsubscribe {
    type V = Seq<Seq<char>>;

    /// The names of the channels to leave.
    closed spec fn view(&self) -> Seq<Seq<char>> {
        texts(self.channels@)
    }
}

/// All of `args` read as texts, up to the first that is none.
pub open spec fn take_strings(args: Seq<FrameView>) -> (
    Result<Seq<Seq<char>>, ParseErrorView>,
    Seq<FrameView>,
)
    decreases args.len(),
{
    if args.len() == 0 {
        (Ok(Seq::empty()), args)
    } else {
        match string_of(args[0]) {
            Err(e) => (Err(e), args.drop_first()),
            Ok(first) => match take_strings(args.drop_first()).0 {
                Err(e) => (Err(e), take_strings(args.drop_first()).1),
                Ok(rest) => (Ok(seq![first] + rest), take_strings(args.drop_first()).1),
            },
        }
    }
}

/// What has been read so far, put in front of what reading the rest gives.
pub open spec fn after_names(
    done: Seq<Seq<char>>,
    rest: (Result<Seq<Seq<char>>, ParseErrorView>, Seq<FrameView>),
) -> (Result<Seq<Seq<char>>, ParseErrorView>, Seq<FrameView>) {
    match rest.0 {
        Ok(names) => (Ok(done + names), rest.1),
        Err(e) => (Err(e), rest.1),
    }
}

/// Each of `names` as a bulk frame.
pub open spec fn bulks(names: Seq<Seq<char>>) -> Seq<FrameView> {
    Seq::new(names.len(), |i: int| FrameView::Bulk(encode_utf8(names[i])))
}

/// The frame with a command name and channel names that a client sends.
pub open spec fn request(name: Seq<char>, channels: Seq<Seq<char>>) -> FrameView {
    FrameView::Array(seq![FrameView::Bulk(encode_utf8(name))] + bulks(channels))
}

/// The answer to joining `channel`, with the number of channels joined then.
pub open spec fn subscribe_frame(channel: Seq<char>, count: nat) -> FrameView {
    FrameView::Array(
        seq![
            FrameView::Bulk(encode_utf8("subscribe"@)),
            FrameView::Bulk(encode_utf8(channel)),
            FrameView::Integer(count as u64),
        ],
    )
}

/// The answer to leaving `channel`, with the number of channels still joined.
pub open spec fn unsubscribe_frame(channel: Seq<char>, count: nat) -> FrameView {
    FrameView::Array(
        seq![
            FrameView::Bulk(encode_utf8("unsubscribe"@)),
            FrameView::Bulk(encode_utf8(channel)),
            FrameView::Integer(count as u64),
        ],
    )
}

/// The frame that passes on `content`, published on `channel`.
pub open spec fn message_frame(channel: Seq<char>, content: Seq<u8>) -> FrameView {
    FrameView::Array(
        seq![
            FrameView::Bulk(encode_utf8("message"@)),
            FrameView::Bulk(encode_utf8(channel)),
            FrameView::Bulk(content),
        ],
    )
}

/// The text of the error for leaving a channel that is not joined.
pub open spec fn msg_not_subscribed() -> Seq<char> {
    "protocol error; unsubscribe from a channel that is not subscribed"@
}

/// The text of the error for leaving channels outside a session.
pub open spec fn msg_unsupported() -> Seq<char> {
    "unsubscribe si unsupproted in this context"@
}

/// The channels joined once `name` was joined too: it comes last, and is
/// held once.
pub open spec fn joined(keys: Seq<Seq<char>>, name: Seq<char>) -> Seq<Seq<char>> {
    without_key(keys, name).push(name)
}

/// Leaving `names` one by one from the joined channels `keys`: the channels
/// still joined at the end, the answers in order, and whether every name was
/// joined when its turn came. At the first name that is not, nothing more
/// is left.
pub open spec fn leaving(keys: Seq<Seq<char>>, names: Seq<Seq<char>>) -> (
    Seq<Seq<char>>,
    Seq<FrameView>,
    bool,
)
    decreases names.len(),
{
    if names.len() == 0 {
        (keys, Seq::empty(), true)
    } else if !keys.contains(names[0]) {
        (keys, Seq::empty(), false)
    } else {
        let fewer = without_key(keys, names[0]);
        let rest = leaving(fewer, names.drop_first());
        (rest.0, seq![unsubscribe_frame(names[0], fewer.len())] + rest.1, rest.2)
    }
}

/// The answer to joining `channel_name`, with `num_subs` channels joined then.
pub fn make_subscribe_frame(channel_name: String, num_subs: usize) -> (frame: Frame)
    ensures
        frame@ == subscribe_frame(channel_name@, num_subs as nat),
{
    let mut response = Frame::array();
    response.push_bulk(bytes_copy_from_slice("subscribe".as_bytes()));
    response.push_bulk(bytes_copy_from_slice(channel_name.as_str().as_bytes()));
    response.push_int(num_subs as u64);
    assert(response@->Array_0 =~= subscribe_frame(channel_name@, num_subs as nat)->Array_0);
    response
}

/// The answer to leaving `channel_name`, with `num_subs` channels still joined.
pub fn make_unsubscribe_frame(channel_name: String, num_subs: usize) -> (frame: Frame)
    ensures
        frame@ == unsubscribe_frame(channel_name@, num_subs as nat),
{
    let mut response = Frame::array();
    response.push_bulk(bytes_copy_from_slice("unsubscribe".as_bytes()));
    response.push_bulk(bytes_copy_from_slice(channel_name.as_str().as_bytes()));
    response.push_int(num_subs as u64);
    assert(response@->Array_0 =~= unsubscribe_frame(channel_name@, num_subs as nat)->Array_0);
    response
}

/// The frame that passes on `msg`, published on `channel_name`.
pub fn make_message_frame(channel_name: String, msg: Bytes) -> (frame: Frame)
    ensures
        frame@ == message_frame(channel_name@, bytes_seq(msg)),
{
    let mut response = Frame::array();
    response.push_bulk(bytes_copy_from_slice("message".as_bytes()));
    response.push_bulk(bytes_copy_from_slice(channel_name.as_str().as_bytes()));
    response.push_bulk(msg);
    assert(response@->Array_0 =~= message_frame(channel_name@, bytes_seq(msg))->Array_0);
    response
}

/// Reads texts from `parse` until none is left, and appends them to `channels`.
fn parse_names(parse: &mut Parse, channels: &mut Vec<String>) -> (r: Result<(), ParseError>)
    ensures
        final(parse)@ == take_strings(old(parse)@).1,
        match r {
            Ok(_) => take_strings(old(parse)@).0 matches Ok(names) && texts(final(channels)@)
                == texts(old(channels)@) + names,
            Err(e) => take_strings(old(parse)@).0 == Err::<Seq<Seq<char>>, ParseErrorView>(e@),
        },
{
    let ghost start = parse@;
    let ghost given = texts(channels@);
    loop
        invariant
            start == old(parse)@,
            given == texts(old(channels)@),
            after_names(
                texts(channels@).skip(given.len() as int),
                take_strings(parse@),
            ) == take_strings(start),
            texts(channels@).len() >= given.len(),
            texts(channels@).take(given.len() as int) == given,
        decreases parse@.len(),
    {
        let ghost before = parse@;
        let ghost names = texts(channels@);
        match parse.next_string() {
            Ok(s) => {
                channels.push(s);
                proof {
                    assert(texts(channels@) =~= names.push(s@));
                    assert(texts(channels@).take(given.len() as int) =~= given);
                    let done = names.skip(given.len() as int);
                    assert(texts(channels@).skip(given.len() as int) =~= done.push(s@));
                    match take_strings(parse@).0 {
                        Ok(rest) => {
                            assert(done + (seq![s@] + rest) =~= done.push(s@) + rest);
                        },
                        Err(_) => {},
                    }
                }
            },
            Err(ParseError::EndOfStream) => {
                proof {
                    let done = names.skip(given.len() as int);
                    assert(done + Seq::<Seq<char>>::empty() =~= done);
                    assert(names =~= given + done);
                }
                return Ok(());
            },
            Err(e) => {
                return Err(e);
            },
        }
    }
}

/// A copy of `channels`.
fn copy_names(channels: &[String]) -> (copy: Vec<String>)
    ensures
        texts(copy@) == texts(channels@),
{
    let mut copy: Vec<String> = Vec::new();
    let mut i: usize = 0;
    while i < channels.len()
        invariant
            i <= channels@.len(),
            copy@.len() == i,
            forall|j: int| 0 <= j < i ==> copy@[j]@ == channels@[j]@,
        decreases channels@.len() - i,
    {
        copy.push(channels[i].clone());
        i += 1;
    }
    assert(texts(copy@) =~= texts(channels@));
    copy
}

/// The frame with the command name `name` and the channel names `channels`.
fn names_frame(name: &str, channels: Vec<String>) -> (frame: Frame)
    ensures
        frame@ == request(name@, texts(channels@)),
{
    let mut frame = Frame::array();
    frame.push_bulk(bytes_copy_from_slice(name.as_bytes()));
    let mut i: usize = 0;
    while i < channels.len()
        invariant
            i <= channels@.len(),
            frame is Array,
            frame@->Array_0.len() == i + 1,
            frame@->Array_0[0] == FrameView::Bulk(encode_utf8(name@)),
            forall|j: int|
                0 <= j < i ==> #[trigger] frame@->Array_0[j + 1] == FrameView::Bulk(
                    encode_utf8(channels@[j]@),
                ),
        decreases channels@.len() - i,
    {
        frame.push_bulk(bytes_copy_from_slice(channels[i].as_str().as_bytes()));
        i += 1;
    }
    proof {
        let want = request(name@, texts(channels@))->Array_0;
        assert forall|j: int| 0 <= j < want.len() implies frame@->Array_0[j] == want[j] by {
            if j > 0 {
                assert(frame@->Array_0[(j - 1) + 1] == FrameView::Bulk(
                    encode_utf8(channels@[j - 1]@),
                ));
            }
        }
        assert(frame@->Array_0 =~= want);
    }
    frame
}

impl Subscribe {
    /// What the arguments `args` read as, and the arguments left over: at
    /// least one channel name, and then as many as there are.
    pub open spec fn parsed(args: Seq<FrameView>) -> (
        Result<Seq<Seq<char>>, ParseErrorView>,
        Seq<FrameView>,
    ) {
        match take_string(args).0 {
            Err(e) => (Err(e), take_string(args).1),
            Ok(first) => after_names(seq![first], take_strings(take_string(args).1)),
        }
    }

    /// A request to join `channels`.
    pub fn new(channels: &[String]) -> (cmd: Subscribe)
        ensures
            cmd@ == texts(channels@),
    {
        Subscribe { channels: copy_names(channels) }
    }

    /// Reads the channel names from the arguments of a command.
    pub fn parse_frames(parse: &mut Parse) -> (r: Result<Subscribe, ParseError>)
        ensures
            final(parse)@ == Subscribe::parsed(old(parse)@).1,
            match r {
                Ok(cmd) => Subscribe::parsed(old(parse)@).0 == Ok::<
                    Seq<Seq<char>>,
                    ParseErrorView,
                >(cmd@),
                Err(e) => Subscribe::parsed(old(parse)@).0 == Err::<
                    Seq<Seq<char>>,
                    ParseErrorView,
                >(e@),
            },
    {
        let first = parse.next_string()?;
        let mut channels: Vec<String> = Vec::new();
        channels.push(first);
        assert(texts(channels@) =~= seq![first@]);
        parse_names(parse, &mut channels)?;
        Ok(Subscribe { channels })
    }

    /// The command as a frame to send to a server.
    pub fn into_frame(self) -> (frame: Frame)
        ensures
            frame@ == request("subscribe"@, self@),
    {
        names_frame("subscribe", self.channels)
    }
}

impl Unsubscribe {
    /// What the arguments `args` read as, and the arguments left over: as
    /// many channel names as there are.
    pub open spec fn parsed(args: Seq<FrameView>) -> (
        Result<Seq<Seq<char>>, ParseErrorView>,
        Seq<FrameView>,
    ) {
        take_strings(args)
    }

    /// A request to leave `channels`, or every channel when `channels` is empty.
    pub fn new(channels: &[String]) -> (cmd: Unsubscribe)
        ensures
            cmd@ == texts(channels@),
    {
        Unsubscribe { channels: copy_names(channels) }
    }

    /// Reads the channel names from the arguments of a command.
    pub fn parse_frames(parse: &mut Parse) -> (r: Result<Unsubscribe, ParseError>)
        ensures
            final(parse)@ == Unsubscribe::parsed(old(parse)@).1,
            match r {
                Ok(cmd) => Unsubscribe::parsed(old(parse)@).0 == Ok::<
                    Seq<Seq<char>>,
                    ParseErrorView,
                >(cmd@),
                Err(e) => Unsubscribe::parsed(old(parse)@).0 == Err::<
                    Seq<Seq<char>>,
                    ParseErrorView,
                >(e@),
            },
    {
        let mut channels: Vec<String> = Vec::new();
        assert(texts(channels@) =~= Seq::<Seq<char>>::empty());
        parse_names(parse, &mut channels)?;
        assert(Seq::<Seq<char>>::empty() + take_strings(old(parse)@).0->Ok_0 =~= take_strings(
            old(parse)@,
        ).0->Ok_0);
        Ok(Unsubscribe { channels })
    }

    /// The command as a frame to send to a server.
    pub fn into_frame(self) -> (frame: Frame)
        ensures
            frame@ == request("unsubscribe"@, self@),
    {
        names_frame("unsubscribe", self.channels)
    }
}

/// Joining `names` one by one to the joined channels `keys`: the channels
/// joined at the end, and the answers in order.
pub open spec fn joining(keys: Seq<Seq<char>>, names: Seq<Seq<char>>) -> (
    Seq<Seq<char>>,
    Seq<FrameView>,
)
    decreases names.len(),
{
    if names.len() == 0 {
        (keys, Seq::empty())
    } else {
        let more = joined(keys, names[0]);
        let rest = joining(more, names.drop_first());
        (rest.0, seq![subscribe_frame(names[0], more.len())] + rest.1)
    }
}

/// The channels that a command to leave `names` is about: the named ones, or
/// all that are joined when none is named.
pub open spec fn to_leave(keys: Seq<Seq<char>>, names: Seq<Seq<char>>) -> Seq<Seq<char>> {
    if names.len() == 0 {
        keys
    } else {
        names
    }
}

/// What a session makes of the command `cmd` of its client.
///
/// Joining is put off: the names join those that wait to be joined. Leaving
/// is done at once, with one answer for each channel left, and fails at the
/// first channel that is not joined. Every other command is answered as
/// unknown, and the session goes on.
pub open spec fn handled(
    cmd: CommandView,
    waiting: Seq<Seq<char>>,
    keys: Seq<Seq<char>>,
    written: Seq<u8>,
    waiting_after: Seq<Seq<char>>,
    keys_after: Seq<Seq<char>>,
    written_after: Seq<u8>,
    result: Result<(), Seq<char>>,
) -> bool {
    match cmd {
        CommandView::Subscribe(names) => {
            &&& waiting_after == waiting + names
            &&& keys_after == keys
            &&& written_after == written
            &&& result is Ok
        },
        CommandView::Unsubscribe(names) => {
            let out = leaving(keys, to_leave(keys, names));
            &&& waiting_after == waiting
            &&& keys_after == out.0
            &&& written_after == written + encode_all(out.1)
            &&& result == if out.2 {
                Ok::<(), Seq<char>>(())
            } else {
                Err::<(), Seq<char>>(msg_not_subscribed())
            }
        },
        _ => {
            &&& waiting_after == waiting
            &&& keys_after == keys
            &&& written_after == written + encode(Unknown::response(name_of(cmd)))
            &&& result is Ok
        },
    }
}

/// The channels joined at the start of a session: none.
pub fn subscriptions() -> (map: StreamMap<String, BroadcastStream<Bytes>>)
    ensures
        stream_keys(map) == Seq::<Seq<char>>::empty(),
{
    stream_map_new()
}

/// Joins the channel `channel_name`: a new receiver of the store's channel
/// comes into `subscriptions` under that name, and the answer is written
/// to `dst`.
pub fn subscribe_to_channel(
    channel_name: String,
    subscriptions: &mut StreamMap<String, BroadcastStream<Bytes>>,
    db: &mut Db,
    dst: &mut Connection,
)
    requires
        old(db).wf(),
    ensures
        final(db).wf(),
        final(db)@ == old(db)@.subscribe(channel_name@),
        stream_keys(*final(subscriptions)) == joined(stream_keys(*old(subscriptions)), channel_name@),
        final(dst).buffered() == old(dst).buffered(),
        final(dst).pending() == old(dst).pending() + encode(
            subscribe_frame(channel_name@, stream_keys(*final(subscriptions)).len()),
        ),
{
    let rx = db.subscribe(channel_name.clone());
    stream_map_insert(subscriptions, channel_name.clone(), broadcast_stream(rx));
    let response = make_subscribe_frame(channel_name, stream_map_len(subscriptions));
    dst.write_frame(&response);
}

/// Passes a message on to the client: `msg` was published on the joined
/// channel `channel_name`. Where the receiver had fallen behind and messages
/// were lost, there is no `msg`, and nothing is written.
pub fn on_message(channel_name: String, msg: Option<Bytes>, dst: &mut Connection)
    ensures
        final(dst).buffered() == old(dst).buffered(),
        final(dst).pending() == match msg {
            Some(content) => old(dst).pending() + encode(
                message_frame(channel_name@, bytes_seq(content)),
            ),
            None => old(dst).pending(),
        },
{
    match msg {
        Some(content) => {
            let response = make_message_frame(channel_name, content);
            dst.write_frame(&response);
        },
        None => {},
    }
}

/// Leaves the channels `names` one by one, and writes the answers to `dst`.
fn leave(
    names: Vec<String>,
    subscriptions: &mut StreamMap<String, BroadcastStream<Bytes>>,
    dst: &mut Connection,
) -> (r: Result<(), String>)
    ensures
        stream_keys(*final(subscriptions)) == leaving(
            stream_keys(*old(subscriptions)),
            texts(names@),
        ).0,
        final(dst).buffered() == old(dst).buffered(),
        final(dst).pending() == old(dst).pending() + encode_all(
            leaving(stream_keys(*old(subscriptions)), texts(names@)).1,
        ),
        match r {
            Ok(_) => leaving(stream_keys(*old(subscriptions)), texts(names@)).2,
            Err(e) => !leaving(stream_keys(*old(subscriptions)), texts(names@)).2 && e@
                == msg_not_subscribed(),
        },
{
    let ghost all = texts(names@);
    let ghost total = leaving(stream_keys(*subscriptions), all);
    let ghost mut done: Seq<FrameView> = Seq::empty();
    let mut i: usize = 0;
    assert(all.skip(0) =~= all);
    assert(done + total.1 =~= total.1);
    assert(dst.pending() + encode_all(done) =~= dst.pending());
    while i < names.len()
        invariant
            i <= names@.len(),
            all == texts(names@),
            total == leaving(stream_keys(*old(subscriptions)), all),
            total.0 == leaving(stream_keys(*subscriptions), all.skip(i as int)).0,
            total.2 == leaving(stream_keys(*subscriptions), all.skip(i as int)).2,
            total.1 == done + leaving(stream_keys(*subscriptions), all.skip(i as int)).1,
            dst.buffered() == old(dst).buffered(),
            dst.pending() == old(dst).pending() + encode_all(done),
        decreases names@.len() - i,
    {
        let ghost keys = stream_keys(*subscriptions);
        let ghost rest = all.skip(i as int);
        assert(rest[0] == names@[i as int]@);
        assert(rest.drop_first() =~= all.skip(i + 1));
        let found = stream_map_remove(subscriptions, names[i].as_str());
        if !found {
            assert(total.1 =~= done);
            return Err(
                "protocol error; unsubscribe from a channel that is not subscribed".to_owned(),
            );
        }
        let response = make_unsubscribe_frame(names[i].clone(), stream_map_len(subscriptions));
        dst.write_frame(&response);
        proof {
            let after = leaving(stream_keys(*subscriptions), all.skip(i + 1));
            lemma_encode_all_push(done, response@);
            assert(done + (seq![response@] + after.1) =~= done.push(response@) + after.1);
            assert(old(dst).pending() + encode_all(done) + encode(response@) =~= old(dst).pending()
                + (encode_all(done) + encode(response@)));
            done = done.push(response@);
        }
        i += 1;
    }
    proof {
        assert(all.skip(i as int) =~= Seq::<Seq<char>>::empty());
        assert(total.1 =~= done);
    }
    Ok(())
}

/// Does what the command `command` of the client of a session asks for.
/// `subscribe_to` holds the names of the channels that wait to be joined,
/// `subscriptions` the channels joined.
pub fn handle(
    command: Command,
    subscribe_to: &mut Vec<String>,
    subscriptions: &mut StreamMap<String, BroadcastStream<Bytes>>,
    dst: &mut Connection,
) -> (r: Result<(), String>)
    ensures
        final(dst).buffered() == old(dst).buffered(),
        handled(
            command@,
            texts(old(subscribe_to)@),
            stream_keys(*old(subscriptions)),
            old(dst).pending(),
            texts(final(subscribe_to)@),
            stream_keys(*final(subscriptions)),
            final(dst).pending(),
            match r {
                Ok(_) => Ok(()),
                Err(e) => Err(e@),
            },
        ),
{
    match command {
        Command::Subscribe(subscribe) => {
            let mut names = subscribe.channels;
            let ghost before = texts(subscribe_to@);
            let ghost added = texts(names@);
            subscribe_to.append(&mut names);
            assert(texts(subscribe_to@) =~= before + added);
            Ok(())
        },
        Command::Unsubscribe(unsubscribe) => {
            let names = if unsubscribe.channels.len() == 0 {
                let all = stream_map_keys(subscriptions);
                assert(texts(all@) =~= stream_keys(*subscriptions));
                all
            } else {
                unsubscribe.channels
            };
            leave(names, subscriptions, dst)
        },
        command => {
            let cmd = Unknown::new(command.get_name());
            cmd.apply(dst);
            Ok(())
        },
    }
}

/// Reads the command that the client of a session sent in `frame`, and does
/// what it asks for. A frame that is no command ends the session with an error.
pub fn handle_command(
    frame: Frame,
    subscribe_to: &mut Vec<String>,
    subscriptions: &mut StreamMap<String, BroadcastStream<Bytes>>,
    dst: &mut Connection,
) -> (r: Result<(), String>)
    ensures
        final(dst).buffered() == old(dst).buffered(),
        match command_of(frame@) {
            Ok(cmd) => handled(
                cmd,
                texts(old(subscribe_to)@),
                stream_keys(*old(subscriptions)),
                old(dst).pending(),
                texts(final(subscribe_to)@),
                stream_keys(*final(subscriptions)),
                final(dst).pending(),
                match r {
                    Ok(_) => Ok(()),
                    Err(e) => Err(e@),
                },
            ),
            Err(text) => {
                &&& r matches Err(e) && e@ == text
                &&& texts(final(subscribe_to)@) == texts(old(subscribe_to)@)
                &&& stream_keys(*final(subscriptions)) == stream_keys(*old(subscriptions))
                &&& final(dst).pending() == old(dst).pending()
            },
        },
{
    match Command::from_frame(frame) {
        Ok(command) => handle(command, subscribe_to, subscriptions, dst),
        Err(e) => Err(e),
    }
}

impl Subscribe {
    /// Joins every channel that waits to be joined, in order, and writes the
    /// answers to `dst`. Afterwards no channel waits.
    pub fn apply(
        &mut self,
        subscriptions: &mut StreamMap<String, BroadcastStream<Bytes>>,
        db: &mut Db,
        dst: &mut Connection,
    )
        requires
            old(db).wf(),
        ensures
            final(db).wf(),
            final(db)@ == (DbView {
                channels: old(db)@.channels.union(old(self)@.to_set()),
                ..old(db)@
            }),
            final(self)@ == Seq::<Seq<char>>::empty(),
            stream_keys(*final(subscriptions)) == joining(
                stream_keys(*old(subscriptions)),
                old(self)@,
            ).0,
            final(dst).buffered() == old(dst).buffered(),
            final(dst).pending() == old(dst).pending() + encode_all(
                joining(stream_keys(*old(subscriptions)), old(self)@).1,
            ),
    {
        let mut names: Vec<String> = Vec::new();
        std::mem::swap(&mut names, &mut self.channels);
        assert(texts(self.channels@) =~= Seq::<Seq<char>>::empty());
        Subscribe::join(names, subscriptions, db, dst);
    }

    /// Reads the command that the client sent in `frame` while the session
    /// runs, and does what it asks for; channels to join wait in this
    /// subscription until it is applied again.
    pub fn on_frame(
        &mut self,
        frame: Frame,
        subscriptions: &mut StreamMap<String, BroadcastStream<Bytes>>,
        dst: &mut Connection,
    ) -> (r: Result<(), String>)
        ensures
            final(dst).buffered() == old(dst).buffered(),
            match command_of(frame@) {
                Ok(cmd) => handled(
                    cmd,
                    old(self)@,
                    stream_keys(*old(subscriptions)),
                    old(dst).pending(),
                    final(self)@,
                    stream_keys(*final(subscriptions)),
                    final(dst).pending(),
                    match r {
                        Ok(_) => Ok(()),
                        Err(e) => Err(e@),
                    },
                ),
                Err(text) => {
                    &&& r matches Err(e) && e@ == text
                    &&& final(self)@ == old(self)@
                    &&& stream_keys(*final(subscriptions)) == stream_keys(*old(subscriptions))
                    &&& final(dst).pending() == old(dst).pending()
                },
            },
    {
        handle_command(frame, &mut self.channels, subscriptions, dst)
    }

    /// Joins the channels `names`, in order, and writes the answers to `dst`.
    fn join(
        names: Vec<String>,
        subscriptions: &mut StreamMap<String, BroadcastStream<Bytes>>,
        db: &mut Db,
        dst: &mut Connection,
    )
        requires
            old(db).wf(),
        ensures
            final(db).wf(),
            final(db)@ == (DbView {
                channels: old(db)@.channels.union(texts(names@).to_set()),
                ..old(db)@
            }),
            stream_keys(*final(subscriptions)) == joining(
                stream_keys(*old(subscriptions)),
                texts(names@),
            ).0,
            final(dst).buffered() == old(dst).buffered(),
            final(dst).pending() == old(dst).pending() + encode_all(
                joining(stream_keys(*old(subscriptions)), texts(names@)).1,
            ),
    {
        let ghost all = texts(names@);
        let ghost total = joining(stream_keys(*subscriptions), all);
        let ghost mut done: Seq<FrameView> = Seq::empty();
        let mut i: usize = 0;
        proof {
            assert(all.skip(0) =~= all);
            assert(done + total.1 =~= total.1);
            assert(dst.pending() + encode_all(done) =~= dst.pending());
            assert(db@.channels.union(all.take(0).to_set()) =~= db@.channels);
        }
        while i < names.len()
            invariant
                i <= names@.len(),
                all == texts(names@),
                total == joining(stream_keys(*old(subscriptions)), all),
                total.0 == joining(stream_keys(*subscriptions), all.skip(i as int)).0,
                total.1 == done + joining(stream_keys(*subscriptions), all.skip(i as int)).1,
                db.wf(),
                db@ == (DbView {
                    channels: old(db)@.channels.union(all.take(i as int).to_set()),
                    ..old(db)@
                }),
                dst.buffered() == old(dst).buffered(),
                dst.pending() == old(dst).pending() + encode_all(done),
            decreases names@.len() - i,
        {
            let ghost rest = all.skip(i as int);
            let ghost written = dst.pending();
            assert(rest[0] == names@[i as int]@);
            assert(rest.drop_first() =~= all.skip(i + 1));
            subscribe_to_channel(names[i].clone(), subscriptions, db, dst);
            proof {
                let response = subscribe_frame(rest[0], stream_keys(*subscriptions).len());
                let after = joining(stream_keys(*subscriptions), all.skip(i + 1));
                lemma_encode_all_push(done, response);
                assert(done + (seq![response] + after.1) =~= done.push(response) + after.1);
                assert(old(dst).pending() + encode_all(done) + encode(response) =~= old(
                    dst,
                ).pending() + (encode_all(done) + encode(response)));
                done = done.push(response);
                assert(all.take(i + 1) =~= all.take(i as int).push(rest[0]));
                assert(all.take(i + 1).to_set() =~= all.take(i as int).to_set().insert(rest[0])) by {
                    let s = all.take(i as int);
                    let s2 = all.take(i + 1);
                    assert forall|x: Seq<char>| s2.to_set().contains(x) <==> s.to_set().insert(
                        rest[0],
                    ).contains(x) by {
                        if s2.contains(x) {
                            let j = choose|j: int| 0 <= j < s2.len() && s2[j] == x;
                            if j < i {
                                assert(s[j] == x);
                            }
                        }
                        if s.contains(x) {
                            let j = choose|j: int| 0 <= j < s.len() && s[j] == x;
                            assert(s2[j] == x);
                        }
                        assert(s2[i as int] == rest[0]);
                    }
                }
                assert(db@.channels =~= old(db)@.channels.union(all.take(i + 1).to_set()));
            }
            i += 1;
        }
        proof {
            assert(all.skip(i as int) =~= Seq::<Seq<char>>::empty());
            assert(total.1 =~= done);
            assert(all.take(i as int) =~= all);
        }
    }
}

/// Where a key is held, its first place is a place in the keys, and the key
/// stands there.
pub proof fn lemma_first_index(keys: Seq<Seq<char>>, key: Seq<char>)
    requires
        keys.contains(key),
    ensures
        0 <= first_index(keys, key) < keys.len(),
        keys[first_index(keys, key)] == key,
    decreases keys.len(),
{
    if keys[0] != key {
        let rest = keys.drop_first();
        let i = choose|i: int| 0 <= i < keys.len() && keys[i] == key;
        assert(rest[i - 1] == key);
        lemma_first_index(rest, key);
    }
}

/// Taking a key out of keys that hold nothing twice takes out just that
/// key: it is gone, every other key stays, and nothing is held twice.
pub proof fn lemma_without_key(keys: Seq<Seq<char>>, key: Seq<char>)
    requires
        keys.no_duplicates(),
        keys.contains(key),
    ensures
        without_key(keys, key).no_duplicates(),
        without_key(keys, key).len() == keys.len() - 1,
        !without_key(keys, key).contains(key),
        forall|x: Seq<char>| x != key && keys.contains(x) ==> without_key(keys, key).contains(x),
        forall|x: Seq<char>| without_key(keys, key).contains(x) ==> keys.contains(x),
{
    lemma_first_index(keys, key);
    let at = first_index(keys, key);
    let last = keys.len() - 1;
    let fewer = without_key(keys, key);
    assert forall|i: int| 0 <= i < fewer.len() implies #[trigger] fewer[i] == (if i == at {
        keys[last]
    } else {
        keys[i]
    }) by {}
    assert forall|i: int, j: int| 0 <= i < fewer.len() && 0 <= j < fewer.len() && i != j implies
        fewer[i] != fewer[j] by {
        let i0 = if i == at { last } else { i };
        let j0 = if j == at { last } else { j };
        assert(fewer[i] == keys[i0] && fewer[j] == keys[j0]);
    }
    assert forall|x: Seq<char>| x != key && keys.contains(x) implies fewer.contains(x) by {
        let i = choose|i: int| 0 <= i < keys.len() && keys[i] == x;
        if i == last {
            assert(fewer[at] == x);
        } else {
            assert(fewer[i] == x);
        }
    }
    assert forall|x: Seq<char>| fewer.contains(x) implies keys.contains(x) && x != key by {
        let i = choose|i: int| 0 <= i < fewer.len() && fewer[i] == x;
        let i0 = if i == at { last } else { i };
        assert(keys[i0] == x);
    }
}

/// Joining a channel keeps the joined channels free of repeats, and the
/// channel is joined afterwards.
pub proof fn lemma_joined(keys: Seq<Seq<char>>, name: Seq<char>)
    requires
        keys.no_duplicates(),
    ensures
        joined(keys, name).no_duplicates(),
        joined(keys, name).contains(name),
        forall|x: Seq<char>| keys.contains(x) ==> joined(keys, name).contains(x),
        joined(keys, name).len() == if keys.contains(name) {
            keys.len()
        } else {
            keys.len() + 1
        },
{
    let fewer = without_key(keys, name);
    let more = joined(keys, name);
    if keys.contains(name) {
        lemma_without_key(keys, name);
    }
    assert(more[fewer.len() as int] == name);
    assert forall|i: int, j: int| 0 <= i < more.len() && 0 <= j < more.len() && i != j implies
        more[i] != more[j] by {
        if i < fewer.len() {
            assert(fewer.contains(fewer[i]));
        }
        if j < fewer.len() {
            assert(fewer.contains(fewer[j]));
        }
    }
    assert forall|x: Seq<char>| keys.contains(x) implies more.contains(x) by {
        if x != name {
            let i = choose|i: int| 0 <= i < fewer.len() && fewer[i] == x;
            assert(more[i] == x);
        }
    }
}

/// Leaving channels that are all joined, none named twice, succeeds: there
/// is one answer for each name, and as many channels fewer are joined.
pub proof fn lemma_leaving_joined(keys: Seq<Seq<char>>, names: Seq<Seq<char>>)
    requires
        keys.no_duplicates(),
        names.no_duplicates(),
        forall|i: int| 0 <= i < names.len() ==> keys.contains(#[trigger] names[i]),
    ensures
        leaving(keys, names).2,
        leaving(keys, names).1.len() == names.len(),
        leaving(keys, names).0.len() == keys.len() - names.len(),
        leaving(keys, names).0.no_duplicates(),
    decreases names.len(),
{
    if names.len() > 0 {
        let fewer = without_key(keys, names[0]);
        let rest = names.drop_first();
        lemma_without_key(keys, names[0]);
        assert forall|i: int| 0 <= i < rest.len() implies fewer.contains(#[trigger] rest[i]) by {
            assert(rest[i] == names[i + 1]);
            assert(keys.contains(names[i + 1]));
        }
        lemma_leaving_joined(fewer, rest);
    }
}

/// Leaving every joined channel at once leaves none joined, and is answered
/// once for each channel that was joined.
pub proof fn lemma_leaving_all(keys: Seq<Seq<char>>)
    requires
        keys.no_duplicates(),
    ensures
        leaving(keys, to_leave(keys, Seq::empty())).2,
        leaving(keys, to_leave(keys, Seq::empty())).1.len() == keys.len(),
        leaving(keys, to_leave(keys, Seq::empty())).0 == Seq::<Seq<char>>::empty(),
{
    lemma_leaving_joined(keys, keys);
    assert(leaving(keys, keys).0 =~= Seq::<Seq<char>>::empty());
}

/// Leaving a channel that is not joined fails, and changes nothing.
pub proof fn lemma_leaving_unjoined(keys: Seq<Seq<char>>, name: Seq<char>)
    requires
        !keys.contains(name),
    ensures
        leaving(keys, seq![name]) == (keys, Seq::<FrameView>::empty(), false),
{
}

/// Leaving a channel twice in a row fails the second time.
pub proof fn lemma_leaving_twice(keys: Seq<Seq<char>>, name: Seq<char>)
    requires
        keys.no_duplicates(),
        keys.contains(name),
    ensures
        leaving(keys, seq![name]).2,
        !leaving(leaving(keys, seq![name]).0, seq![name]).2,
{
    lemma_without_key(keys, name);
    let once = seq![name];
    assert(once.drop_first() =~= Seq::<Seq<char>>::empty());
    assert(leaving(without_key(keys, name), once.drop_first()).0 == without_key(keys, name));
}

/// Names that were written as bulk frames read back as themselves, each
/// one, with nothing left over.
pub proof fn lemma_names_read_back(names: Seq<Seq<char>>)
    ensures
        take_strings(bulks(names)) == (
            Ok::<Seq<Seq<char>>, ParseErrorView>(names),
            Seq::<FrameView>::empty(),
        ),
    decreases names.len(),
{
    if names.len() == 0 {
        assert(names =~= Seq::<Seq<char>>::empty());
        assert(bulks(names) =~= Seq::<FrameView>::empty());
    } else {
        let rest = names.drop_first();
        lemma_names_read_back(rest);
        assert(bulks(names).drop_first() =~= bulks(rest));
        vstd::utf8::encode_utf8_valid_utf8(names[0]);
        vstd::utf8::encode_utf8_decode_utf8(names[0]);
        assert(seq![names[0]] + rest =~= names);
    }
}

/// The channels of a request to join or leave read back from the request as
/// themselves. A request to join must name one channel at least.
pub proof fn lemma_request_reads_back(name: Seq<char>, channels: Seq<Seq<char>>)
    ensures
        request(name, channels)->Array_0[0] == FrameView::Bulk(encode_utf8(name)),
        request(name, channels)->Array_0.drop_first() == bulks(channels),
        Unsubscribe::parsed(bulks(channels)) == (
            Ok::<Seq<Seq<char>>, ParseErrorView>(channels),
            Seq::<FrameView>::empty(),
        ),
        channels.len() >= 1 ==> Subscribe::parsed(bulks(channels)) == (
            Ok::<Seq<Seq<char>>, ParseErrorView>(channels),
            Seq::<FrameView>::empty(),
        ),
{
    assert(request(name, channels)->Array_0.drop_first() =~= bulks(channels));
    lemma_names_read_back(channels);
    if channels.len() >= 1 {
        let rest = channels.drop_first();
        lemma_names_read_back(rest);
        assert(bulks(channels).drop_first() =~= bulks(rest));
        vstd::utf8::encode_utf8_valid_utf8(channels[0]);
        vstd::utf8::encode_utf8_decode_utf8(channels[0]);
        assert(seq![channels[0]] + rest =~= channels);
    }
}

} // verus!
