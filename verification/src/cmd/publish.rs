//! `PUBLISH channel message`: hands a message to everyone who listens on a channel.

use vstd::prelude::*;
use vstd::utf8::encode_utf8;
use bytes::Bytes;
use crate::buf::{bytes_copy_from_slice, bytes_seq};
use crate::connection::Connection;
use crate::db::Db;
use crate::frame::{encode, Frame, FrameView};
use crate::parse::{take_bytes, take_string, Parse, ParseError, ParseErrorView};

verus! {

/// Publishes `message` on `channel`.
#[derive(Debug)]
pub struct Publish {
    channel: String,
    message: Bytes,
}

/// What a [`Publish`] holds, as mathematics sees it.
pub struct PublishView {
    pub channel: Seq<char>,
    pub message: Seq<u8>,
}

impl View for Publish {
    type V = PublishView;

    closed spec fn view(&self) -> PublishView {
        PublishView { channel: self.channel@, message: bytes_seq(self.message) }
    }
}

impl Publish {
    /// What the arguments `args` read as, and the arguments left over.
    pub open spec fn parsed(args: Seq<FrameView>) -> (
        Result<PublishView, ParseErrorView>,
        Seq<FrameView>,
    ) {
        match take_string(args).0 {
            Err(e) => (Err(e), take_string(args).1),
            Ok(channel) => {
                let behind = take_string(args).1;
                match take_bytes(behind).0 {
                    Err(e) => (Err(e), take_bytes(behind).1),
                    Ok(message) => (Ok(PublishView { channel, message }), take_bytes(behind).1),
                }
            },
        }
    }

    /// The frame that asks a server to publish `cmd.message` on `cmd.channel`.
    pub open spec fn request(cmd: PublishView) -> FrameView {
        FrameView::Array(
            seq![
                FrameView::Bulk(encode_utf8("publish"@)),
                FrameView::Bulk(encode_utf8(cmd.channel)),
                FrameView::Bulk(cmd.message),
            ],
        )
    }

    /// A request to publish `message` on `channel`.
    pub fn new(channel: &str, message: Bytes) -> (cmd: Publish)
        ensures
            cmd@ == (PublishView { channel: channel@, message: bytes_seq(message) }),
    {
        Publish { channel: channel.to_owned(), message }
    }

    /// Reads channel and message from the arguments of a command.
    pub fn parse_frames(parse: &mut Parse) -> (r: Result<Publish, ParseError>)
        ensures
            final(parse)@ == Publish::parsed(old(parse)@).1,
            match r {
                Ok(cmd) => Publish::parsed(old(parse)@).0 == Ok::<PublishView, ParseErrorView>(
                    cmd@,
                ),
                Err(e) => Publish::parsed(old(parse)@).0 == Err::<PublishView, ParseErrorView>(e@),
            },
    {
        let channel = parse.next_string()?;
        let message = parse.next_bytes()?;
        Ok(Publish { channel, message })
    }

    /// Publishes the message through `db` and writes to `dst` how many
    /// receivers it reached; answers that number too. Nobody is reached on a
    /// channel that was never subscribed to.
    pub fn apply(self, db: &Db, dst: &mut Connection) -> (reached: usize)
        ensures
            !db@.channels.contains(self@.channel) ==> reached == 0,
            final(dst).buffered() == old(dst).buffered(),
            final(dst).pending() == old(dst).pending() + encode(
                FrameView::Integer(reached as u64),
            ),
    {
        let reached = db.publish(self.channel.as_str(), self.message);
        let response = Frame::Integer(reached as u64);
        dst.write_frame(&response);
        reached
    }

    /// The command as a frame to send to a server.
    pub fn info_frame(self) -> (frame: Frame)
        ensures
            frame@ == Publish::request(self@),
    {
        let mut frame = Frame::array();
        frame.push_bulk(bytes_copy_from_slice("publish".as_bytes()));
        frame.push_bulk(bytes_copy_from_slice(self.channel.as_str().as_bytes()));
        frame.push_bulk(self.message);
        assert(frame@->Array_0 =~= Publish::request(self@)->Array_0);
        frame
    }
}

} // verus!
