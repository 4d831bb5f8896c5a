//! `GET key`: the value stored under a key.

use vstd::prelude::*;
use vstd::utf8::encode_utf8;
use crate::buf::bytes_copy_from_slice;
use crate::connection::Connection;
use crate::db::{Db, DbView};
use crate::frame::encode;
use crate::frame::{Frame, FrameView};
use crate::parse::{take_string, Parse, ParseError, ParseErrorView};

verus! {

/// Asks for the value stored under `key`.
#[derive(Debug)]
pub struct Get {
    key: String,
}

/// What a [`Get`] holds, as mathematics sees it.
pub struct GetView {
    pub key: Seq<char>,
}

impl View for Get {
    type V = GetView;

    closed spec fn view(&self) -> GetView {
        GetView { key: self.key@ }
    }
}

/// The bytes of the ASCII text `get`.
pub open spec fn name_bytes() -> Seq<u8> {
    encode_utf8("get"@)
}

impl Get {
    /// What the arguments `args` read as, and the arguments left over.
    pub open spec fn parsed(args: Seq<FrameView>) -> (Result<GetView, ParseErrorView>, Seq<FrameView>) {
        match take_string(args).0 {
            Ok(key) => (Ok(GetView { key }), take_string(args).1),
            Err(e) => (Err(e), take_string(args).1),
        }
    }

    /// The frame that asks a server for the value under `key`.
    pub open spec fn request(cmd: GetView) -> FrameView {
        FrameView::Array(seq![FrameView::Bulk(name_bytes()), FrameView::Bulk(encode_utf8(cmd.key))])
    }

    /// The answer to the command from a store that holds `db`: the value
    /// under the key, or null where there is none.
    pub open spec fn response(cmd: GetView, db: DbView) -> FrameView {
        match db.get(cmd.key) {
            Some(value) => FrameView::Bulk(value),
            None => FrameView::Null,
        }
    }

    /// A request for the value under `key`.
    pub fn new(key: &str) -> (cmd: Get)
        ensures
            cmd@.key == key@,
    {
        Get { key: key.to_owned() }
    }

    /// The key asked for.
    pub fn key(&self) -> (key: &str)
        ensures
            key@ == self@.key,
    {
        self.key.as_str()
    }

    /// Reads the key from the arguments of a command.
    pub fn parse_frames(parse: &mut Parse) -> (r: Result<Get, ParseError>)
        ensures
            final(parse)@ == Get::parsed(old(parse)@).1,
            match r {
                Ok(cmd) => Get::parsed(old(parse)@).0 == Ok::<GetView, ParseErrorView>(cmd@),
                Err(e) => Get::parsed(old(parse)@).0 == Err::<GetView, ParseErrorView>(e@),
            },
    {
        let key = parse.next_string()?;
        Ok(Get { key })
    }

    /// Looks the key up in `db` and writes the answer to `dst`.
    pub fn apply(self, db: &Db, dst: &mut Connection)
        ensures
            final(dst).buffered() == old(dst).buffered(),
            final(dst).pending() == old(dst).pending() + encode(Get::response(self@, db@)),
    {
        let response = match db.get(self.key.as_str()) {
            Some(value) => Frame::Bulk(value),
            None => Frame::Null,
        };
        dst.write_frame(&response);
    }

    /// The command as a frame to send to a server.
    pub fn into_frame(self) -> (frame: Frame)
        ensures
            frame@ == Get::request(self@),
    {
        let mut frame = Frame::array();
        frame.push_bulk(bytes_copy_from_slice("get".as_bytes()));
        frame.push_bulk(bytes_copy_from_slice(self.key.as_str().as_bytes()));
        assert(frame@->Array_0 =~= Get::request(self@)->Array_0);
        frame
    }
}

} // verus!
