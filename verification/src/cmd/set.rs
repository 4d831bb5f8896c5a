//! `SET key value [EX seconds | PX milliseconds]`: stores a value, for a
//! time or for good.

use vstd::prelude::*;
use vstd::utf8::{encode_utf8, encode_utf8_decode_utf8, encode_utf8_valid_utf8};
use bytes::Bytes;
use crate::buf::{bytes_copy_from_slice, bytes_seq};
use crate::connection::Connection;
use crate::db::Db;
use crate::frame::encode;
use crate::frame::{Frame, FrameView};
use crate::parse::{take_bytes, take_int, take_string, Parse, ParseError, ParseErrorView};
use crate::text::same_text;

verus! {

/// Stores `value` under `key`, to be dropped after `expire` milliseconds if
/// a time is given.
#[derive(Debug)]
pub struct SetCmd {
    key: String,
    value: Bytes,
    expire: Option<u64>,
}

/// What a [`SetCmd`] holds, as mathematics sees it.
pub struct SetView {
    pub key: Seq<char>,
    pub value: Seq<u8>,
    /// How long the value is to be kept, in milliseconds.
    pub expire: Option<u64>,
}

impl View for SetCmd {
    type V = SetView;

    closed spec fn view(&self) -> SetView {
        SetView { key: self.key@, value: bytes_seq(self.value), expire: self.expire }
    }
}

/// The text of the error for an option that is neither `EX` nor `PX`.
pub open spec fn msg_only_expiration() -> Seq<char> {
    "currently `set` only supports the expiration option"@
}

/// So many seconds in milliseconds; a time too long to be counted is held
/// at the longest time that can be.
pub open spec fn seconds(secs: u64) -> u64 {
    if secs * 1000 <= u64::MAX {
        (secs * 1000) as u64
    } else {
        u64::MAX
    }
}

impl SetCmd {
    /// The time that the option `name` with the amount read from `args`
    /// stands for, and the arguments left over.
    pub open spec fn parsed_expiry(name: Seq<char>, args: Seq<FrameView>) -> (
        Result<Option<u64>, ParseErrorView>,
        Seq<FrameView>,
    ) {
        if name == "EX"@ {
            match take_int(args).0 {
                Ok(secs) => (Ok(Some(seconds(secs))), take_int(args).1),
                Err(e) => (Err(e), take_int(args).1),
            }
        } else if name == "PX"@ {
            match take_int(args).0 {
                Ok(ms) => (Ok(Some(ms)), take_int(args).1),
                Err(e) => (Err(e), take_int(args).1),
            }
        } else {
            (Err(ParseErrorView::Other(msg_only_expiration())), args)
        }
    }

    /// The time read from what follows key and value, if anything follows,
    /// and the arguments left over.
    pub open spec fn parsed_option(args: Seq<FrameView>) -> (
        Result<Option<u64>, ParseErrorView>,
        Seq<FrameView>,
    ) {
        match take_string(args).0 {
            Ok(name) => SetCmd::parsed_expiry(name, take_string(args).1),
            Err(ParseErrorView::EndOfStream) => (Ok(None), take_string(args).1),
            Err(e) => (Err(e), take_string(args).1),
        }
    }

    /// What the arguments `args` read as, and the arguments left over.
    pub open spec fn parsed(args: Seq<FrameView>) -> (Result<SetView, ParseErrorView>, Seq<FrameView>) {
        match take_string(args).0 {
            Err(e) => (Err(e), take_string(args).1),
            Ok(key) => {
                let behind_key = take_string(args).1;
                match take_bytes(behind_key).0 {
                    Err(e) => (Err(e), take_bytes(behind_key).1),
                    Ok(value) => {
                        let behind_value = take_bytes(behind_key).1;
                        match SetCmd::parsed_option(behind_value).0 {
                            Err(e) => (Err(e), SetCmd::parsed_option(behind_value).1),
                            Ok(expire) => (
                                Ok(SetView { key, value, expire }),
                                SetCmd::parsed_option(behind_value).1,
                            ),
                        }
                    },
                }
            },
        }
    }

    /// The frame that asks a server to store `cmd.value` under `cmd.key`:
    /// the name of the command, key and value, and behind them, where a time
    /// is given, `PX` and the time in milliseconds.
    pub open spec fn request(cmd: SetView) -> FrameView {
        let always = seq![
            FrameView::Bulk(encode_utf8("set"@)),
            FrameView::Bulk(encode_utf8(cmd.key)),
            FrameView::Bulk(cmd.value),
        ];
        match cmd.expire {
            Some(ms) => FrameView::Array(
                always.push(FrameView::Bulk(encode_utf8("PX"@))).push(FrameView::Integer(ms)),
            ),
            None => FrameView::Array(always),
        }
    }

    /// A request to store `value` under `key`, for `expire` milliseconds or
    /// for good.
    pub fn new(key: &str, value: Bytes, expire: Option<u64>) -> (cmd: SetCmd)
        ensures
            cmd@ == (SetView { key: key@, value: bytes_seq(value), expire }),
    {
        SetCmd { key: key.to_owned(), value, expire }
    }

    /// The key to store under.
    pub fn key(&self) -> (key: &str)
        ensures
            key@ == self@.key,
    {
        self.key.as_str()
    }

    /// The value to store.
    pub fn value(&self) -> (value: &Bytes)
        ensures
            bytes_seq(*value) == self@.value,
    {
        &self.value
    }

    /// How long the value is to be kept, in milliseconds.
    pub fn expire(&self) -> (expire: Option<u64>)
        ensures
            expire == self@.expire,
    {
        self.expire
    }

    /// Reads key, value and the optional time from the arguments of a command.
    pub fn parse_frames(parse: &mut Parse) -> (r: Result<SetCmd, ParseError>)
        ensures
            final(parse)@ == SetCmd::parsed(old(parse)@).1,
            match r {
                Ok(cmd) => SetCmd::parsed(old(parse)@).0 == Ok::<SetView, ParseErrorView>(cmd@),
                Err(e) => SetCmd::parsed(old(parse)@).0 == Err::<SetView, ParseErrorView>(e@),
            },
    {
        let key = parse.next_string()?;
        let value = parse.next_bytes()?;
        let mut expire: Option<u64> = None;
        match parse.next_string() {
            Ok(s) => {
                if same_text(s.as_str(), "EX") {
                    let secs = parse.next_int()?;
                    expire = Some(
                        if secs <= u64::MAX / 1000 {
                            secs * 1000
                        } else {
                            u64::MAX
                        },
                    );
                } else if same_text(s.as_str(), "PX") {
                    let ms = parse.next_int()?;
                    expire = Some(ms);
                } else {
                    return Err(
                        ParseError::Other(
                            "currently `set` only supports the expiration option".to_owned(),
                        ),
                    );
                }
            },
            Err(ParseError::EndOfStream) => {},
            Err(e) => {
                return Err(e);
            },
        }
        Ok(SetCmd { key, value, expire })
    }

    /// Stores the value in `db` at the moment `now` and writes the answer
    /// `OK` to `dst`. Answers whether whoever purges the store has to be woken.
    pub fn apply(self, db: &mut Db, dst: &mut Connection, now: u64) -> (notify: bool)
        requires
            old(db).wf(),
        ensures
            final(db).wf(),
            final(db)@ == old(db)@.set(self@.key, self@.value, self@.expire, now),
            notify == old(db)@.wakes(self@.expire, now),
            final(dst).buffered() == old(dst).buffered(),
            final(dst).pending() == old(dst).pending() + encode(FrameView::Simple("OK"@)),
    {
        let notify = db.set(self.key, self.value, self.expire, now);
        let response = Frame::Simple("OK".to_owned());
        dst.write_frame(&response);
        notify
    }

    /// The command as a frame to send to a server.
    pub fn into_frame(self) -> (frame: Frame)
        ensures
            frame@ == SetCmd::request(self@),
    {
        let mut frame = Frame::array();
        frame.push_bulk(bytes_copy_from_slice("set".as_bytes()));
        frame.push_bulk(bytes_copy_from_slice(self.key.as_str().as_bytes()));
        frame.push_bulk(self.value);
        match self.expire {
            Some(ms) => {
                frame.push_bulk(bytes_copy_from_slice("PX".as_bytes()));
                frame.push_int(ms);
            },
            None => {},
        }
        assert(frame@->Array_0 =~= SetCmd::request(self@)->Array_0);
        frame
    }
}

/// A command to store a value reads back from its own request as itself,
/// time and all, with no argument left over.
pub proof fn lemma_request_reads_back(cmd: SetView)
    ensures
        SetCmd::request(cmd) is Array,
        SetCmd::request(cmd)->Array_0.len() >= 1,
        SetCmd::request(cmd)->Array_0[0] == FrameView::Bulk(encode_utf8("set"@)),
        SetCmd::parsed(SetCmd::request(cmd)->Array_0.drop_first()) == (
            Ok::<SetView, ParseErrorView>(cmd),
            Seq::<FrameView>::empty(),
        ),
{
    let args = SetCmd::request(cmd)->Array_0.drop_first();
    encode_utf8_valid_utf8(cmd.key);
    encode_utf8_decode_utf8(cmd.key);
    assert(args[0] == FrameView::Bulk(encode_utf8(cmd.key)));
    let behind_key = take_string(args).1;
    assert(behind_key[0] == FrameView::Bulk(cmd.value));
    let behind_value = take_bytes(behind_key).1;
    match cmd.expire {
        None => {
            assert(behind_value =~= Seq::<FrameView>::empty());
        },
        Some(ms) => {
            encode_utf8_valid_utf8("PX"@);
            encode_utf8_decode_utf8("PX"@);
            assert(behind_value[0] == FrameView::Bulk(encode_utf8("PX"@)));
            assert("PX"@ != "EX"@) by {
                reveal_strlit("PX");
                reveal_strlit("EX");
                assert("PX"@[0] != "EX"@[0]);
            }
            let behind_name = take_string(behind_value).1;
            assert(behind_name[0] == FrameView::Integer(ms));
            assert(take_int(behind_name).1 =~= Seq::<FrameView>::empty());
        },
    }
}

} // verus!
