//! What a client makes of the answers of a server.
//!
//! A client sends a command as a frame and reads one frame, or several, in
//! return. The functions here say what each answer means; sending and
//! reading are the caller's.

use vstd::prelude::*;
use vstd::utf8::encode_utf8;
use bytes::Bytes;
use crate::buf::{bytes_copy_from_slice, bytes_seq};
use crate::cmd::subscribe::texts;
use crate::frame::{msg_unexpected, shown, Frame, FrameView};

verus! {

/// A message that was published on a channel.
#[derive(Debug)]
pub struct Message {
    pub channel: String,
    pub content: Bytes,
}

/// The text of the error for a connection that the server has closed.
pub open spec fn msg_reset_by_server() -> Seq<char> {
    "connection reset by server"@
}

/// The text of the error for an answer to `SET` that is not `OK`.
pub open spec fn msg_unexpected_response() -> Seq<char> {
    "unexpected response"@
}

/// Whether `frame` holds `text`, as a simple frame or as the bytes of a bulk frame.
pub open spec fn holds_text(frame: FrameView, text: Seq<char>) -> bool {
    match frame {
        FrameView::Simple(held) => held == text,
        FrameView::Bulk(data) => data == encode_utf8(text),
        _ => false,
    }
}

/// What reading an answer gave, as an answer or an error: an error frame is
/// the error that the server reports, and no frame at all means that the
/// server has closed the connection.
pub open spec fn response_of(response: Option<FrameView>) -> Result<FrameView, Seq<char>> {
    match response {
        Some(FrameView::Error(text)) => Err(text),
        Some(frame) => Ok(frame),
        None => Err(msg_reset_by_server()),
    }
}

/// What the answer `frame` to `GET` means: the value, or none.
pub open spec fn got(frame: FrameView) -> Result<Option<Seq<u8>>, Seq<char>> {
    match frame {
        FrameView::Simple(text) => Ok(Some(encode_utf8(text))),
        FrameView::Bulk(data) => Ok(Some(data)),
        FrameView::Null => Ok(None),
        _ => Err(msg_unexpected(frame)),
    }
}

/// What the answer `frame` to `SET` means.
pub open spec fn stored(frame: FrameView) -> Result<(), Seq<char>> {
    match frame {
        FrameView::Simple(text) => if text == "OK"@ {
            Ok(())
        } else {
            Err(msg_unexpected_response())
        },
        FrameView::Error(text) => Err(text),
        _ => Err(msg_unexpected(frame)),
    }
}

/// What the answer `frame` to `PUBLISH` means: how many receivers were reached.
pub open spec fn published(frame: FrameView) -> Result<u64, Seq<char>> {
    match frame {
        FrameView::Integer(count) => Ok(count),
        _ => Err(msg_unexpected(frame)),
    }
}

/// Whether `frame` confirms that `channel` was joined.
pub open spec fn confirms_subscribe(frame: FrameView, channel: Seq<char>) -> bool {
    frame matches FrameView::Array(parts) && parts.len() >= 2 && holds_text(
        parts[0],
        "subscribe"@,
    ) && holds_text(parts[1], channel)
}

/// Whether `frame` passes on a message.
pub open spec fn is_message(frame: FrameView) -> bool {
    frame matches FrameView::Array(parts) && parts.len() == 3 && holds_text(parts[0], "message"@)
}

/// Whether `frame` confirms that a channel was left.
pub open spec fn confirms_unsubscribe(frame: FrameView) -> bool {
    frame matches FrameView::Array(parts) && parts.len() >= 2 && holds_text(
        parts[0],
        "unsubscribe"@,
    )
}

/// The channels of `names` that `frame` does not name.
pub open spec fn others(names: Seq<Seq<char>>, frame: FrameView) -> Seq<Seq<char>>
    decreases names.len(),
{
    if names.len() == 0 {
        names
    } else if holds_text(frame, names.last()) {
        others(names.drop_last(), frame)
    } else {
        others(names.drop_last(), frame).push(names.last())
    }
}

/// The channels joined once the answer `frame` to leaving a channel was
/// read: where it confirms that a channel was left, every channel that it
/// names is struck.
pub open spec fn struck(frame: FrameView, subscribed: Seq<Seq<char>>) -> Seq<Seq<char>> {
    if confirms_unsubscribe(frame) && subscribed.len() > 0 {
        others(subscribed, frame->Array_0[1])
    } else {
        subscribed
    }
}

/// Whether the answer `frame` to leaving a channel is in order: it confirms
/// that a channel was left, and strikes exactly one of the channels joined.
pub open spec fn strikes_one(frame: FrameView, subscribed: Seq<Seq<char>>) -> bool {
    confirms_unsubscribe(frame) && subscribed.len() > 0 && struck(frame, subscribed).len()
        == subscribed.len() - 1
}

/// Tells an answer from an error.
pub fn read_response(response: Option<Frame>) -> (r: Result<Frame, String>)
    ensures
        match r {
            Ok(frame) => response matches Some(given) && response_of(Some(given@)) == Ok::<
                FrameView,
                Seq<char>,
            >(frame@),
            Err(e) => response_of(
                match response {
                    Some(given) => Some(given@),
                    None => None,
                },
            ) == Err::<FrameView, Seq<char>>(e@),
        },
{
    match response {
        Some(Frame::Error(msg)) => Err(msg),
        Some(frame) => Ok(frame),
        None => Err("connection reset by server".to_owned()),
    }
}

/// Reads the answer to `GET`.
pub fn get_response(frame: Frame) -> (r: Result<Option<Bytes>, String>)
    ensures
        match r {
            Ok(Some(value)) => got(frame@) == Ok::<Option<Seq<u8>>, Seq<char>>(
                Some(bytes_seq(value)),
            ),
            Ok(None) => got(frame@) == Ok::<Option<Seq<u8>>, Seq<char>>(None),
            Err(e) => got(frame@) == Err::<Option<Seq<u8>>, Seq<char>>(e@),
        },
{
    match frame {
        Frame::Simple(value) => Ok(Some(bytes_copy_from_slice(value.as_str().as_bytes()))),
        Frame::Bulk(value) => Ok(Some(value)),
        Frame::Null => Ok(None),
        frame => Err(frame.to_error()),
    }
}

/// Reads the answer to `SET`.
pub fn set_response(frame: Frame) -> (r: Result<(), String>)
    ensures
        match r {
            Ok(_) => stored(frame@) is Ok,
            Err(e) => stored(frame@) == Err::<(), Seq<char>>(e@),
        },
{
    match frame {
        Frame::Simple(response) => {
            if crate::text::same_text(response.as_str(), "OK") {
                Ok(())
            } else {
                Err("unexpected response".to_owned())
            }
        },
        Frame::Error(err) => Err(err),
        frame => Err(frame.to_error()),
    }
}

/// Reads the answer to `PUBLISH`.
pub fn publish_response(frame: Frame) -> (r: Result<u64, String>)
    ensures
        match r {
            Ok(count) => published(frame@) == Ok::<u64, Seq<char>>(count),
            Err(e) => published(frame@) == Err::<u64, Seq<char>>(e@),
        },
{
    match frame {
        Frame::Integer(response) => Ok(response),
        frame => Err(frame.to_error()),
    }
}

/// Reads the answer to joining `channel`.
pub fn subscribe_response(frame: &Frame, channel: &str) -> (r: Result<(), String>)
    ensures
        match r {
            Ok(_) => confirms_subscribe(frame@, channel@),
            Err(e) => !confirms_subscribe(frame@, channel@) && e@ == msg_unexpected(frame@),
        },
{
    let confirmed = match frame {
        Frame::Array(parts) => {
            proof {
                crate::frame::lemma_views_len(parts@);
                if parts@.len() >= 2 {
                    crate::frame::lemma_views_index(parts@, 0);
                    crate::frame::lemma_views_index(parts@, 1);
                }
            }
            parts.len() >= 2 && parts[0].eq_str("subscribe") && parts[1].eq_str(channel)
        },
        _ => false,
    };
    if confirmed {
        Ok(())
    } else {
        Err(frame.to_error())
    }
}

/// Reads a frame that a server sent on its own as a message.
pub fn message_response(frame: Frame) -> (r: Result<Message, String>)
    ensures
        match r {
            Ok(message) => is_message(frame@) && message.channel@ == shown(
                frame@->Array_0[1],
            ) && bytes_seq(message.content) == encode_utf8(shown(frame@->Array_0[2])),
            Err(e) => !is_message(frame@) && e@ == msg_unexpected(frame@),
        },
{
    let found = match &frame {
        Frame::Array(parts) => {
            proof {
                crate::frame::lemma_views_len(parts@);
                if parts@.len() == 3 {
                    crate::frame::lemma_views_index(parts@, 0);
                    crate::frame::lemma_views_index(parts@, 1);
                    crate::frame::lemma_views_index(parts@, 2);
                }
            }
            if parts.len() == 3 && parts[0].eq_str("message") {
                let content = parts[2].to_string();
                Some(
                    Message {
                        channel: parts[1].to_string(),
                        content: bytes_copy_from_slice(content.as_str().as_bytes()),
                    },
                )
            } else {
                None
            }
        },
        _ => None,
    };
    match found {
        Some(message) => Ok(message),
        None => Err(frame.to_error()),
    }
}

/// The names of `names` that `frame` does not name, each copied.
fn keep_others(names: &Vec<String>, frame: &Frame) -> (kept: Vec<String>)
    ensures
        texts(kept@) == others(texts(names@), frame@),
{
    let mut kept: Vec<String> = Vec::new();
    let mut i: usize = 0;
    assert(texts(names@).take(0) =~= Seq::<Seq<char>>::empty());
    assert(texts(kept@) =~= Seq::<Seq<char>>::empty());
    while i < names.len()
        invariant
            i <= names@.len(),
            texts(kept@) == others(texts(names@).take(i as int), frame@),
        decreases names@.len() - i,
    {
        let ghost before = texts(kept@);
        proof {
            let upto = texts(names@).take(i + 1);
            assert(upto.drop_last() =~= texts(names@).take(i as int));
            assert(upto.last() == names@[i as int]@);
        }
        if !frame.eq_str(names[i].as_str()) {
            kept.push(names[i].clone());
            assert(texts(kept@) =~= before.push(names@[i as int]@));
        }
        i += 1;
    }
    assert(texts(names@).take(i as int) =~= texts(names@));
    kept
}

/// Reads the answer to leaving a channel, and strikes the channel from
/// `subscribed`, the channels that the client has joined. The answer must
/// name exactly one of them.
pub fn unsubscribe_response(frame: &Frame, subscribed: &mut Vec<String>) -> (r: Result<(), String>)
    ensures
        texts(final(subscribed)@) == struck(frame@, texts(old(subscribed)@)),
        match r {
            Ok(_) => strikes_one(frame@, texts(old(subscribed)@)),
            Err(e) => !strikes_one(frame@, texts(old(subscribed)@)) && e@ == msg_unexpected(
                frame@,
            ),
        },
{
    let confirmed = match frame {
        Frame::Array(parts) => {
            proof {
                crate::frame::lemma_views_len(parts@);
                if parts@.len() >= 2 {
                    crate::frame::lemma_views_index(parts@, 0);
                    crate::frame::lemma_views_index(parts@, 1);
                }
            }
            if parts.len() >= 2 && parts[0].eq_str("unsubscribe") {
                let len = subscribed.len();
                if len == 0 {
                    false
                } else {
                    let mut kept = keep_others(subscribed, &parts[1]);
                    std::mem::swap(subscribed, &mut kept);
                    subscribed.len() == len - 1
                }
            } else {
                false
            }
        },
        _ => false,
    };
    if confirmed {
        Ok(())
    } else {
        Err(frame.to_error())
    }
}

} // verus!
