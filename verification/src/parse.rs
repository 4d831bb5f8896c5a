//! Reading the arguments of a command out of an array frame, one by one.

use vstd::prelude::*;
use vstd::utf8::{decode_utf8, encode_utf8, valid_utf8};
use bytes::Bytes;
use crate::buf::{bytes_as_slice, bytes_copy_from_slice, bytes_seq};
use crate::frame::{lemma_views_index, lemma_views_len, views_of, Frame, FrameView};
use crate::number::{atoi, atoi_u64};
use crate::text::decode_text;

verus! {

/// Why an argument could not be read.
#[derive(Debug)]
pub enum ParseError {
    /// No argument is left. For an optional argument this means that it was
    /// not given; it does not mean that the command is malformed.
    EndOfStream,
    /// The argument is there and is not of the kind asked for.
    Other(String),
}

/// What a [`ParseError`] holds, as mathematics sees it.
pub enum ParseErrorView {
    EndOfStream,
    Other(Seq<char>),
}

impl ParseErrorView {
    /// The error in words.
    pub open spec fn message(self) -> Seq<char> {
        match self {
            ParseErrorView::EndOfStream => "protocol error,unexpected end of stream"@,
            ParseErrorView::Other(text) => text,
        }
    }
}

impl From<String> for ParseError {
    /// The error that carries `text`.
    fn from(text: String) -> (e: ParseError) {
        ParseError::Other(text)
    }
}

impl vstd::std_specs::convert::FromSpecImpl<String> for ParseError {
    open spec fn obeys_from_spec() -> bool {
        true
    }

    open spec fn from_spec(text: String) -> ParseError {
        ParseError::Other(text)
    }
}

impl View for ParseError {
    type V = ParseErrorView;

    open spec fn view(&self) -> ParseErrorView {
        match self {
            ParseError::EndOfStream => ParseErrorView::EndOfStream,
            ParseError::Other(text) => ParseErrorView::Other(text@),
        }
    }
}

impl ParseError {
    /// The error in words.
    pub fn message(self) -> (text: String)
        ensures
            text@ == self@.message(),
    {
        match self {
            ParseError::EndOfStream => "protocol error,unexpected end of stream".to_owned(),
            ParseError::Other(text) => text,
        }
    }
}

/// The text of the error for a command that is not an array frame.
pub open spec fn msg_expected_array() -> Seq<char> {
    "protocol error; expected array"@
}

/// The text of the error for an argument that is neither a simple nor a bulk frame.
pub open spec fn msg_expected_text_frame() -> Seq<char> {
    "protocol error; expected simple frame or bulk frame"@
}

/// The text of the error for a bulk argument that should be text and is not UTF-8.
pub open spec fn msg_expected_string() -> Seq<char> {
    "protocol error; expected string"@
}

/// The text of the error for an argument that should be a number and holds none.
pub open spec fn msg_expected_number() -> Seq<char> {
    "protocol error; expected number"@
}

/// The text of the error for an argument that cannot hold a number at all.
pub open spec fn msg_expected_int_frame() -> Seq<char> {
    "protocol error; expected int frame"@
}

/// The text of the error for arguments left over behind the last one expected.
pub open spec fn msg_expected_end() -> Seq<char> {
    "protocol error; expected end of array"@
}

/// The argument `frame` read as text.
pub open spec fn string_of(frame: FrameView) -> Result<Seq<char>, ParseErrorView> {
    match frame {
        FrameView::Simple(text) => Ok(text),
        FrameView::Bulk(data) => if valid_utf8(data) {
            Ok(decode_utf8(data))
        } else {
            Err(ParseErrorView::Other(msg_expected_string()))
        },
        _ => Err(ParseErrorView::Other(msg_expected_text_frame())),
    }
}

/// The argument `frame` read as raw bytes.
pub open spec fn bytes_of(frame: FrameView) -> Result<Seq<u8>, ParseErrorView> {
    match frame {
        FrameView::Simple(text) => Ok(encode_utf8(text)),
        FrameView::Bulk(data) => Ok(data),
        _ => Err(ParseErrorView::Other(msg_expected_text_frame())),
    }
}

/// The number that `digits` read as, or the error for none.
pub open spec fn number_of(digits: Seq<u8>) -> Result<u64, ParseErrorView> {
    match atoi_u64(digits) {
        Some(n) => Ok(n),
        None => Err(ParseErrorView::Other(msg_expected_number())),
    }
}

/// The argument `frame` read as a number.
pub open spec fn int_of(frame: FrameView) -> Result<u64, ParseErrorView> {
    match frame {
        FrameView::Simple(text) => number_of(encode_utf8(text)),
        FrameView::Integer(value) => Ok(value),
        FrameView::Bulk(data) => number_of(data),
        _ => Err(ParseErrorView::Other(msg_expected_int_frame())),
    }
}

/// The next argument read as text, and the arguments left over.
pub open spec fn take_string(args: Seq<FrameView>) -> (
    Result<Seq<char>, ParseErrorView>,
    Seq<FrameView>,
) {
    if args.len() == 0 {
        (Err(ParseErrorView::EndOfStream), args)
    } else {
        (string_of(args[0]), args.drop_first())
    }
}

/// The next argument read as raw bytes, and the arguments left over.
pub open spec fn take_bytes(args: Seq<FrameView>) -> (
    Result<Seq<u8>, ParseErrorView>,
    Seq<FrameView>,
) {
    if args.len() == 0 {
        (Err(ParseErrorView::EndOfStream), args)
    } else {
        (bytes_of(args[0]), args.drop_first())
    }
}

/// The next argument read as a number, and the arguments left over.
pub open spec fn take_int(args: Seq<FrameView>) -> (Result<u64, ParseErrorView>, Seq<FrameView>) {
    if args.len() == 0 {
        (Err(ParseErrorView::EndOfStream), args)
    } else {
        (int_of(args[0]), args.drop_first())
    }
}

/// The arguments that are left once the first was taken.
pub open spec fn rest_of(items: Seq<FrameView>) -> Seq<FrameView> {
    if items.len() == 0 {
        items
    } else {
        items.drop_first()
    }
}

/// A cursor over the elements of an array frame.
#[derive(Debug)]
pub struct Parse {
    /// The elements not yet read, the next one last.
    parts: Vec<Frame>,
}

impl View for Parse {
    type V = Seq<FrameView>;

    /// The elements not yet read, the next one first.
    closed spec fn view(&self) -> Seq<FrameView> {
        Seq::new(self.parts@.len(), |i: int| self.parts@[self.parts@.len() - 1 - i]@)
    }
}

/// An error that carries `text`.
fn other(text: &str) -> (e: ParseError)
    ensures
        e@ == ParseErrorView::Other(text@),
{
    ParseError::Other(text.to_owned())
}

impl Parse {
    /// A cursor at the first element of `frame`, which must be an array.
    pub fn new(frame: Frame) -> (r: Result<Parse, ParseError>)
        ensures
            match r {
                Ok(parse) => frame@ == FrameView::Array(parse@),
                Err(e) => !(frame is Array) && e@ == ParseErrorView::Other(msg_expected_array()),
            },
    {
        let mut items = match frame {
            Frame::Array(items) => items,
            _ => {
                return Err(other("protocol error; expected array"));
            },
        };
        let ghost all = items@;
        let mut parts: Vec<Frame> = Vec::new();
        while items.len() > 0
            invariant
                parts@.len() + items@.len() == all.len(),
                forall|j: int| 0 <= j < items@.len() ==> items@[j] == all[j],
                forall|j: int| 0 <= j < parts@.len() ==> parts@[j] == all[all.len() - 1 - j],
            decreases items@.len(),
        {
            match items.pop() {
                Some(item) => parts.push(item),
                None => {},
            }
        }
        let parse = Parse { parts };
        proof {
            lemma_views_len(all);
            assert forall|i: int| 0 <= i < all.len() implies parse@[i] == views_of(all)[i] by {
                lemma_views_index(all, i);
            }
            assert(parse@ =~= views_of(all));
        }
        Ok(parse)
    }

    /// Takes the next element.
    pub fn next(&mut self) -> (r: Result<Frame, ParseError>)
        ensures
            final(self)@ == rest_of(old(self)@),
            match r {
                Ok(frame) => old(self)@.len() > 0 && frame@ == old(self)@[0],
                Err(e) => old(self)@.len() == 0 && e@ == ParseErrorView::EndOfStream,
            },
    {
        match self.parts.pop() {
            Some(frame) => {
                assert(self@ =~= old(self)@.drop_first());
                Ok(frame)
            },
            None => Err(ParseError::EndOfStream),
        }
    }

    /// Takes the next element as text. A simple frame is taken as it is, a
    /// bulk frame when it is UTF-8.
    pub fn next_string(&mut self) -> (r: Result<String, ParseError>)
        ensures
            final(self)@ == take_string(old(self)@).1,
            match r {
                Ok(text) => take_string(old(self)@).0 == Ok::<Seq<char>, ParseErrorView>(text@),
                Err(e) => take_string(old(self)@).0 == Err::<Seq<char>, ParseErrorView>(e@),
            },
    {
        match self.next()? {
            Frame::Simple(s) => Ok(s),
            Frame::Bulk(data) => match decode_text(bytes_as_slice(&data)) {
                Some(s) => Ok(s),
                None => Err(other("protocol error; expected string")),
            },
            _ => Err(other("protocol error; expected simple frame or bulk frame")),
        }
    }

    /// Takes the next element as raw bytes, from a simple or a bulk frame.
    pub fn next_bytes(&mut self) -> (r: Result<Bytes, ParseError>)
        ensures
            final(self)@ == take_bytes(old(self)@).1,
            match r {
                Ok(data) => take_bytes(old(self)@).0 == Ok::<Seq<u8>, ParseErrorView>(
                    bytes_seq(data),
                ),
                Err(e) => take_bytes(old(self)@).0 == Err::<Seq<u8>, ParseErrorView>(e@),
            },
    {
        match self.next()? {
            Frame::Simple(s) => Ok(bytes_copy_from_slice(s.as_str().as_bytes())),
            Frame::Bulk(data) => Ok(data),
            _ => Err(other("protocol error; expected simple frame or bulk frame")),
        }
    }

    /// Takes the next element as a number: an integer frame, or a simple or
    /// bulk frame that holds decimal digits.
    pub fn next_int(&mut self) -> (r: Result<u64, ParseError>)
        ensures
            final(self)@ == take_int(old(self)@).1,
            match r {
                Ok(n) => take_int(old(self)@).0 == Ok::<u64, ParseErrorView>(n),
                Err(e) => take_int(old(self)@).0 == Err::<u64, ParseErrorView>(e@),
            },
    {
        match self.next()? {
            Frame::Simple(data) => match atoi(data.as_str().as_bytes()) {
                Some(n) => Ok(n),
                None => Err(other("protocol error; expected number")),
            },
            Frame::Integer(v) => Ok(v),
            Frame::Bulk(data) => match atoi(bytes_as_slice(&data)) {
                Some(n) => Ok(n),
                None => Err(other("protocol error; expected number")),
            },
            _ => Err(other("protocol error; expected int frame")),
        }
    }

    /// Makes sure that no element is left. One that is left is taken.
    pub fn finish(&mut self) -> (r: Result<(), ParseError>)
        ensures
            final(self)@ == rest_of(old(self)@),
            match r {
                Ok(_) => old(self)@.len() == 0,
                Err(e) => old(self)@.len() > 0 && e@ == ParseErrorView::Other(msg_expected_end()),
            },
    {
        match self.parts.pop() {
            None => Ok(()),
            Some(_) => {
                assert(self@ =~= old(self)@.drop_first());
                Err(other("protocol error; expected end of array"))
            },
        }
    }
}

} // verus!
