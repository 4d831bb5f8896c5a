//! Frames: the units of the wire protocol, and how bytes are read as frames.
//!
//! Reading is done in two passes over the same bytes. [`Frame::check`] finds
//! out whether a whole frame is buffered and where it ends, without building
//! anything; [`Frame::parse`] then builds the value. Both are stated against
//! the grammar written down in [`check_at`] and [`parse_at`].

use vstd::prelude::*;
use vstd::utf8::*;
use bytes::Bytes;
use crate::buf::{bytes_as_slice, bytes_copy_from_slice, bytes_hex_debug, bytes_seq, hex_debug};
use crate::number::{
    atoi, atoi_u64, decimal_digits, lemma_decimal_digits_are_digits, lemma_digits_are_text,
    push_decimal,
};
use crate::text::{decode_text, same_bytes, same_text};

verus! {

/// The byte `+`, which starts a simple frame.
pub const SIMPLE: u8 = 43;

/// The byte `-`, which starts an error frame and the length line of a null frame.
pub const MINUS: u8 = 45;

/// The byte `:`, which starts an integer frame.
pub const INTEGER: u8 = 58;

/// The byte `$`, which starts a bulk or null frame.
pub const BULK: u8 = 36;

/// The byte `*`, which starts an array frame.
pub const ARRAY: u8 = 42;

/// Carriage return, the first byte of a line break.
pub const CR: u8 = 13;

/// Line feed, the second byte of a line break.
pub const LF: u8 = 10;

/// One unit of the wire protocol.
#[derive(Debug)]
pub enum Frame {
    Simple(String),
    Error(String),
    Integer(u64),
    Bulk(Bytes),
    Null,
    Array(Vec<Frame>),
}

/// What a [`Frame`] holds, as mathematics sees it.
pub enum FrameView {
    Simple(Seq<char>),
    Error(Seq<char>),
    Integer(u64),
    Bulk(Seq<u8>),
    Null,
    Array(Seq<FrameView>),
}

/// Why reading a frame from a buffer failed.
#[derive(Debug)]
pub enum Error {
    /// The buffer ends before the frame does: more bytes are needed.
    Incomplete,
    /// The bytes are no frame; the text says why.
    Other(String),
}

/// What an [`Error`] holds, as mathematics sees it.
pub enum ErrorView {
    Incomplete,
    Other(Seq<char>),
}

impl ErrorView {
    /// The error in words.
    pub open spec fn message(self) -> Seq<char> {
        match self {
            ErrorView::Incomplete => "stream ended early"@,
            ErrorView::Other(text) => text,
        }
    }
}

impl Error {
    /// The error in words.
    pub fn message(self) -> (text: String)
        ensures
            text@ == self@.message(),
    {
        match self {
            Error::Incomplete => "stream ended early".to_owned(),
            Error::Other(text) => text,
        }
    }
}

impl From<String> for Error {
    /// The error that carries `text`.
    fn from(text: String) -> (e: Error) {
        Error::Other(text)
    }
}

impl vstd::std_specs::convert::FromSpecImpl<String> for Error {
    open spec fn obeys_from_spec() -> bool {
        true
    }

    open spec fn from_spec(text: String) -> Error {
        Error::Other(text)
    }
}

impl View for Error {
    type V = ErrorView;

    open spec fn view(&self) -> ErrorView {
        match self {
            Error::Incomplete => ErrorView::Incomplete,
            Error::Other(text) => ErrorView::Other(text@),
        }
    }
}

impl Clone for Frame {
    fn clone(&self) -> (copy: Frame)
        ensures
            copy@ == self@,
    {
        self.duplicate()
    }
}

impl View for Frame {
    type V = FrameView;

    open spec fn view(&self) -> FrameView
        decreases self,
    {
        match self {
            Frame::Simple(text) => FrameView::Simple(text@),
            Frame::Error(text) => FrameView::Error(text@),
            Frame::Integer(value) => FrameView::Integer(*value),
            Frame::Bulk(data) => FrameView::Bulk(bytes_seq(*data)),
            Frame::Null => FrameView::Null,
            Frame::Array(items) => FrameView::Array(views_of(items@)),
        }
    }
}

/// The views of a sequence of frames, in order.
pub open spec fn views_of(items: Seq<Frame>) -> Seq<FrameView>
    decreases items,
{
    if items.len() == 0 {
        Seq::empty()
    } else {
        views_of(items.drop_last()).push(items.last().view())
    }
}

/// A line break.
pub open spec fn crlf() -> Seq<u8> {
    seq![CR, LF]
}

/// The bytes that stand for `frame` on the wire.
pub open spec fn encode(frame: FrameView) -> Seq<u8>
    decreases frame,
{
    match frame {
        FrameView::Simple(text) => seq![SIMPLE] + encode_utf8(text) + crlf(),
        FrameView::Error(text) => seq![MINUS] + encode_utf8(text) + crlf(),
        FrameView::Integer(value) => seq![INTEGER] + decimal_digits(value as nat) + crlf(),
        FrameView::Bulk(data) => seq![BULK] + decimal_digits(data.len()) + crlf() + data + crlf(),
        FrameView::Null => seq![BULK, MINUS, 49u8, CR, LF],
        FrameView::Array(items) => seq![ARRAY] + decimal_digits(items.len()) + crlf() + encode_all(
            items,
        ),
    }
}

/// The encodings of `items`, one after the other.
pub open spec fn encode_all(items: Seq<FrameView>) -> Seq<u8>
    decreases items,
{
    if items.len() == 0 {
        Seq::empty()
    } else {
        encode(items[0]) + encode_all(items.drop_first())
    }
}

/// A frame as text for a reader.
///
/// Text is shown as it is, an error after `error:`, a number in decimal, a
/// bulk as text where it is UTF-8, and null as `(nil)`. Of an array the
/// elements behind the first are shown, a blank before each.
pub open spec fn shown(frame: FrameView) -> Seq<char>
    decreases frame,
{
    match frame {
        FrameView::Simple(text) => text,
        FrameView::Error(text) => "error:"@ + text,
        FrameView::Integer(value) => decode_utf8(decimal_digits(value as nat)),
        FrameView::Bulk(data) => if valid_utf8(data) {
            decode_utf8(data)
        } else {
            hex_debug(data)
        },
        FrameView::Null => "(nil)"@,
        FrameView::Array(parts) => if parts.len() == 0 {
            Seq::empty()
        } else {
            shown_all(parts.drop_first())
        },
    }
}

/// Each of `parts` as text, a blank before each.
pub open spec fn shown_all(parts: Seq<FrameView>) -> Seq<char>
    decreases parts,
{
    if parts.len() == 0 {
        Seq::empty()
    } else {
        shown_all(parts.drop_last()) + " "@ + shown(parts.last())
    }
}

/// The text of the error for a frame that came where another was expected.
pub open spec fn msg_unexpected(frame: FrameView) -> Seq<char> {
    "unexpected frame:"@ + shown(frame)
}

/// Whether a carriage return and a line feed stand at `i` and `i + 1`.
pub open spec fn crlf_at(buf: Seq<u8>, i: int) -> bool {
    0 <= i && i + 1 < buf.len() && buf[i] == CR && buf[i + 1] == LF
}

/// Where the line that starts at `pos` ends: the index of the first carriage
/// return at or after `pos` that a line feed follows, if there is one.
pub open spec fn line_end(buf: Seq<u8>, pos: int) -> Option<int>
    decreases buf.len() - pos,
{
    if pos < 0 || pos + 1 >= buf.len() {
        None
    } else if crlf_at(buf, pos) {
        Some(pos)
    } else {
        line_end(buf, pos + 1)
    }
}

/// The text of the error for bytes that are no frame at all.
pub open spec fn msg_invalid_format() -> Seq<char> {
    "protocol error; invalid frame format"@
}

/// The text of the error for a line that should hold a number and does not.
pub open spec fn msg_invalid_decimal() -> Seq<char> {
    "protocol error; invalid decimal number"@
}

/// The text of the error for a frame that starts with the unknown byte `b`.
pub open spec fn msg_invalid_type(b: u8) -> Seq<char> {
    "protocol error;invalid frame type byte `"@ + decode_utf8(decimal_digits(b as nat)) + "`"@
}

/// The text of the error for a bulk frame whose length line starts with a
/// minus sign and is not `-1`.
pub open spec fn msg_invalid_bulk(line: Seq<char>) -> Seq<char> {
    "protocol error;invalid bulk frame `"@ + line + "`"@
}

/// The decimal number on the line that starts at `pos`, and where the next line starts.
pub open spec fn decimal_at(buf: Seq<u8>, pos: int) -> Result<(u64, int), ErrorView> {
    match line_end(buf, pos) {
        None => Err(ErrorView::Incomplete),
        Some(end) => match atoi_u64(buf.subrange(pos, end)) {
            Some(n) => Ok((n, end + 2)),
            None => Err(ErrorView::Other(msg_invalid_decimal())),
        },
    }
}

/// Where the null frame ends whose marker starts at `pos`, behind the `$`.
///
/// The marker is a line, and the line must be `-1`. Any other line that
/// starts with a minus sign is a malformed frame, and a line that has not
/// ended yet is an incomplete one.
pub open spec fn null_at(buf: Seq<u8>, pos: int) -> Result<int, ErrorView> {
    match line_end(buf, pos) {
        None => Err(ErrorView::Incomplete),
        Some(end) => {
            let line = buf.subrange(pos, end);
            if line == seq![MINUS, 49u8] {
                Ok(end + 2)
            } else if valid_utf8(line) {
                Err(ErrorView::Other(msg_invalid_bulk(decode_utf8(line))))
            } else {
                Err(ErrorView::Other(msg_invalid_format()))
            }
        },
    }
}

/// Whether a whole frame starts at `pos`, and if so where it ends.
///
/// This is the first pass: it looks at the structure only, and does not
/// decode the text of a simple or error frame. Before the elements of an array are gone into, the
/// definition makes sure that reading has moved on; it always has, and the
/// other branch is never taken.
pub open spec fn check_at(buf: Seq<u8>, pos: int) -> Result<int, ErrorView>
    decreases buf.len() - pos, 0nat,
{
    if pos < 0 || pos >= buf.len() {
        Err(ErrorView::Incomplete)
    } else if buf[pos] == SIMPLE || buf[pos] == MINUS {
        match line_end(buf, pos + 1) {
            None => Err(ErrorView::Incomplete),
            Some(end) => Ok(end + 2),
        }
    } else if buf[pos] == INTEGER {
        match decimal_at(buf, pos + 1) {
            Err(e) => Err(e),
            Ok((_, next)) => Ok(next),
        }
    } else if buf[pos] == BULK {
        if pos + 1 >= buf.len() {
            Err(ErrorView::Incomplete)
        } else if buf[pos + 1] == MINUS {
            null_at(buf, pos + 1)
        } else {
            match decimal_at(buf, pos + 1) {
                Err(e) => Err(e),
                Ok((len, next)) => if len > usize::MAX {
                    Err(ErrorView::Other(msg_invalid_format()))
                } else if next + len + 2 > buf.len() {
                    Err(ErrorView::Incomplete)
                } else {
                    Ok(next + len + 2)
                },
            }
        }
    } else if buf[pos] == ARRAY {
        match decimal_at(buf, pos + 1) {
            Err(e) => Err(e),
            Ok((count, next)) => if pos < next <= buf.len() {
                check_items_at(buf, next, count as nat)
            } else {
                Err(ErrorView::Incomplete)
            },
        }
    } else {
        Err(ErrorView::Other(msg_invalid_type(buf[pos])))
    }
}

/// Whether `count` whole frames follow each other from `pos` on, and if so
/// where the last one ends.
pub open spec fn check_items_at(buf: Seq<u8>, pos: int, count: nat) -> Result<int, ErrorView>
    decreases buf.len() - pos, count + 1,
{
    if count == 0 {
        Ok(pos)
    } else {
        match check_at(buf, pos) {
            Err(e) => Err(e),
            Ok(next) => if pos < next <= buf.len() {
                check_items_at(buf, next, (count - 1) as nat)
            } else {
                Err(ErrorView::Incomplete)
            },
        }
    }
}

/// The frame that starts at `pos`, and where it ends.
///
/// This is the second pass: it builds the value, and so also rejects text
/// that is not UTF-8.
pub open spec fn parse_at(buf: Seq<u8>, pos: int) -> Result<(FrameView, int), ErrorView>
    decreases buf.len() - pos, 0nat,
{
    if pos < 0 || pos >= buf.len() {
        Err(ErrorView::Incomplete)
    } else if buf[pos] == SIMPLE || buf[pos] == MINUS {
        match line_end(buf, pos + 1) {
            None => Err(ErrorView::Incomplete),
            Some(end) => {
                let line = buf.subrange(pos + 1, end);
                if !valid_utf8(line) {
                    Err(ErrorView::Other(msg_invalid_format()))
                } else if buf[pos] == SIMPLE {
                    Ok((FrameView::Simple(decode_utf8(line)), end + 2))
                } else {
                    Ok((FrameView::Error(decode_utf8(line)), end + 2))
                }
            },
        }
    } else if buf[pos] == INTEGER {
        match decimal_at(buf, pos + 1) {
            Err(e) => Err(e),
            Ok((value, next)) => Ok((FrameView::Integer(value), next)),
        }
    } else if buf[pos] == BULK {
        if pos + 1 >= buf.len() {
            Err(ErrorView::Incomplete)
        } else if buf[pos + 1] == MINUS {
            match null_at(buf, pos + 1) {
                Err(e) => Err(e),
                Ok(end) => Ok((FrameView::Null, end)),
            }
        } else {
            match decimal_at(buf, pos + 1) {
                Err(e) => Err(e),
                Ok((len, next)) => if len > usize::MAX {
                    Err(ErrorView::Other(msg_invalid_format()))
                } else if next + len + 2 > buf.len() {
                    Err(ErrorView::Incomplete)
                } else {
                    Ok((FrameView::Bulk(buf.subrange(next, next + len)), next + len + 2))
                },
            }
        }
    } else if buf[pos] == ARRAY {
        match decimal_at(buf, pos + 1) {
            Err(e) => Err(e),
            Ok((count, next)) => if count > usize::MAX {
                Err(ErrorView::Other(msg_invalid_format()))
            } else if pos < next <= buf.len() {
                match parse_items_at(buf, next, count as nat) {
                    Err(e) => Err(e),
                    Ok((items, end)) => Ok((FrameView::Array(items), end)),
                }
            } else {
                Err(ErrorView::Incomplete)
            },
        }
    } else {
        Err(ErrorView::Other(msg_invalid_type(buf[pos])))
    }
}

/// The `count` frames that follow each other from `pos` on, and where the
/// last one ends.
pub open spec fn parse_items_at(buf: Seq<u8>, pos: int, count: nat) -> Result<
    (Seq<FrameView>, int),
    ErrorView,
>
    decreases buf.len() - pos, count + 1,
{
    if count == 0 {
        Ok((Seq::empty(), pos))
    } else {
        match parse_at(buf, pos) {
            Err(e) => Err(e),
            Ok((first, next)) => if pos < next <= buf.len() {
                match parse_items_at(buf, next, (count - 1) as nat) {
                    Err(e) => Err(e),
                    Ok((rest, end)) => Ok((seq![first] + rest, end)),
                }
            } else {
                Err(ErrorView::Incomplete)
            },
        }
    }
}

/// A read position in a borrowed run of bytes.
pub struct Cursor<'a> {
    /// The bytes; they are never changed.
    pub data: &'a [u8],
    /// How many of them have been read.
    pub pos: usize,
}

impl<'a> Cursor<'a> {
    /// A cursor at the start of `data`.
    pub fn new(data: &'a [u8]) -> (c: Cursor<'a>)
        ensures
            c.data == data,
            c.pos == 0,
    {
        Cursor { data, pos: 0 }
    }

    /// How many bytes have been read.
    pub fn position(&self) -> (pos: usize)
        ensures
            pos == self.pos,
    {
        self.pos
    }

    /// Moves the cursor to `pos`; the bytes stay as they are.
    pub fn set_position(&mut self, pos: usize)
        ensures
            final(self).pos == pos,
            final(self).data == old(self).data,
    {
        self.pos = pos;
    }

    /// The bytes that the cursor reads from.
    pub fn get_ref(&self) -> (data: &'a [u8])
        ensures
            data == self.data,
    {
        self.data
    }

    /// How many bytes are left to read; none when the position is past the end.
    pub fn remaining(&self) -> (n: usize)
        ensures
            n == if self.pos <= self.data@.len() { self.data@.len() - self.pos } else { 0 },
    {
        if self.pos <= self.data.len() {
            self.data.len() - self.pos
        } else {
            0
        }
    }
}

/// An error that carries `text`.
fn other(text: &str) -> (e: Error)
    ensures
        e@ == ErrorView::Other(text@),
{
    Error::Other(text.to_owned())
}

/// The error for a frame that starts with the unknown byte `b`.
fn invalid_type(b: u8) -> (e: Error)
    ensures
        e@ == ErrorView::Other(msg_invalid_type(b)),
{
    let mut digits: Vec<u8> = Vec::new();
    push_decimal(&mut digits, b as u64);
    proof {
        lemma_decimal_digits_are_digits(b as nat);
        lemma_digits_are_text(decimal_digits(b as nat));
        assert(digits@ =~= decimal_digits(b as nat));
    }
    let mut text = String::from_str("protocol error;invalid frame type byte `");
    match decode_text(digits.as_slice()) {
        Some(number) => text.append(number.as_str()),
        None => {},
    }
    text.append("`");
    Error::Other(text)
}

/// The next byte, which stays unread.
pub fn peek_u8(src: &Cursor<'_>) -> (r: Result<u8, Error>)
    ensures
        match r {
            Ok(b) => src.pos < src.data@.len() && b == src.data@[src.pos as int],
            Err(e) => src.pos >= src.data@.len() && e@ == ErrorView::Incomplete,
        },
{
    if src.pos >= src.data.len() {
        return Err(Error::Incomplete);
    }
    Ok(src.data[src.pos])
}

/// Reads the next byte.
pub fn get_u8(src: &mut Cursor<'_>) -> (r: Result<u8, Error>)
    ensures
        final(src).data == old(src).data,
        match r {
            Ok(b) => old(src).pos < old(src).data@.len() && b == old(src).data@[old(src).pos as int]
                && final(src).pos == old(src).pos + 1,
            Err(e) => old(src).pos >= old(src).data@.len() && e@ == ErrorView::Incomplete
                && final(src).pos == old(src).pos,
        },
{
    if src.pos >= src.data.len() {
        return Err(Error::Incomplete);
    }
    let b = src.data[src.pos];
    src.pos = src.pos + 1;
    Ok(b)
}

/// Passes over the next `n` bytes, if there are that many.
pub fn skip(src: &mut Cursor<'_>, n: usize) -> (r: Result<(), Error>)
    ensures
        final(src).data == old(src).data,
        match r {
            Ok(_) => old(src).pos + n <= old(src).data@.len() && final(src).pos == old(src).pos + n,
            Err(e) => old(src).pos + n > old(src).data@.len() && e@ == ErrorView::Incomplete
                && final(src).pos == old(src).pos,
        },
{
    if src.remaining() < n {
        return Err(Error::Incomplete);
    }
    if src.pos > src.data.len() {
        // nothing remains, so `n` is zero: an empty step from past the end
        return Err(Error::Incomplete);
    }
    src.pos = src.pos + n;
    Ok(())
}

/// No line ends before `upto` when none ends at the positions before it.
proof fn lemma_line_end_skips(buf: Seq<u8>, pos: int, upto: int)
    requires
        0 <= pos <= upto,
        forall|j: int| pos <= j < upto ==> !crlf_at(buf, j),
    ensures
        line_end(buf, pos) == line_end(buf, upto),
    decreases upto - pos,
{
    if pos < upto {
        lemma_line_end_skips(buf, pos + 1, upto);
        if pos + 1 >= buf.len() {
            assert(line_end(buf, upto) is None);
        }
    }
}

/// Reads up to the end of the line and passes over the line break.
pub fn get_line<'a>(src: &mut Cursor<'a>) -> (r: Result<&'a [u8], Error>)
    ensures
        final(src).data == old(src).data,
        match r {
            Ok(line) => line_end(old(src).data@, old(src).pos as int) matches Some(end)
                && line@ == old(src).data@.subrange(old(src).pos as int, end)
                && final(src).pos == end + 2 && old(src).pos <= end
                && end + 2 <= old(src).data@.len(),
            Err(e) => line_end(old(src).data@, old(src).pos as int) is None
                && e@ == ErrorView::Incomplete && final(src).pos == old(src).pos,
        },
{
    let data = src.data;
    let start = src.pos;
    if data.len() == 0 || start >= data.len() - 1 {
        return Err(Error::Incomplete);
    }
    let last = data.len() - 1;
    let mut i = start;
    while i < last
        invariant
            start <= i <= last,
            last == data@.len() - 1,
            src.data == data,
            src.pos == start,
            old(src).data == data,
            old(src).pos == start,
            forall|j: int| start <= j < i ==> !crlf_at(data@, j),
        decreases last - i,
    {
        if data[i] == CR && data[i + 1] == LF {
            proof {
                lemma_line_end_skips(data@, start as int, i as int);
            }
            src.pos = i + 2;
            return Ok(vstd::slice::slice_subrange(data, start, i));
        }
        i += 1;
    }
    proof {
        lemma_line_end_skips(data@, start as int, i as int);
    }
    Err(Error::Incomplete)
}

/// Reads a line and the decimal number on it.
pub fn get_decimal(src: &mut Cursor<'_>) -> (r: Result<u64, Error>)
    ensures
        final(src).data == old(src).data,
        match r {
            Ok(n) => decimal_at(old(src).data@, old(src).pos as int) == Ok::<(u64, int), ErrorView>(
                (n, final(src).pos as int),
            ) && old(src).pos + 2 <= final(src).pos <= old(src).data@.len(),
            Err(e) => decimal_at(old(src).data@, old(src).pos as int) == Err::<
                (u64, int),
                ErrorView,
            >(e@) && final(src).pos == old(src).pos,
        },
{
    let start = src.pos;
    let line = get_line(src)?;
    match atoi(line) {
        Some(n) => Ok(n),
        None => {
            src.pos = start;
            Err(other("protocol error; invalid decimal number"))
        },
    }
}

/// Reads the marker of a null frame, which starts at the cursor, and passes
/// over it. On any failure the cursor stays where it was.
pub fn get_null(src: &mut Cursor<'_>) -> (r: Result<(), Error>)
    ensures
        final(src).data == old(src).data,
        match r {
            Ok(_) => null_at(old(src).data@, old(src).pos as int) == Ok::<int, ErrorView>(
                final(src).pos as int,
            ) && old(src).pos + 4 == final(src).pos <= old(src).data@.len(),
            Err(e) => null_at(old(src).data@, old(src).pos as int) == Err::<int, ErrorView>(e@)
                && final(src).pos == old(src).pos,
        },
{
    let start = src.pos;
    let line = get_line(src)?;
    if line.len() == 2 && line[0] == MINUS && line[1] == 49u8 {
        assert(line@ =~= seq![MINUS, 49u8]);
        return Ok(());
    }
    assert(line@ != seq![MINUS, 49u8]) by {
        if line@ == seq![MINUS, 49u8] {
            assert(line@.len() == 2 && line@[0] == MINUS && line@[1] == 49);
        }
    }
    src.pos = start;
    match decode_text(line) {
        None => Err(other("protocol error; invalid frame format")),
        Some(text) => {
            let mut msg = String::from_str("protocol error;invalid bulk frame `");
            msg.append(text.as_str());
            msg.append("`");
            Err(Error::Other(msg))
        },
    }
}

/// What has been read so far, put in front of what reading the rest gives.
pub open spec fn after_items(
    done: Seq<FrameView>,
    rest: Result<(Seq<FrameView>, int), ErrorView>,
) -> Result<(Seq<FrameView>, int), ErrorView> {
    match rest {
        Ok((items, end)) => Ok((done + items, end)),
        Err(e) => Err(e),
    }
}

impl Frame {
    /// An array frame without elements.
    pub fn array() -> (frame: Frame)
        ensures
            frame@ == FrameView::Array(Seq::empty()),
    {
        Frame::Array(Vec::new())
    }

    /// Appends a bulk frame that holds `bytes` to this array frame.
    pub fn push_bulk(&mut self, bytes: Bytes)
        requires
            *old(self) is Array,
        ensures
            final(self)@ == FrameView::Array(
                old(self)@->Array_0.push(FrameView::Bulk(bytes_seq(bytes))),
            ),
    {
        match self {
            Frame::Array(items) => {
                let ghost before = items@;
                items.push(Frame::Bulk(bytes));
                assert(items@.drop_last() =~= before);
                assert(views_of(items@) == views_of(before).push(items@.last()@));
            },
            _ => {},
        }
    }

    /// Appends an integer frame that holds `value` to this array frame.
    pub fn push_int(&mut self, value: u64)
        requires
            *old(self) is Array,
        ensures
            final(self)@ == FrameView::Array(old(self)@->Array_0.push(FrameView::Integer(value))),
    {
        match self {
            Frame::Array(items) => {
                let ghost before = items@;
                items.push(Frame::Integer(value));
                assert(items@.drop_last() =~= before);
                assert(views_of(items@) == views_of(before).push(items@.last()@));
            },
            _ => {},
        }
    }

    /// A second frame that holds the same.
    pub fn duplicate(&self) -> (copy: Frame)
        ensures
            copy@ == self@,
        decreases self,
    {
        match self {
            Frame::Simple(text) => Frame::Simple(text.clone()),
            Frame::Error(text) => Frame::Error(text.clone()),
            Frame::Integer(value) => Frame::Integer(*value),
            Frame::Bulk(data) => Frame::Bulk(data.clone()),
            Frame::Null => Frame::Null,
            Frame::Array(parts) => {
                let mut copies: Vec<Frame> = Vec::new();
                let mut i: usize = 0;
                while i < parts.len()
                    invariant
                        i <= parts@.len(),
                        self == Frame::Array(*parts),
                        copies@.len() == i,
                        forall|j: int| 0 <= j < i ==> copies@[j]@ == parts@[j]@,
                    decreases parts@.len() - i,
                {
                    proof {
                        assert(self->Array_0 == *parts);
                        assert(decreases_to!(self => self->Array_0));
                        assert(decreases_to!(*parts => parts[i as int]));
                    }
                    copies.push(parts[i].duplicate());
                    i += 1;
                }
                proof {
                    lemma_views_len(parts@);
                    lemma_views_len(copies@);
                    assert forall|j: int| 0 <= j < parts@.len() implies views_of(copies@)[j]
                        == views_of(parts@)[j] by {
                        lemma_views_index(parts@, j);
                        lemma_views_index(copies@, j);
                    }
                    assert(views_of(copies@) =~= views_of(parts@));
                }
                Frame::Array(copies)
            },
        }
    }

    /// The frame as text for a reader.
    pub fn to_string(&self) -> (text: String)
        ensures
            text@ == shown(self@),
        decreases self,
    {
        match self {
            Frame::Simple(response) => response.clone(),
            Frame::Error(msg) => {
                let mut text = String::from_str("error:");
                text.append(msg.as_str());
                text
            },
            Frame::Integer(num) => {
                let mut digits: Vec<u8> = Vec::new();
                push_decimal(&mut digits, *num);
                proof {
                    lemma_decimal_digits_are_digits(*num as nat);
                    lemma_digits_are_text(decimal_digits(*num as nat));
                    assert(digits@ =~= decimal_digits(*num as nat));
                }
                match decode_text(digits.as_slice()) {
                    Some(text) => text,
                    None => String::new(),
                }
            },
            Frame::Bulk(msg) => match decode_text(bytes_as_slice(msg)) {
                Some(text) => text,
                None => bytes_hex_debug(msg),
            },
            Frame::Null => String::from_str("(nil)"),
            Frame::Array(parts) => {
                let mut text = String::new();
                let mut i: usize = 1;
                if parts.len() == 0 {
                    proof {
                        lemma_views_len(parts@);
                    }
                    return text;
                }
                proof {
                    lemma_views_len(parts@);
                    assert(views_of(parts@).drop_first().take(0) =~= Seq::<FrameView>::empty());
                }
                while i < parts.len()
                    invariant
                        1 <= i <= parts@.len(),
                        self == Frame::Array(*parts),
                        views_of(parts@).len() == parts@.len(),
                        text@ == shown_all(views_of(parts@).drop_first().take(i - 1)),
                    decreases parts@.len() - i,
                {
                    proof {
                        assert(self->Array_0 == *parts);
                        assert(decreases_to!(self => self->Array_0));
                        assert(decreases_to!(*parts => parts[i as int]));
                    }
                    let part = parts[i].to_string();
                    text.append(" ");
                    text.append(part.as_str());
                    proof {
                        let rest = views_of(parts@).drop_first();
                        lemma_views_index(parts@, i as int);
                        assert(rest.take(i as int).drop_last() =~= rest.take(i - 1));
                        assert(rest.take(i as int).last() == parts@[i as int]@);
                    }
                    i += 1;
                }
                proof {
                    let rest = views_of(parts@).drop_first();
                    assert(rest.take(i - 1) =~= rest);
                }
                text
            },
        }
    }

    /// The error for this frame where another was expected.
    pub fn to_error(&self) -> (text: String)
        ensures
            text@ == msg_unexpected(self@),
    {
        let mut text = String::from_str("unexpected frame:");
        text.append(self.to_string().as_str());
        text
    }

    /// Whether this frame holds the text `other`: as a simple frame, or as
    /// a bulk frame that holds the bytes of the text.
    pub fn eq_str(&self, other: &str) -> (r: bool)
        ensures
            r == match self@ {
                FrameView::Simple(text) => text == other@,
                FrameView::Bulk(data) => data == encode_utf8(other@),
                _ => false,
            },
    {
        match self {
            Frame::Simple(s) => same_text(s.as_str(), other),
            Frame::Bulk(s) => same_bytes(bytes_as_slice(s), other.as_bytes()),
            _ => false,
        }
    }

    /// Whether two frames hold the same.
    pub fn same(&self, other: &Frame) -> (r: bool)
        ensures
            r == (self@ == other@),
        decreases self,
    {
        match (self, other) {
            (Frame::Simple(a), Frame::Simple(b)) => same_text(a.as_str(), b.as_str()),
            (Frame::Error(a), Frame::Error(b)) => same_text(a.as_str(), b.as_str()),
            (Frame::Integer(a), Frame::Integer(b)) => *a == *b,
            (Frame::Bulk(a), Frame::Bulk(b)) => same_bytes(bytes_as_slice(a), bytes_as_slice(b)),
            (Frame::Null, Frame::Null) => true,
            (Frame::Array(a), Frame::Array(b)) => {
                proof {
                    lemma_views_len(a@);
                    lemma_views_len(b@);
                }
                if a.len() != b.len() {
                    return false;
                }
                let mut i: usize = 0;
                while i < a.len()
                    invariant
                        i <= a@.len(),
                        a@.len() == b@.len(),
                        self == Frame::Array(*a),
                        other == Frame::Array(*b),
                        forall|j: int| 0 <= j < i ==> a@[j]@ == b@[j]@,
                    decreases a@.len() - i,
                {
                    proof {
                        assert(self->Array_0 == *a);
                        assert(decreases_to!(self => self->Array_0));
                        assert(decreases_to!(*a => a[i as int]));
                    }
                    if !a[i].same(&b[i]) {
                        proof {
                            lemma_views_index(a@, i as int);
                            lemma_views_index(b@, i as int);
                        }
                        return false;
                    }
                    i += 1;
                }
                proof {
                    assert forall|j: int| 0 <= j < a@.len() implies views_of(a@)[j] == views_of(
                        b@,
                    )[j] by {
                        lemma_views_index(a@, j);
                        lemma_views_index(b@, j);
                    }
                    assert(views_of(a@) =~= views_of(b@));
                }
                true
            },
            _ => false,
        }
    }

    /// Finds out whether a whole frame is buffered at the cursor, and passes
    /// over it if so. On any failure the cursor stays where it was.
    pub fn check(src: &mut Cursor<'_>) -> (r: Result<(), Error>)
        ensures
            final(src).data == old(src).data,
            match r {
                Ok(_) => check_at(old(src).data@, old(src).pos as int) == Ok::<int, ErrorView>(
                    final(src).pos as int,
                ) && old(src).pos < final(src).pos <= old(src).data@.len(),
                Err(e) => check_at(old(src).data@, old(src).pos as int) == Err::<int, ErrorView>(e@)
                    && final(src).pos == old(src).pos,
            },
        decreases old(src).data@.len() - old(src).pos,
    {
        let mut cur = Cursor { data: src.data, pos: src.pos };
        let first = get_u8(&mut cur)?;
        if first == SIMPLE || first == MINUS {
            get_line(&mut cur)?;
        } else if first == INTEGER {
            get_decimal(&mut cur)?;
        } else if first == BULK {
            if MINUS == peek_u8(&cur)? {
                get_null(&mut cur)?;
            } else {
                let len = get_decimal(&mut cur)?;
                if len > usize::MAX as u64 {
                    return Err(other("protocol error; invalid frame format"));
                }
                if len > (usize::MAX - 2) as u64 {
                    assert(cur.data.len() <= usize::MAX);
                    return Err(Error::Incomplete);
                }
                skip(&mut cur, len as usize + 2)?;
            }
        } else if first == ARRAY {
            let count = get_decimal(&mut cur)?;
            let ghost start = cur.pos as int;
            let mut i: u64 = 0;
            while i < count
                invariant
                    i <= count,
                    cur.data == old(src).data,
                    src.data == old(src).data,
                    src.pos == old(src).pos,
                    old(src).pos < cur.pos <= old(src).data@.len(),
                    check_items_at(old(src).data@, cur.pos as int, (count - i) as nat)
                        == check_items_at(old(src).data@, start, count as nat),
                    check_at(old(src).data@, old(src).pos as int) == check_items_at(
                        old(src).data@,
                        start,
                        count as nat,
                    ),
                decreases count - i,
            {
                Frame::check(&mut cur)?;
                i += 1;
            }
        } else {
            return Err(invalid_type(first));
        }
        src.pos = cur.pos;
        Ok(())
    }

    /// Builds the frame that is buffered at the cursor, and passes over it.
    /// On any failure the cursor stays where it was.
    pub fn parse(src: &mut Cursor<'_>) -> (r: Result<Frame, Error>)
        ensures
            final(src).data == old(src).data,
            match r {
                Ok(frame) => parse_at(old(src).data@, old(src).pos as int) == Ok::<
                    (FrameView, int),
                    ErrorView,
                >((frame@, final(src).pos as int)) && old(src).pos < final(src).pos
                    <= old(src).data@.len(),
                Err(e) => parse_at(old(src).data@, old(src).pos as int) == Err::<
                    (FrameView, int),
                    ErrorView,
                >(e@) && final(src).pos == old(src).pos,
            },
        decreases old(src).data@.len() - old(src).pos,
    {
        let mut cur = Cursor { data: src.data, pos: src.pos };
        let first = get_u8(&mut cur)?;
        let frame = if first == SIMPLE || first == MINUS {
            let line = get_line(&mut cur)?;
            match decode_text(line) {
                None => {
                    return Err(other("protocol error; invalid frame format"));
                },
                Some(text) => if first == SIMPLE {
                    Frame::Simple(text)
                } else {
                    Frame::Error(text)
                },
            }
        } else if first == INTEGER {
            Frame::Integer(get_decimal(&mut cur)?)
        } else if first == BULK {
            if MINUS == peek_u8(&cur)? {
                get_null(&mut cur)?;
                Frame::Null
            } else {
                let len = get_decimal(&mut cur)?;
                if len > usize::MAX as u64 {
                    return Err(other("protocol error; invalid frame format"));
                }
                if len > (usize::MAX - 2) as u64 {
                    assert(cur.data.len() <= usize::MAX);
                    return Err(Error::Incomplete);
                }
                let len = len as usize;
                if cur.remaining() < len + 2 {
                    return Err(Error::Incomplete);
                }
                assert(cur.pos + len + 2 <= cur.data.len() <= usize::MAX);
                let data = bytes_copy_from_slice(
                    vstd::slice::slice_subrange(cur.data, cur.pos, cur.pos + len),
                );
                skip(&mut cur, len + 2)?;
                Frame::Bulk(data)
            }
        } else if first == ARRAY {
            let count = get_decimal(&mut cur)?;
            if count > usize::MAX as u64 {
                return Err(other("protocol error; invalid frame format"));
            }
            let ghost start = cur.pos as int;
            let mut out: Vec<Frame> = Vec::new();
            let mut i: u64 = 0;
            while i < count
                invariant
                    i <= count,
                    cur.data == old(src).data,
                    src.data == old(src).data,
                    src.pos == old(src).pos,
                    old(src).pos < cur.pos <= old(src).data@.len(),
                    after_items(
                        views_of(out@),
                        parse_items_at(old(src).data@, cur.pos as int, (count - i) as nat),
                    ) == parse_items_at(old(src).data@, start, count as nat),
                    parse_at(old(src).data@, old(src).pos as int) == match parse_items_at(
                        old(src).data@,
                        start,
                        count as nat,
                    ) {
                        Err(e) => Err(e),
                        Ok((items, end)) => Ok((FrameView::Array(items), end)),
                    },
                decreases count - i,
            {
                let ghost before = out@;
                let ghost at = cur.pos as int;
                let item = Frame::parse(&mut cur)?;
                out.push(item);
                i += 1;
                proof {
                    assert(out@.drop_last() =~= before);
                    let rest = parse_items_at(old(src).data@, cur.pos as int, (count - i) as nat);
                    match rest {
                        Ok((items, end)) => {
                            assert(views_of(before) + (seq![item@] + items) =~= views_of(out@)
                                + items);
                        },
                        Err(_) => {},
                    }
                }
            }
            proof {
                assert(views_of(out@) + Seq::<FrameView>::empty() =~= views_of(out@));
            }
            Frame::Array(out)
        } else {
            return Err(invalid_type(first));
        };
        src.pos = cur.pos;
        Ok(frame)
    }
}

/// As many views as frames.
pub proof fn lemma_views_len(items: Seq<Frame>)
    ensures
        views_of(items).len() == items.len(),
    decreases items.len(),
{
    if items.len() > 0 {
        lemma_views_len(items.drop_last());
        assert(views_of(items) == views_of(items.drop_last()).push(items.last()@));
    }
}

/// The view of the frame at `i` stands at `i`.
pub proof fn lemma_views_index(items: Seq<Frame>, i: int)
    requires
        0 <= i < items.len(),
    ensures
        views_of(items).len() == items.len(),
        views_of(items)[i] == items[i]@,
    decreases items.len(),
{
    lemma_views_len(items);
    lemma_views_len(items.drop_last());
    assert(views_of(items) == views_of(items.drop_last()).push(items.last()@));
    if i < items.len() - 1 {
        lemma_views_index(items.drop_last(), i);
    }
}

/// The encodings of a run of frames with one more frame at its end.
pub proof fn lemma_encode_all_push(items: Seq<FrameView>, last: FrameView)
    ensures
        encode_all(items.push(last)) == encode_all(items) + encode(last),
    decreases items.len(),
{
    if items.len() == 0 {
        let one = items.push(last);
        assert(one.drop_first() =~= Seq::<FrameView>::empty());
        assert(one[0] == last);
        assert(encode_all(one) == encode(one[0]) + encode_all(one.drop_first()));
        assert(encode_all(one.drop_first()) =~= Seq::<u8>::empty());
        assert(encode_all(items) =~= Seq::<u8>::empty());
        assert(encode_all(items.push(last)) =~= encode_all(items) + encode(last));
    } else {
        lemma_encode_all_push(items.drop_first(), last);
        let longer = items.push(last);
        assert(longer.drop_first() =~= items.drop_first().push(last));
        assert(longer[0] == items[0]);
        assert(encode_all(longer) == encode(longer[0]) + encode_all(longer.drop_first()));
        assert(encode_all(items) == encode(items[0]) + encode_all(items.drop_first()));
        assert(encode_all(items.push(last)) =~= encode_all(items) + encode(last));
    }
}

} // verus!
