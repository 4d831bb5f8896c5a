//! The two buffers of a connection: bytes that came in and are not yet read
//! as frames, and bytes of frames written and not yet sent.
//!
//! Nothing here touches a socket. The caller appends what it received with
//! [`Connection::receive`], takes whole frames out with
//! [`Connection::parse_frame`], writes answers with
//! [`Connection::write_frame`] and sends what [`Connection::flush`] hands out.

use vstd::prelude::*;
use bytes::BytesMut;
use crate::buf::{
    bytes_as_slice, bytes_mut_advance, bytes_mut_as_slice, bytes_mut_extend_from_slice,
    bytes_mut_seq, bytes_mut_with_capacity,
};
use crate::frame::{
    check_at, crlf, encode, encode_all, lemma_encode_all_push, lemma_views_len, parse_at,
    views_of, Cursor, Error, ErrorView, Frame,
    FrameView, ARRAY, BULK, CR, INTEGER, LF, MINUS, SIMPLE,
};
use crate::number::{decimal_digits, push_decimal};

verus! {

/// The text of the error for a stream that ends in the middle of a frame.
pub open spec fn msg_reset() -> Seq<char> {
    "connection reset by peer"@
}

/// What taking one frame from the front of `buf` gives: the frame and how
/// many bytes it took, nothing when more bytes are needed, or the reason why
/// the bytes are no frame.
pub open spec fn next_frame(buf: Seq<u8>) -> Result<Option<(FrameView, int)>, Seq<char>> {
    match check_at(buf, 0) {
        Ok(end) => match parse_at(buf, 0) {
            Ok((frame, _)) => Ok(Some((frame, end))),
            Err(e) => Err(e.message()),
        },
        Err(ErrorView::Incomplete) => Ok(None),
        Err(e) => Err(e.message()),
    }
}

/// The buffers of one connection.
pub struct Connection {
    buffer: BytesMut,
    output: Vec<u8>,
}

impl Connection {
    /// The bytes received and not yet read as frames.
    pub closed spec fn buffered(&self) -> Seq<u8> {
        bytes_mut_seq(self.buffer)
    }

    /// The bytes written and not yet handed out for sending.
    pub closed spec fn pending(&self) -> Seq<u8> {
        self.output@
    }

    /// A connection with both buffers empty.
    pub fn new() -> (c: Connection)
        ensures
            c.buffered() == Seq::<u8>::empty(),
            c.pending() == Seq::<u8>::empty(),
    {
        Connection { buffer: bytes_mut_with_capacity(4096), output: Vec::new() }
    }

    /// Takes in what one read from the stream brought.
    ///
    /// An empty `data` means that the stream has ended: that is a clean end
    /// when nothing is buffered, and an error in the middle of a frame.
    /// Answers whether the stream goes on.
    pub fn receive(&mut self, data: &[u8]) -> (r: Result<bool, String>)
        ensures
            final(self).pending() == old(self).pending(),
            final(self).buffered() == old(self).buffered() + data@,
            data@.len() > 0 ==> r == Ok::<bool, String>(true),
            data@.len() == 0 && old(self).buffered().len() == 0 ==> r == Ok::<bool, String>(false),
            data@.len() == 0 && old(self).buffered().len() > 0 ==> (r matches Err(e) && e@
                == msg_reset()),
    {
        if data.len() > 0 {
            bytes_mut_extend_from_slice(&mut self.buffer, data);
            return Ok(true);
        }
        assert(self.buffered() + data@ =~= self.buffered());
        if bytes_mut_as_slice(&self.buffer).len() == 0 {
            Ok(false)
        } else {
            Err("connection reset by peer".to_owned())
        }
    }

    /// Takes one whole frame from the front of the read buffer, if one is there.
    ///
    /// The bytes of a frame that was handed out are dropped from the buffer;
    /// in every other case the buffer stays as it is.
    pub fn parse_frame(&mut self) -> (r: Result<Option<Frame>, String>)
        ensures
            final(self).pending() == old(self).pending(),
            match next_frame(old(self).buffered()) {
                Ok(Some((frame, taken))) => r matches Ok(Some(f)) && f@ == frame
                    && final(self).buffered() == old(self).buffered().skip(taken),
                Ok(None) => r matches Ok(None) && final(self).buffered() == old(self).buffered(),
                Err(text) => r matches Err(e) && e@ == text && final(self).buffered() == old(
                    self,
                ).buffered(),
            },
    {
        let mut cur = Cursor::new(bytes_mut_as_slice(&self.buffer));
        match Frame::check(&mut cur) {
            Ok(_) => {
                let len = cur.position();
                cur.set_position(0);
                match Frame::parse(&mut cur) {
                    Ok(frame) => {
                        bytes_mut_advance(&mut self.buffer, len);
                        Ok(Some(frame))
                    },
                    Err(e) => Err(e.message()),
                }
            },
            Err(Error::Incomplete) => Ok(None),
            Err(e) => Err(e.message()),
        }
    }

    /// Writes `val` in decimal and a line break to the output buffer.
    pub fn write_decimal(&mut self, val: u64)
        ensures
            final(self).buffered() == old(self).buffered(),
            final(self).pending() == old(self).pending() + decimal_digits(val as nat) + crlf(),
    {
        push_decimal(&mut self.output, val);
        self.output.push(CR);
        self.output.push(LF);
        assert(self.output@ =~= old(self).output@ + decimal_digits(val as nat) + crlf());
    }

    /// Appends `bytes` to the output buffer.
    fn write_all(&mut self, bytes: &[u8])
        ensures
            final(self).buffered() == old(self).buffered(),
            final(self).pending() == old(self).pending() + bytes@,
    {
        self.output.extend_from_slice(bytes);
    }

    /// Writes a frame that is not an array to the output buffer.
    pub fn write_value(&mut self, frame: &Frame)
        requires
            !(frame is Array),
        ensures
            final(self).buffered() == old(self).buffered(),
            final(self).pending() == old(self).pending() + encode(frame@),
    {
        match frame {
            Frame::Simple(val) => {
                self.output.push(SIMPLE);
                self.write_all(val.as_str().as_bytes());
                self.output.push(CR);
                self.output.push(LF);
                assert(self.output@ =~= old(self).output@ + encode(frame@));
            },
            Frame::Error(val) => {
                self.output.push(MINUS);
                self.write_all(val.as_str().as_bytes());
                self.output.push(CR);
                self.output.push(LF);
                assert(self.output@ =~= old(self).output@ + encode(frame@));
            },
            Frame::Integer(val) => {
                self.output.push(INTEGER);
                self.write_decimal(*val);
                assert(self.output@ =~= old(self).output@ + encode(frame@));
            },
            Frame::Bulk(val) => {
                let data = bytes_as_slice(val);
                self.output.push(BULK);
                self.write_decimal(data.len() as u64);
                self.write_all(data);
                self.output.push(CR);
                self.output.push(LF);
                assert(self.output@ =~= old(self).output@ + encode(frame@));
            },
            Frame::Null => {
                self.output.push(BULK);
                self.output.push(MINUS);
                self.output.push(49u8);
                self.output.push(CR);
                self.output.push(LF);
                assert(self.output@ =~= old(self).output@ + encode(frame@));
            },
            Frame::Array(_) => {},
        }
    }

    /// Writes a frame to the output buffer, an array with all its elements.
    pub fn write_frame(&mut self, frame: &Frame)
        ensures
            final(self).buffered() == old(self).buffered(),
            final(self).pending() == old(self).pending() + encode(frame@),
        decreases frame,
    {
        match frame {
            Frame::Array(val) => {
                self.output.push(ARRAY);
                self.write_decimal(val.len() as u64);
                let ghost head = self.output@;
                let mut i: usize = 0;
                while i < val.len()
                    invariant
                        i <= val.len(),
                        frame == Frame::Array(*val),
                        self.buffered() == old(self).buffered(),
                        self.output@ == head + encode_all(views_of(val@.take(i as int))),
                    decreases val.len() - i,
                {
                    proof {
                        assert(frame->Array_0 == *val);
                        assert(decreases_to!(frame => frame->Array_0));
                        assert(decreases_to!(*val => val[i as int]));
                        assert(decreases_to!(frame => val[i as int]));
                    }
                    self.write_frame(&val[i]);
                    proof {
                        assert(val@.take(i + 1).drop_last() =~= val@.take(i as int));
                        lemma_encode_all_push(views_of(val@.take(i as int)), val[i as int]@);
                    }
                    i += 1;
                }
                proof {
                    assert(val@.take(val@.len() as int) =~= val@);
                    assert(views_of(val@).len() == val@.len()) by {
                        lemma_views_len(val@);
                    }
                    assert(self.output@ =~= old(self).output@ + encode(frame@));
                }
            },
            _ => self.write_value(frame),
        }
    }

    /// Hands out the bytes written since the last call, for the caller to
    /// send as one piece, and leaves the output buffer empty.
    pub fn flush(&mut self) -> (out: Vec<u8>)
        ensures
            final(self).buffered() == old(self).buffered(),
            final(self).pending() == Seq::<u8>::empty(),
            out@ == old(self).pending(),
    {
        let mut out: Vec<u8> = Vec::new();
        std::mem::swap(&mut out, &mut self.output);
        out
    }
}

} // verus!
