//! What holds between writing and reading frames.
//!
//! A frame that was written reads back as itself, wherever its bytes stand
//! in a buffer; and a buffer that ends in the middle of a frame reads as
//! incomplete, whatever the frame.

use vstd::prelude::*;
use vstd::utf8::{encode_utf8, encode_utf8_decode_utf8, encode_utf8_valid_utf8};
use crate::connection::next_frame;
use crate::frame::{
    check_at, check_items_at, crlf, crlf_at, decimal_at, encode, encode_all, line_end, null_at,
    parse_at, parse_items_at, ErrorView, FrameView, ARRAY, BULK, INTEGER, MINUS, SIMPLE,
};
use crate::number::{
    decimal_digits, is_digit, lemma_atoi_of_decimal_digits, lemma_decimal_digits_are_digits,
};

verus! {

/// Whether `bytes` hold no line break.
pub open spec fn line_free(bytes: Seq<u8>) -> bool {
    forall|i: int| !crlf_at(bytes, i)
}

/// Whether `frame` can be told apart from its surroundings once written.
///
/// The text of a simple or error frame is written bare and ends at the first
/// line break, so the text itself must hold none. A bulk or an array must be
/// short enough for its length to be held in memory.
pub open spec fn readable(frame: FrameView) -> bool
    decreases frame,
{
    match frame {
        FrameView::Simple(text) => line_free(encode_utf8(text)),
        FrameView::Error(text) => line_free(encode_utf8(text)),
        FrameView::Integer(_) => true,
        FrameView::Bulk(data) => data.len() <= usize::MAX,
        FrameView::Null => true,
        FrameView::Array(items) => items.len() <= usize::MAX && all_readable(items),
    }
}

/// Whether every frame of `items` is [`readable`].
pub open spec fn all_readable(items: Seq<FrameView>) -> bool
    decreases items,
{
    items.len() == 0 || (readable(items[0]) && all_readable(items.drop_first()))
}

/// Whether `part` stands in `buf` from `pos` on.
pub open spec fn stands_at(buf: Seq<u8>, pos: int, part: Seq<u8>) -> bool {
    0 <= pos && pos + part.len() <= buf.len() && buf.subrange(pos, pos + part.len()) == part
}

/// A line ends where the first line break stands.
pub proof fn lemma_line_end_found(buf: Seq<u8>, pos: int, end: int)
    requires
        0 <= pos <= end,
        crlf_at(buf, end),
        forall|j: int| pos <= j < end ==> !crlf_at(buf, j),
    ensures
        line_end(buf, pos) == Some(end),
    decreases end - pos,
{
    if pos < end {
        lemma_line_end_found(buf, pos + 1, end);
    }
}

/// Where a line ends, a line break stands, and none before it.
pub proof fn lemma_line_end_is_first(buf: Seq<u8>, pos: int)
    ensures
        line_end(buf, pos) matches Some(end) ==> pos <= end && crlf_at(buf, end) && forall|j: int|
            pos <= j < end ==> !crlf_at(buf, j),
        line_end(buf, pos) is None && 0 <= pos ==> forall|j: int| pos <= j ==> !crlf_at(buf, j),
    decreases buf.len() - pos,
{
    if pos < 0 || pos + 1 >= buf.len() {
    } else if crlf_at(buf, pos) {
    } else {
        lemma_line_end_is_first(buf, pos + 1);
    }
}

/// A line of `text` that stands at `pos` with a line break behind it ends
/// right behind the text, if the text holds no line feed behind a carriage
/// return.
proof fn lemma_line_of(buf: Seq<u8>, pos: int, text: Seq<u8>)
    requires
        stands_at(buf, pos, text + crlf()),
        line_free(text),
    ensures
        line_end(buf, pos) == Some(pos + text.len()),
        buf.subrange(pos, pos + text.len()) == text,
{
    let whole = text + crlf();
    let end = pos + text.len();
    assert forall|j: int| pos <= j < pos + whole.len() implies buf[j] == whole[j - pos] by {
        assert(buf.subrange(pos, pos + whole.len() as int)[j - pos] == buf[j]);
    }
    assert(buf[end] == whole[text.len() as int]);
    assert(buf[end + 1] == whole[text.len() as int + 1]);
    assert(crlf_at(buf, end));
    assert forall|j: int| pos <= j < end implies !crlf_at(buf, j) by {
        assert(buf[j] == whole[j - pos]);
        assert(buf[j + 1] == whole[j + 1 - pos]);
        if j + 1 < end {
            assert(!crlf_at(text, j - pos));
        }
    }
    lemma_line_end_found(buf, pos, end);
    assert(buf.subrange(pos, end) =~= text);
}

/// Digits hold no line break.
proof fn lemma_digits_line_free(digits: Seq<u8>)
    requires
        forall|i: int| 0 <= i < digits.len() ==> is_digit(#[trigger] digits[i]),
    ensures
        line_free(digits),
{
    assert forall|i: int| !crlf_at(digits, i) by {
        if 0 <= i && i + 1 < digits.len() {
            assert(is_digit(digits[i]));
        }
    }
}

/// The number `n`, written in decimal with a line break behind it at `pos`,
/// reads as `n`.
proof fn lemma_decimal_of(buf: Seq<u8>, pos: int, n: u64)
    requires
        stands_at(buf, pos, decimal_digits(n as nat) + crlf()),
    ensures
        decimal_at(buf, pos) == Ok::<(u64, int), ErrorView>(
            (n, pos + decimal_digits(n as nat).len() + 2),
        ),
{
    let digits = decimal_digits(n as nat);
    lemma_decimal_digits_are_digits(n as nat);
    lemma_digits_line_free(digits);
    lemma_line_of(buf, pos, digits);
    lemma_atoi_of_decimal_digits(n);
}

/// Every frame is written as at least one byte.
pub proof fn lemma_encode_nonempty(frame: FrameView)
    ensures
        encode(frame).len() >= 1,
{
}

/// A part of a part stands in the whole.
proof fn lemma_stands_within(buf: Seq<u8>, pos: int, whole: Seq<u8>, from: int, part: Seq<u8>)
    requires
        stands_at(buf, pos, whole),
        stands_at(whole, from, part),
    ensures
        stands_at(buf, pos + from, part),
{
    let inner = buf.subrange(pos + from, pos + from + part.len() as int);
    assert(inner =~= part) by {
        assert forall|j: int| 0 <= j < part.len() implies #[trigger] inner[j] == part[j] by {
            assert(buf.subrange(pos, pos + whole.len() as int)[from + j] == buf[pos + from + j]);
            assert(whole.subrange(from, from + part.len() as int)[j] == whole[from + j]);
        }
    }
}

/// A frame that was written reads back as itself: wherever the bytes of a
/// readable frame stand in a buffer, both passes accept them, end where the
/// bytes end, and the second pass builds the frame that was written.
pub proof fn lemma_read_written(buf: Seq<u8>, pos: int, frame: FrameView)
    requires
        readable(frame),
        stands_at(buf, pos, encode(frame)),
    ensures
        parse_at(buf, pos) == Ok::<(FrameView, int), ErrorView>((frame, pos + encode(frame).len())),
        check_at(buf, pos) == Ok::<int, ErrorView>(pos + encode(frame).len()),
    decreases frame, 0nat,
{
    let enc = encode(frame);
    assert(buf[pos] == enc[0]) by {
        assert(buf.subrange(pos, pos + enc.len() as int)[0] == buf[pos]);
    }
    match frame {
        FrameView::Simple(text) => {
            let t = encode_utf8(text);
            assert(stands_at(enc, 1, t + crlf())) by {
                assert(enc.subrange(1, 1 + (t + crlf()).len() as int) =~= t + crlf());
            }
            lemma_stands_within(buf, pos, enc, 1, t + crlf());
            lemma_line_of(buf, pos + 1, t);
            encode_utf8_valid_utf8(text);
            encode_utf8_decode_utf8(text);
        },
        FrameView::Error(text) => {
            let t = encode_utf8(text);
            assert(stands_at(enc, 1, t + crlf())) by {
                assert(enc.subrange(1, 1 + (t + crlf()).len() as int) =~= t + crlf());
            }
            lemma_stands_within(buf, pos, enc, 1, t + crlf());
            lemma_line_of(buf, pos + 1, t);
            encode_utf8_valid_utf8(text);
            encode_utf8_decode_utf8(text);
        },
        FrameView::Integer(value) => {
            let d = decimal_digits(value as nat);
            assert(stands_at(enc, 1, d + crlf())) by {
                assert(enc.subrange(1, 1 + (d + crlf()).len() as int) =~= d + crlf());
            }
            lemma_stands_within(buf, pos, enc, 1, d + crlf());
            lemma_decimal_of(buf, pos + 1, value);
        },
        FrameView::Bulk(data) => {
            let n = data.len() as u64;
            let d = decimal_digits(n as nat);
            lemma_decimal_digits_are_digits(n as nat);
            assert(stands_at(enc, 1, d + crlf())) by {
                assert(enc.subrange(1, 1 + (d + crlf()).len() as int) =~= d + crlf());
            }
            lemma_stands_within(buf, pos, enc, 1, d + crlf());
            lemma_decimal_of(buf, pos + 1, n);
            assert(buf[pos + 1] == enc[1]) by {
                assert(buf.subrange(pos, pos + enc.len() as int)[1] == buf[pos + 1]);
            }
            assert(enc[1] == d[0]);
            assert(is_digit(d[0]));
            let next = pos + 1 + d.len() + 2;
            let off = 1 + d.len() as int + 2;
            assert(stands_at(enc, off, data)) by {
                assert(enc.subrange(off, off + data.len() as int) =~= data);
            }
            lemma_stands_within(buf, pos, enc, off, data);
            assert(enc.len() == 1 + d.len() + 2 + data.len() + 2);
        },
        FrameView::Null => {
            assert forall|j: int| 0 <= j < 5 implies buf[pos + j] == enc[j] by {
                assert(buf.subrange(pos, pos + enc.len() as int)[j] == buf[pos + j]);
            }
            assert(crlf_at(buf, pos + 3));
            assert(!crlf_at(buf, pos + 1));
            assert(!crlf_at(buf, pos + 2));
            lemma_line_end_found(buf, pos + 1, pos + 3);
            assert(buf.subrange(pos + 1, pos + 3) =~= seq![MINUS, 49u8]);
        },
        FrameView::Array(items) => {
            let n = items.len() as u64;
            let d = decimal_digits(n as nat);
            assert(stands_at(enc, 1, d + crlf())) by {
                assert(enc.subrange(1, 1 + (d + crlf()).len() as int) =~= d + crlf());
            }
            lemma_stands_within(buf, pos, enc, 1, d + crlf());
            lemma_decimal_of(buf, pos + 1, n);
            let all = encode_all(items);
            let off = 1 + d.len() as int + 2;
            assert(stands_at(enc, off, all)) by {
                assert(enc.subrange(off, off + all.len() as int) =~= all);
            }
            lemma_stands_within(buf, pos, enc, off, all);
            lemma_read_written_items(buf, pos + 1 + d.len() + 2, items);
            assert(enc.len() == 1 + d.len() + 2 + all.len());
        },
    }
}

/// Frames that were written one after the other read back as themselves, in
/// the same order.
pub proof fn lemma_read_written_items(buf: Seq<u8>, pos: int, items: Seq<FrameView>)
    requires
        all_readable(items),
        stands_at(buf, pos, encode_all(items)),
    ensures
        parse_items_at(buf, pos, items.len()) == Ok::<(Seq<FrameView>, int), ErrorView>(
            (items, pos + encode_all(items).len()),
        ),
        check_items_at(buf, pos, items.len()) == Ok::<int, ErrorView>(
            pos + encode_all(items).len(),
        ),
    decreases items, 1nat,
{
    if items.len() > 0 {
        let first = encode(items[0]);
        let rest = encode_all(items.drop_first());
        let all = encode_all(items);
        assert(all == first + rest);
        assert(stands_at(all, 0, first)) by {
            assert(all.subrange(0, first.len() as int) =~= first);
        }
        assert(stands_at(all, first.len() as int, rest)) by {
            assert(all.subrange(first.len() as int, first.len() as int + rest.len() as int) =~= rest);
        }
        lemma_stands_within(buf, pos, all, 0, first);
        lemma_stands_within(buf, pos, all, first.len() as int, rest);
        lemma_encode_nonempty(items[0]);
        lemma_read_written(buf, pos, items[0]);
        lemma_read_written_items(buf, pos + first.len(), items.drop_first());
        assert(seq![items[0]] + items.drop_first() =~= items);
        assert(items.drop_first().len() == (items.len() - 1) as nat);
    } else {
        assert(items =~= Seq::<FrameView>::empty());
    }
}

/// Reading what was written gives back what was written.
pub proof fn lemma_round_trip(frame: FrameView)
    requires
        readable(frame),
    ensures
        parse_at(encode(frame), 0) == Ok::<(FrameView, int), ErrorView>(
            (frame, encode(frame).len() as int),
        ),
        check_at(encode(frame), 0) == Ok::<int, ErrorView>(encode(frame).len() as int),
{
    let enc = encode(frame);
    assert(enc.subrange(0, enc.len() as int) =~= enc);
    lemma_read_written(enc, 0, frame);
}

/// A line break stands in a buffer that was cut short where it stood
/// before, unless it was cut off.
proof fn lemma_crlf_take(buf: Seq<u8>, cut: int)
    requires
        0 <= cut <= buf.len(),
    ensures
        forall|j: int| #[trigger] crlf_at(buf.take(cut), j) <==> crlf_at(buf, j) && j + 2 <= cut,
{
}

/// A line that ends before the cut ends there in the shorter buffer too;
/// any other line does not end in it.
proof fn lemma_line_end_take(buf: Seq<u8>, pos: int, cut: int)
    requires
        0 <= pos,
        0 <= cut <= buf.len(),
    ensures
        line_end(buf.take(cut), pos) == match line_end(buf, pos) {
            Some(end) => if end + 2 <= cut { Some(end) } else { None },
            None => None,
        },
{
    let short = buf.take(cut);
    lemma_crlf_take(buf, cut);
    lemma_line_end_is_first(buf, pos);
    lemma_line_end_is_first(short, pos);
    match line_end(buf, pos) {
        Some(end) => {
            if end + 2 <= cut {
                lemma_line_end_found(short, pos, end);
            } else {
                if line_end(short, pos) is Some {
                    let e = line_end(short, pos)->Some_0;
                    assert(crlf_at(short, e));
                    assert(crlf_at(buf, e) && e + 2 <= cut);
                }
            }
        },
        None => {
            if line_end(short, pos) is Some {
                let e = line_end(short, pos)->Some_0;
                assert(crlf_at(short, e));
                assert(crlf_at(buf, e));
            }
        },
    }
}

/// A number whose line ends before the cut reads the same in the shorter
/// buffer; one whose line is cut reads as incomplete.
proof fn lemma_decimal_take(buf: Seq<u8>, pos: int, cut: int)
    requires
        0 <= pos,
        0 <= cut <= buf.len(),
        decimal_at(buf, pos) is Ok,
    ensures
        decimal_at(buf.take(cut), pos) == if decimal_at(buf, pos)->Ok_0.1 <= cut {
            decimal_at(buf, pos)
        } else {
            Err(ErrorView::Incomplete)
        },
{
    lemma_line_end_take(buf, pos, cut);
    lemma_line_end_is_first(buf, pos);
    let end = line_end(buf, pos)->Some_0;
    if end + 2 <= cut {
        assert(buf.take(cut).subrange(pos, end) =~= buf.subrange(pos, end));
    }
}

/// The marker of a null frame that ends before the cut reads the same in
/// the shorter buffer, whatever it holds; one whose line is cut reads as
/// incomplete.
proof fn lemma_null_take(buf: Seq<u8>, pos: int, cut: int)
    requires
        0 <= pos,
        0 <= cut <= buf.len(),
    ensures
        null_at(buf.take(cut), pos) == match line_end(buf, pos) {
            Some(end) => if end + 2 <= cut {
                null_at(buf, pos)
            } else {
                Err(ErrorView::Incomplete)
            },
            None => Err(ErrorView::Incomplete),
        },
{
    lemma_line_end_take(buf, pos, cut);
    lemma_line_end_is_first(buf, pos);
    match line_end(buf, pos) {
        Some(end) => {
            if end + 2 <= cut {
                assert(buf.take(cut).subrange(pos, end) =~= buf.subrange(pos, end));
            }
        },
        None => {},
    }
}

/// Reading a number moves on, and stays inside the buffer.
proof fn lemma_decimal_advances(buf: Seq<u8>, pos: int)
    requires
        0 <= pos,
    ensures
        decimal_at(buf, pos) matches Ok((_, next)) ==> pos + 2 <= next <= buf.len(),
{
    lemma_line_end_is_first(buf, pos);
}

/// The first pass moves on, and stays inside the buffer.
pub proof fn lemma_check_advances(buf: Seq<u8>, pos: int)
    ensures
        check_at(buf, pos) matches Ok(end) ==> 0 <= pos < end <= buf.len(),
    decreases buf.len() - pos, 0nat,
{
    if 0 <= pos < buf.len() {
        lemma_line_end_is_first(buf, pos + 1);
        lemma_decimal_advances(buf, pos + 1);
        if buf[pos] == ARRAY {
            match decimal_at(buf, pos + 1) {
                Ok((count, next)) => {
                    lemma_check_items_advance(buf, next, count as nat);
                },
                Err(_) => {},
            }
        }
    }
}

/// The first pass over several frames never moves back, and stays inside
/// the buffer.
pub proof fn lemma_check_items_advance(buf: Seq<u8>, pos: int, count: nat)
    requires
        0 <= pos <= buf.len(),
    ensures
        check_items_at(buf, pos, count) matches Ok(end) ==> pos <= end <= buf.len(),
    decreases buf.len() - pos, count + 1,
{
    if count > 0 {
        lemma_check_advances(buf, pos);
        match check_at(buf, pos) {
            Ok(next) => {
                lemma_check_items_advance(buf, next, (count - 1) as nat);
            },
            Err(_) => {},
        }
    }
}

/// What the first pass accepts, it accepts in every shorter buffer that
/// still holds all of it, with the same end; in one that does not, it finds
/// the frame incomplete.
pub proof fn lemma_check_take(buf: Seq<u8>, pos: int, cut: int)
    requires
        0 <= cut <= buf.len(),
        check_at(buf, pos) is Ok,
    ensures
        check_at(buf.take(cut), pos) == if check_at(buf, pos)->Ok_0 <= cut {
            check_at(buf, pos)
        } else {
            Err(ErrorView::Incomplete)
        },
    decreases buf.len() - pos, 0nat,
{
    let short = buf.take(cut);
    lemma_check_advances(buf, pos);
    if pos >= cut {
    } else {
        assert(short[pos] == buf[pos]);
        lemma_line_end_take(buf, pos + 1, cut);
        if buf[pos] == SIMPLE || buf[pos] == MINUS {
        } else if buf[pos] == INTEGER {
            lemma_decimal_take(buf, pos + 1, cut);
        } else if buf[pos] == BULK {
            if pos + 1 >= cut {
                lemma_decimal_advances(buf, pos + 1);
            } else {
                assert(short[pos + 1] == buf[pos + 1]);
                if buf[pos + 1] == MINUS {
                    lemma_null_take(buf, pos + 1, cut);
                } else {
                    lemma_decimal_take(buf, pos + 1, cut);
                }
            }
        } else if buf[pos] == ARRAY {
            lemma_decimal_take(buf, pos + 1, cut);
            lemma_decimal_advances(buf, pos + 1);
            let count = decimal_at(buf, pos + 1)->Ok_0.0;
            let next = decimal_at(buf, pos + 1)->Ok_0.1;
            lemma_check_items_advance(buf, next, count as nat);
            if next <= cut {
                lemma_check_items_take(buf, next, count as nat, cut);
            }
        }
    }
}

/// The same for several frames in a row.
pub proof fn lemma_check_items_take(buf: Seq<u8>, pos: int, count: nat, cut: int)
    requires
        0 <= pos <= cut <= buf.len(),
        check_items_at(buf, pos, count) is Ok,
    ensures
        check_items_at(buf.take(cut), pos, count) == if check_items_at(buf, pos, count)->Ok_0
            <= cut {
            check_items_at(buf, pos, count)
        } else {
            Err(ErrorView::Incomplete)
        },
    decreases buf.len() - pos, count + 1,
{
    if count > 0 {
        lemma_check_advances(buf, pos);
        lemma_check_take(buf, pos, cut);
        let next = check_at(buf, pos)->Ok_0;
        lemma_check_items_advance(buf, next, (count - 1) as nat);
        if next <= cut {
            lemma_check_items_take(buf, next, (count - 1) as nat, cut);
        }
    }
}

/// The second pass moves on, and stays inside the buffer.
pub proof fn lemma_parse_advances(buf: Seq<u8>, pos: int)
    ensures
        parse_at(buf, pos) matches Ok((_, end)) ==> 0 <= pos < end <= buf.len(),
    decreases buf.len() - pos, 0nat,
{
    if 0 <= pos < buf.len() {
        lemma_line_end_is_first(buf, pos + 1);
        lemma_decimal_advances(buf, pos + 1);
        if buf[pos] == ARRAY {
            match decimal_at(buf, pos + 1) {
                Ok((count, next)) => {
                    lemma_parse_items_advance(buf, next, count as nat);
                },
                Err(_) => {},
            }
        }
    }
}

/// The second pass over several frames never moves back, and stays inside
/// the buffer.
pub proof fn lemma_parse_items_advance(buf: Seq<u8>, pos: int, count: nat)
    requires
        0 <= pos <= buf.len(),
    ensures
        parse_items_at(buf, pos, count) matches Ok((_, end)) ==> pos <= end <= buf.len(),
    decreases buf.len() - pos, count + 1,
{
    if count > 0 {
        lemma_parse_advances(buf, pos);
        match parse_at(buf, pos) {
            Ok((_, next)) => {
                lemma_parse_items_advance(buf, next, (count - 1) as nat);
            },
            Err(_) => {},
        }
    }
}

/// What the second pass builds, the first pass accepts, and both end at the
/// same place.
pub proof fn lemma_parse_agrees_with_check(buf: Seq<u8>, pos: int)
    requires
        parse_at(buf, pos) is Ok,
    ensures
        check_at(buf, pos) == Ok::<int, ErrorView>(parse_at(buf, pos)->Ok_0.1),
    decreases buf.len() - pos, 0nat,
{
    lemma_parse_advances(buf, pos);
    lemma_line_end_is_first(buf, pos + 1);
    if buf[pos] == BULK && buf[pos + 1] == MINUS {
        let end = line_end(buf, pos + 1)->Some_0;
        assert(buf.subrange(pos + 1, end).len() == 2);
    } else if buf[pos] == ARRAY {
        lemma_decimal_advances(buf, pos + 1);
        let count = decimal_at(buf, pos + 1)->Ok_0.0;
        let next = decimal_at(buf, pos + 1)->Ok_0.1;
        lemma_parse_items_agree_with_check(buf, next, count as nat);
    }
}

/// The same for several frames in a row.
pub proof fn lemma_parse_items_agree_with_check(buf: Seq<u8>, pos: int, count: nat)
    requires
        0 <= pos <= buf.len(),
        parse_items_at(buf, pos, count) is Ok,
    ensures
        check_items_at(buf, pos, count) == Ok::<int, ErrorView>(
            parse_items_at(buf, pos, count)->Ok_0.1,
        ),
    decreases buf.len() - pos, count + 1,
{
    if count > 0 {
        lemma_parse_advances(buf, pos);
        lemma_parse_agrees_with_check(buf, pos);
        let next = parse_at(buf, pos)->Ok_0.1;
        lemma_parse_items_agree_with_check(buf, next, (count - 1) as nat);
    }
}

/// What the first pass accepts, the second pass does not find incomplete:
/// it builds a frame that ends where the first pass ended, or it finds the
/// bytes malformed.
pub proof fn lemma_check_then_parse(buf: Seq<u8>, pos: int)
    requires
        check_at(buf, pos) is Ok,
    ensures
        match parse_at(buf, pos) {
            Ok((_, end)) => end == check_at(buf, pos)->Ok_0,
            Err(e) => e is Other,
        },
    decreases buf.len() - pos, 0nat,
{
    lemma_check_advances(buf, pos);
    if buf[pos] == ARRAY {
        lemma_decimal_advances(buf, pos + 1);
        let count = decimal_at(buf, pos + 1)->Ok_0.0;
        let next = decimal_at(buf, pos + 1)->Ok_0.1;
        lemma_check_items_then_parse(buf, next, count as nat);
    }
}

/// The same for several frames in a row.
pub proof fn lemma_check_items_then_parse(buf: Seq<u8>, pos: int, count: nat)
    requires
        0 <= pos <= buf.len(),
        check_items_at(buf, pos, count) is Ok,
    ensures
        match parse_items_at(buf, pos, count) {
            Ok((_, end)) => end == check_items_at(buf, pos, count)->Ok_0,
            Err(e) => e is Other,
        },
    decreases buf.len() - pos, count + 1,
{
    if count > 0 {
        lemma_check_advances(buf, pos);
        lemma_check_then_parse(buf, pos);
        let next = check_at(buf, pos)->Ok_0;
        if parse_at(buf, pos) is Ok {
            lemma_check_items_then_parse(buf, next, (count - 1) as nat);
        }
    }
}

/// The second pass reads no further than the first pass went: what it makes
/// of a buffer, frame or error, it makes of every shorter buffer that still
/// holds all that the first pass accepted.
pub proof fn lemma_parse_reads_no_further(buf: Seq<u8>, pos: int, cut: int)
    requires
        check_at(buf, pos) is Ok,
        check_at(buf, pos)->Ok_0 <= cut <= buf.len(),
    ensures
        parse_at(buf.take(cut), pos) == parse_at(buf, pos),
    decreases buf.len() - pos, 0nat,
{
    let short = buf.take(cut);
    lemma_check_advances(buf, pos);
    assert(short[pos] == buf[pos]);
    lemma_line_end_take(buf, pos + 1, cut);
    lemma_line_end_is_first(buf, pos + 1);
    if buf[pos] == SIMPLE || buf[pos] == MINUS {
        let end = line_end(buf, pos + 1)->Some_0;
        assert(short.subrange(pos + 1, end) =~= buf.subrange(pos + 1, end));
    } else if buf[pos] == INTEGER {
        lemma_decimal_take(buf, pos + 1, cut);
    } else if buf[pos] == BULK {
        assert(short[pos + 1] == buf[pos + 1]);
        if buf[pos + 1] == MINUS {
            lemma_null_take(buf, pos + 1, cut);
        } else {
            lemma_decimal_take(buf, pos + 1, cut);
            lemma_decimal_advances(buf, pos + 1);
            let len = decimal_at(buf, pos + 1)->Ok_0.0;
            let next = decimal_at(buf, pos + 1)->Ok_0.1;
            assert(short.subrange(next, next + len) =~= buf.subrange(next, next + len));
        }
    } else if buf[pos] == ARRAY {
        lemma_decimal_take(buf, pos + 1, cut);
        lemma_decimal_advances(buf, pos + 1);
        let count = decimal_at(buf, pos + 1)->Ok_0.0;
        let next = decimal_at(buf, pos + 1)->Ok_0.1;
        lemma_check_items_advance(buf, next, count as nat);
        lemma_parse_items_read_no_further(buf, next, count as nat, cut);
    }
}

/// The same for several frames in a row.
pub proof fn lemma_parse_items_read_no_further(buf: Seq<u8>, pos: int, count: nat, cut: int)
    requires
        0 <= pos <= buf.len(),
        check_items_at(buf, pos, count) is Ok,
        check_items_at(buf, pos, count)->Ok_0 <= cut <= buf.len(),
    ensures
        parse_items_at(buf.take(cut), pos, count) == parse_items_at(buf, pos, count),
    decreases buf.len() - pos, count + 1,
{
    if count > 0 {
        lemma_check_advances(buf, pos);
        let next = check_at(buf, pos)->Ok_0;
        lemma_check_items_advance(buf, next, (count - 1) as nat);
        lemma_check_then_parse(buf, pos);
        lemma_parse_reads_no_further(buf, pos, cut);
        lemma_parse_items_read_no_further(buf, next, (count - 1) as nat, cut);
    }
}

/// Taking a frame from a buffer never fails for want of bytes: where bytes
/// are wanting, nothing is taken and more are asked for, and every error is
/// one of malformed bytes, with the text that the pass that found it gives.
pub proof fn lemma_errors_are_malformed(buf: Seq<u8>)
    ensures
        next_frame(buf) matches Err(text) ==> {
            ||| check_at(buf, 0) == Err::<int, ErrorView>(ErrorView::Other(text))
            ||| check_at(buf, 0) is Ok && parse_at(buf, 0) == Err::<(FrameView, int), ErrorView>(
                ErrorView::Other(text),
            )
        },
        check_at(buf, 0) == Err::<int, ErrorView>(ErrorView::Incomplete) ==> next_frame(buf) == Ok::<
            Option<(FrameView, int)>,
            Seq<char>,
        >(None),
{
    if check_at(buf, 0) is Ok {
        lemma_check_then_parse(buf, 0);
    }
}

/// A buffer that ends inside its first frame yields nothing yet: more bytes
/// are asked for, whatever the frame and wherever it was cut.
pub proof fn lemma_cut_short(buf: Seq<u8>, cut: int)
    requires
        next_frame(buf) matches Ok(Some((_, taken))) && 0 <= cut < taken,
    ensures
        next_frame(buf.take(cut)) == Ok::<Option<(FrameView, int)>, Seq<char>>(None),
{
    lemma_check_advances(buf, 0);
    lemma_check_take(buf, 0, cut);
}

/// What follows the first frame in a buffer has no part in what is read:
/// the same comes out of every buffer that starts with the same bytes and
/// holds all that the first pass accepted, be it a frame or an error.
pub proof fn lemma_rest_ignored(buf: Seq<u8>, cut: int)
    requires
        check_at(buf, 0) is Ok,
        check_at(buf, 0)->Ok_0 <= cut <= buf.len(),
    ensures
        next_frame(buf.take(cut)) == next_frame(buf),
{
    lemma_check_advances(buf, 0);
    lemma_check_take(buf, 0, cut);
    lemma_parse_reads_no_further(buf, 0, cut);
}

/// A written frame that arrives in two pieces, cut at any byte, is read as
/// when it arrives whole: the first piece alone yields nothing, and both
/// pieces together yield the frame and leave nothing behind.
pub proof fn lemma_split_delivery(frame: FrameView, cut: int)
    requires
        readable(frame),
        0 <= cut <= encode(frame).len(),
    ensures
        cut < encode(frame).len() ==> next_frame(encode(frame).take(cut)) == Ok::<
            Option<(FrameView, int)>,
            Seq<char>,
        >(None),
        next_frame(encode(frame).take(cut) + encode(frame).skip(cut)) == Ok::<
            Option<(FrameView, int)>,
            Seq<char>,
        >(Some((frame, encode(frame).len() as int))),
        next_frame(encode(frame)) == Ok::<Option<(FrameView, int)>, Seq<char>>(
            Some((frame, encode(frame).len() as int)),
        ),
{
    let enc = encode(frame);
    lemma_round_trip(frame);
    assert(enc.take(cut) + enc.skip(cut) =~= enc);
    if cut < enc.len() {
        lemma_cut_short(enc, cut);
    }
}

} // verus!
