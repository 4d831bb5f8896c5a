//! Byte containers of the `bytes` crate, as the rest of the library sees them.
//!
//! A `Bytes` or a `BytesMut` is opaque to the verifier. What it holds is named
//! by [`bytes_seq`] and [`bytes_mut_seq`]; the functions below are the only
//! places where the crate is called, and their contracts are taken on trust.

use vstd::prelude::*;
use bytes::Buf;
use bytes::Bytes;
use bytes::BytesMut;

verus! {

#[verifier::external_type_specification]
#[verifier::external_body]
pub struct ExBytes(bytes::Bytes);

#[verifier::external_type_specification]
#[verifier::external_body]
pub struct ExBytesMut(bytes::BytesMut);

/// The bytes that a `Bytes` holds, first to last.
pub uninterp spec fn bytes_seq(b: Bytes) -> Seq<u8>;

/// The bytes that a `BytesMut` holds, first to last.
pub uninterp spec fn bytes_mut_seq(b: BytesMut) -> Seq<u8>;

/// `Bytes::copy_from_slice`: a new `Bytes` holding a copy of `data`.
#[verifier::external_body]
pub(crate) fn bytes_copy_from_slice(data: &[u8]) -> (b: Bytes)
    ensures
        bytes_seq(b) == data@,
{
    Bytes::copy_from_slice(data)
}

/// How the `bytes` crate prints bytes for a reader: `Debug` of `Bytes`, asked
/// for with the hexadecimal flag.
pub uninterp spec fn hex_debug(data: Seq<u8>) -> Seq<char>;

/// `Debug` of `Bytes`, formatted with `{:x?}`.
#[verifier::external_body]
pub(crate) fn bytes_hex_debug(b: &Bytes) -> (text: String)
    ensures
        text@ == hex_debug(bytes_seq(*b)),
{
    format!("{:x?}", b)
}

/// `Deref` of `Bytes`: the held bytes as a slice.
#[verifier::external_body]
pub(crate) fn bytes_as_slice(b: &Bytes) -> (s: &[u8])
    ensures
        s@ == bytes_seq(*b),
{
    &b[..]
}

/// `Clone` of `Bytes`: a second handle on the same bytes.
pub assume_specification[ <Bytes as Clone>::clone ](b: &Bytes) -> (c: Bytes)
    ensures
        bytes_seq(c) == bytes_seq(*b),
;

/// `BytesMut::with_capacity`: an empty buffer; the capacity is only a hint.
#[verifier::external_body]
pub(crate) fn bytes_mut_with_capacity(capacity: usize) -> (b: BytesMut)
    ensures
        bytes_mut_seq(b) == Seq::<u8>::empty(),
{
    BytesMut::with_capacity(capacity)
}

/// `Deref` of `BytesMut`: the held bytes as a slice.
#[verifier::external_body]
pub(crate) fn bytes_mut_as_slice(b: &BytesMut) -> (s: &[u8])
    ensures
        s@ == bytes_mut_seq(*b),
{
    &b[..]
}

/// `BytesMut::extend_from_slice`: appends `extend` behind what is held.
#[verifier::external_body]
pub(crate) fn bytes_mut_extend_from_slice(b: &mut BytesMut, extend: &[u8])
    ensures
        bytes_mut_seq(*final(b)) == bytes_mut_seq(*old(b)) + extend@,
{
    b.extend_from_slice(extend)
}

/// `Buf::advance` of `BytesMut`: drops the first `cnt` bytes. The crate
/// panics when `cnt` is more than what is held, so callers must not ask it.
#[verifier::external_body]
pub(crate) fn bytes_mut_advance(b: &mut BytesMut, cnt: usize)
    requires
        cnt <= bytes_mut_seq(*old(b)).len(),
    ensures
        bytes_mut_seq(*final(b)) == bytes_mut_seq(*old(b)).skip(cnt as int),
{
    b.advance(cnt)
}

} // verus!
