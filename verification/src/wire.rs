//! The byte buffers the codec reads from and writes to.
//!
//! Everything in this file is a statement about code outside this crate:
//! Verus takes each contract here on trust.
use bytes::Buf;
use bytes::BufMut;
use bytes::BytesMut;
use std::ops::Deref;
use vstd::prelude::*;
use vstd::utf8::*;

verus! {

/// `bytes::BytesMut`, a byte buffer that is read from its front. Nothing is
/// known of a value but what the functions below say of it.
#[verifier::external_type_specification]
#[verifier::external_body]
pub struct ExBytesMut(bytes::BytesMut);

/// The bytes of a `bytes::BytesMut` that have not been read yet, front first.
pub uninterp spec fn unread(buf: &BytesMut) -> Seq<u8>;

/// `BytesMut::len`: how many bytes are left to read.
#[verifier::external_body]
pub(crate) fn remaining(buf: &BytesMut) -> (n: usize)
    ensures
        n == unread(buf).len(),
{
    buf.len()
}

/// `Buf::get_u8` on a `BytesMut`: takes the first unread byte. The outside
/// function panics on an empty buffer, which the precondition rules out.
#[verifier::external_body]
pub(crate) fn get_u8(buf: &mut BytesMut) -> (b: u8)
    requires
        unread(old(buf)).len() >= 1,
    ensures
        b == unread(old(buf))[0],
        unread(final(buf)) == unread(old(buf)).skip(1),
{
    buf.get_u8()
}

/// `Buf::get_u16` on a `BytesMut`: takes the first two unread bytes as one
/// big-endian number. The outside function panics when fewer than two bytes
/// are left, which the precondition rules out.
#[verifier::external_body]
pub(crate) fn get_u16(buf: &mut BytesMut) -> (w: u16)
    requires
        unread(old(buf)).len() >= 2,
    ensures
        w == unread(old(buf))[0] * 256 + unread(old(buf))[1],
        unread(final(buf)) == unread(old(buf)).skip(2),
{
    buf.get_u16()
}

/// `Buf::advance` on a `BytesMut`: drops the first `cnt` unread bytes. The
/// outside function panics when `cnt` exceeds what is left, which the
/// precondition rules out.
#[verifier::external_body]
pub(crate) fn advance(buf: &mut BytesMut, cnt: usize)
    requires
        cnt <= unread(old(buf)).len(),
    ensures
        unread(final(buf)) == unread(old(buf)).skip(cnt as int),
{
    buf.advance(cnt)
}

/// `Deref` of a `BytesMut`: its unread bytes as a slice; the buffer itself
/// is left as it was.
#[verifier::external_body]
pub(crate) fn as_slice(buf: &BytesMut) -> (bytes: &[u8])
    ensures
        bytes@ == unread(buf),
{
    buf.deref()
}

/// `BufMut::put_u8` on a mutable byte slice: stores `b` in the slice's first
/// cell and moves the slice's start past it, so that `dst` is afterwards the
/// rest of the same memory. The outside function panics on an empty slice,
/// which the precondition rules out.
#[verifier::external_body]
pub(crate) fn put_u8<'a>(dst: &mut &'a mut [u8], b: u8)
    requires
        old(dst)@.len() >= 1,
    ensures
        final(dst)@ == old(dst)@.skip(1),
        final(*old(dst))@ == seq![b] + final(*final(dst))@,
{
    dst.put_u8(b)
}

/// `String::from_utf8`: a string exactly when `bytes` are well-formed
/// UTF-8, and then the string whose bytes they are.
#[verifier::external_body]
pub(crate) fn text_from_utf8(bytes: Vec<u8>) -> (text: Option<String>)
    ensures
        text is Some <==> valid_utf8(bytes@),
        text matches Some(s) ==> encode_utf8(s@) == bytes@,
{
    String::from_utf8(bytes).ok()
}

} // verus!
