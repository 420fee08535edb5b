//! The calls into the `bytes` crate. Verus takes the contracts in this file on
//! trust: each one restates what the crate documents for the call it makes.

use super::layout::{be16_bytes, be16_value};
use bytes::{Buf, BufMut, Bytes};
use vstd::prelude::*;

verus! {

#[verifier::external_type_specification]
#[verifier::external_body]
pub struct ExBytes(bytes::Bytes);

/// The bytes that a `bytes::Bytes` holds, first to last.
pub uninterp spec fn bytes_of(b: Bytes) -> Seq<u8>;

/// `bytes::BufMut::put_u16` on a `Vec<u8>`: appends the two bytes of `n`, most
/// significant first, and leaves what was there untouched. The call panics
/// when the vector cannot grow by two bytes, which `requires` rules out.
#[verifier::external_body]
pub(crate) fn put_u16(buf: &mut Vec<u8>, n: u16)
    requires
        old(buf)@.len() + 2 <= isize::MAX,
    ensures
        final(buf)@ == old(buf)@ + be16_bytes(n),
{
    buf.put_u16(n)
}

/// `bytes::BufMut::put_slice` on a `Vec<u8>`: appends a copy of `src` and
/// leaves what was there untouched. The call panics when the vector cannot
/// grow by `src.len()` bytes, which `requires` rules out.
#[verifier::external_body]
pub(crate) fn put_slice(buf: &mut Vec<u8>, src: &[u8])
    requires
        old(buf)@.len() + src@.len() <= isize::MAX,
    ensures
        final(buf)@ == old(buf)@ + src@,
{
    buf.put_slice(src)
}

/// `bytes::Buf::get_u16` on a byte slice: the number that the first two bytes
/// hold, most significant first. The call panics on fewer than two bytes,
/// which `requires` rules out. The cursor that the call advances is a local
/// copy of the reference.
#[verifier::external_body]
pub(crate) fn get_u16(src: &[u8]) -> (n: u16)
    requires
        src@.len() >= 2,
    ensures
        n == be16_value(src@[0], src@[1]),
{
    let mut cursor = src;
    cursor.get_u16()
}

/// `Bytes::from` a `Vec<u8>`: hands the vector's bytes over, unchanged and in
/// order.
#[verifier::external_body]
pub(crate) fn into_bytes(buf: Vec<u8>) -> (out: Bytes)
    ensures
        bytes_of(out) == buf@,
{
    Bytes::from(buf)
}

} // verus!
