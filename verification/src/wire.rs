//! The calls into the `bytes` crate that move integers between native
//! values and byte buffers. Each function here is trusted: its body makes
//! one call of `bytes::Buf` / `bytes::BufMut`, and its contract is taken without proof.
use bytes::{Buf, BufMut};
use vstd::prelude::*;
use crate::codec::{be_bytes, be_value, le_bytes, le_value, to_signed, to_unsigned};

verus! {

/// `BufMut::put_slice` on a `Vec<u8>`: appends `src`.
/// Fails only when the vector would outgrow `isize::MAX` bytes, which `requires` rules out.
#[verifier::external_body]
pub(crate) fn put_slice(buf: &mut Vec<u8>, src: &[u8])
    requires
        old(buf)@.len() + src@.len() <= isize::MAX,
    ensures
        final(buf)@ == old(buf)@ + src@,
{
    buf.put_slice(src)
}

/// `BufMut::put_u8` on a `Vec<u8>`: appends the byte `v`.
#[verifier::external_body]
pub(crate) fn put_u8(buf: &mut Vec<u8>, v: u8)
    requires
        old(buf)@.len() + 1 <= isize::MAX,
    ensures
        final(buf)@ == old(buf)@.push(v),
{
    buf.put_u8(v)
}

/// `BufMut::put_u16`: appends the two bytes of `v`, most significant first.
#[verifier::external_body]
pub(crate) fn put_u16(buf: &mut Vec<u8>, v: u16)
    requires
        old(buf)@.len() + 2 <= isize::MAX,
    ensures
        final(buf)@ == old(buf)@ + be_bytes(v as nat, 2),
{
    buf.put_u16(v)
}

/// `BufMut::put_u16_le`: appends the two bytes of `v`, least significant first.
#[verifier::external_body]
pub(crate) fn put_u16_le(buf: &mut Vec<u8>, v: u16)
    requires
        old(buf)@.len() + 2 <= isize::MAX,
    ensures
        final(buf)@ == old(buf)@ + le_bytes(v as nat, 2),
{
    buf.put_u16_le(v)
}

/// `BufMut::put_i16`: appends the two's complement bytes of `v`, most significant first.
#[verifier::external_body]
pub(crate) fn put_i16(buf: &mut Vec<u8>, v: i16)
    requires
        old(buf)@.len() + 2 <= isize::MAX,
    ensures
        final(buf)@ == old(buf)@ + be_bytes(to_unsigned(v as int, 2), 2),
{
    buf.put_i16(v)
}

/// `BufMut::put_i16_le`: appends the two's complement bytes of `v`, least significant first.
#[verifier::external_body]
pub(crate) fn put_i16_le(buf: &mut Vec<u8>, v: i16)
    requires
        old(buf)@.len() + 2 <= isize::MAX,
    ensures
        final(buf)@ == old(buf)@ + le_bytes(to_unsigned(v as int, 2), 2),
{
    buf.put_i16_le(v)
}

/// `BufMut::put_u32`: appends the four bytes of `v`, most significant first.
#[verifier::external_body]
pub(crate) fn put_u32(buf: &mut Vec<u8>, v: u32)
    requires
        old(buf)@.len() + 4 <= isize::MAX,
    ensures
        final(buf)@ == old(buf)@ + be_bytes(v as nat, 4),
{
    buf.put_u32(v)
}

/// `BufMut::put_u32_le`: appends the four bytes of `v`, least significant first.
#[verifier::external_body]
pub(crate) fn put_u32_le(buf: &mut Vec<u8>, v: u32)
    requires
        old(buf)@.len() + 4 <= isize::MAX,
    ensures
        final(buf)@ == old(buf)@ + le_bytes(v as nat, 4),
{
    buf.put_u32_le(v)
}

/// `BufMut::put_i32`: appends the two's complement bytes of `v`, most significant first.
#[verifier::external_body]
pub(crate) fn put_i32(buf: &mut Vec<u8>, v: i32)
    requires
        old(buf)@.len() + 4 <= isize::MAX,
    ensures
        final(buf)@ == old(buf)@ + be_bytes(to_unsigned(v as int, 4), 4),
{
    buf.put_i32(v)
}

/// `BufMut::put_i32_le`: appends the two's complement bytes of `v`, least significant first.
#[verifier::external_body]
pub(crate) fn put_i32_le(buf: &mut Vec<u8>, v: i32)
    requires
        old(buf)@.len() + 4 <= isize::MAX,
    ensures
        final(buf)@ == old(buf)@ + le_bytes(to_unsigned(v as int, 4), 4),
{
    buf.put_i32_le(v)
}

/// `BufMut::put_u64`: appends the eight bytes of `v`, most significant first.
#[verifier::external_body]
pub(crate) fn put_u64(buf: &mut Vec<u8>, v: u64)
    requires
        old(buf)@.len() + 8 <= isize::MAX,
    ensures
        final(buf)@ == old(buf)@ + be_bytes(v as nat, 8),
{
    buf.put_u64(v)
}

/// `BufMut::put_u64_le`: appends the eight bytes of `v`, least significant first.
#[verifier::external_body]
pub(crate) fn put_u64_le(buf: &mut Vec<u8>, v: u64)
    requires
        old(buf)@.len() + 8 <= isize::MAX,
    ensures
        final(buf)@ == old(buf)@ + le_bytes(v as nat, 8),
{
    buf.put_u64_le(v)
}

/// `BufMut::put_i64`: appends the two's complement bytes of `v`, most significant first.
#[verifier::external_body]
pub(crate) fn put_i64(buf: &mut Vec<u8>, v: i64)
    requires
        old(buf)@.len() + 8 <= isize::MAX,
    ensures
        final(buf)@ == old(buf)@ + be_bytes(to_unsigned(v as int, 8), 8),
{
    buf.put_i64(v)
}

/// `BufMut::put_i64_le`: appends the two's complement bytes of `v`, least significant first.
#[verifier::external_body]
pub(crate) fn put_i64_le(buf: &mut Vec<u8>, v: i64)
    requires
        old(buf)@.len() + 8 <= isize::MAX,
    ensures
        final(buf)@ == old(buf)@ + le_bytes(to_unsigned(v as int, 8), 8),
{
    buf.put_i64_le(v)
}

/// `Buf::get_u8` on a byte slice: the first byte. It panics on an empty slice,
/// which `requires` rules out.
#[verifier::external_body]
pub(crate) fn get_u8(src: &[u8]) -> (r: u8)
    requires
        src@.len() >= 1,
    ensures
        r == src@[0],
{
    let mut s = src;
    s.get_u8()
}

/// `Buf::get_u16`: the first two bytes read most significant first.
#[verifier::external_body]
pub(crate) fn get_u16(src: &[u8]) -> (r: u16)
    requires
        src@.len() >= 2,
    ensures
        r as nat == be_value(src@.take(2)),
{
    let mut s = src;
    s.get_u16()
}

/// `Buf::get_u16_le`: the first two bytes read least significant first.
#[verifier::external_body]
pub(crate) fn get_u16_le(src: &[u8]) -> (r: u16)
    requires
        src@.len() >= 2,
    ensures
        r as nat == le_value(src@.take(2)),
{
    let mut s = src;
    s.get_u16_le()
}

/// `Buf::get_u32`: the first four bytes read most significant first.
#[verifier::external_body]
pub(crate) fn get_u32(src: &[u8]) -> (r: u32)
    requires
        src@.len() >= 4,
    ensures
        r as nat == be_value(src@.take(4)),
{
    let mut s = src;
    s.get_u32()
}

/// `Buf::get_u32_le`: the first four bytes read least significant first.
#[verifier::external_body]
pub(crate) fn get_u32_le(src: &[u8]) -> (r: u32)
    requires
        src@.len() >= 4,
    ensures
        r as nat == le_value(src@.take(4)),
{
    let mut s = src;
    s.get_u32_le()
}

/// `Buf::get_u64`: the first eight bytes read most significant first.
#[verifier::external_body]
pub(crate) fn get_u64(src: &[u8]) -> (r: u64)
    requires
        src@.len() >= 8,
    ensures
        r as nat == be_value(src@.take(8)),
{
    let mut s = src;
    s.get_u64()
}

/// `Buf::get_u64_le`: the first eight bytes read least significant first.
#[verifier::external_body]
pub(crate) fn get_u64_le(src: &[u8]) -> (r: u64)
    requires
        src@.len() >= 8,
    ensures
        r as nat == le_value(src@.take(8)),
{
    let mut s = src;
    s.get_u64_le()
}

/// `Buf::get_i64`: the first eight bytes read most significant first, as two's complement.
#[verifier::external_body]
pub(crate) fn get_i64(src: &[u8]) -> (r: i64)
    requires
        src@.len() >= 8,
    ensures
        r as int == to_signed(be_value(src@.take(8)), 8),
{
    let mut s = src;
    s.get_i64()
}

/// `Buf::get_i64_le`: the first eight bytes read least significant first, as two's complement.
#[verifier::external_body]
pub(crate) fn get_i64_le(src: &[u8]) -> (r: i64)
    requires
        src@.len() >= 8,
    ensures
        r as int == to_signed(le_value(src@.take(8)), 8),
{
    let mut s = src;
    s.get_i64_le()
}

} // verus!
