//! The calls into the `byteorder` crate, which turns integers into bytes in
//! network order and back.
//!
//! Nothing in this file is proved: each function states what the crate's
//! big-endian byte order does, and the rest of the library relies on it.

use byteorder::{BigEndian, ByteOrder};
use vstd::prelude::*;
use crate::wire::{
    double_word_bytes, double_word_value, to_signed, to_unsigned, word_bytes, word_value,
};

verus! {

/// `<BigEndian as ByteOrder>::read_u32`: the unsigned number held in the first
/// four bytes of `buf`, most significant byte first. The crate panics on a
/// shorter slice.
#[verifier::external_body]
pub(crate) fn read_u32(buf: &[u8]) -> (r: u32)
    requires
        buf@.len() >= 4,
    ensures
        r == word_value(buf@.subrange(0, 4)),
{
    BigEndian::read_u32(buf)
}

/// `<BigEndian as ByteOrder>::read_i32`: the first four bytes of `buf` as for
/// `read_u32`, their pattern read as a signed number in two's complement. The
/// crate panics on a shorter slice.
#[verifier::external_body]
pub(crate) fn read_i32(buf: &[u8]) -> (r: i32)
    requires
        buf@.len() >= 4,
    ensures
        r == to_signed(word_value(buf@.subrange(0, 4)), 32),
{
    BigEndian::read_i32(buf)
}

/// `<BigEndian as ByteOrder>::read_u64`: the unsigned number held in the first
/// eight bytes of `buf`, most significant byte first. The crate panics on a
/// shorter slice.
#[verifier::external_body]
pub(crate) fn read_u64(buf: &[u8]) -> (r: u64)
    requires
        buf@.len() >= 8,
    ensures
        r == double_word_value(buf@.subrange(0, 8)),
{
    BigEndian::read_u64(buf)
}

/// `<BigEndian as ByteOrder>::read_i64`: the first eight bytes of `buf` as for
/// `read_u64`, their pattern read as a signed number in two's complement. The
/// crate panics on a shorter slice.
#[verifier::external_body]
pub(crate) fn read_i64(buf: &[u8]) -> (r: i64)
    requires
        buf@.len() >= 8,
    ensures
        r == to_signed(double_word_value(buf@.subrange(0, 8)), 64),
{
    BigEndian::read_i64(buf)
}

/// `<BigEndian as ByteOrder>::write_u32`, on a buffer of four bytes: the bytes
/// of `n`, most significant first.
#[verifier::external_body]
pub(crate) fn write_u32(n: u32) -> (r: [u8; 4])
    ensures
        r@ == word_bytes(n as int),
{
    let mut buf = [0u8; 4];
    BigEndian::write_u32(&mut buf, n);
    buf
}

/// `<BigEndian as ByteOrder>::write_i32`, on a buffer of four bytes: the bytes
/// of the two's complement pattern of `n`, most significant first.
#[verifier::external_body]
pub(crate) fn write_i32(n: i32) -> (r: [u8; 4])
    ensures
        r@ == word_bytes(to_unsigned(n as int, 32)),
{
    let mut buf = [0u8; 4];
    BigEndian::write_i32(&mut buf, n);
    buf
}

/// `<BigEndian as ByteOrder>::write_u64`, on a buffer of eight bytes: the
/// bytes of `n`, most significant first.
#[verifier::external_body]
pub(crate) fn write_u64(n: u64) -> (r: [u8; 8])
    ensures
        r@ == double_word_bytes(n as int),
{
    let mut buf = [0u8; 8];
    BigEndian::write_u64(&mut buf, n);
    buf
}

/// `<BigEndian as ByteOrder>::write_i64`, on a buffer of eight bytes: the
/// bytes of the two's complement pattern of `n`, most significant first.
#[verifier::external_body]
pub(crate) fn write_i64(n: i64) -> (r: [u8; 8])
    ensures
        r@ == double_word_bytes(to_unsigned(n as int, 64)),
{
    let mut buf = [0u8; 8];
    BigEndian::write_i64(&mut buf, n);
    buf
}

} // verus!
