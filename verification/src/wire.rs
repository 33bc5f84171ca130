//! The byte layout of the format, as mathematics.
//!
//! Integers travel most significant byte first, in words of four bytes or
//! double words of eight. Signed integers are in two's complement. Nothing
//! narrower than a word exists on the wire: a narrow integer is widened to a
//! word when written and cut down to its low bits when read.

use vstd::prelude::*;

verus! {

/// The number that four bytes denote, the first byte being the most significant.
pub open spec fn word_value(s: Seq<u8>) -> int
    recommends
        s.len() == 4,
{
    s[0] as int * 0x100_0000 + s[1] as int * 0x1_0000 + s[2] as int * 0x100 + s[3] as int
}

/// The four bytes that denote `v`, the most significant first.
pub open spec fn word_bytes(v: int) -> Seq<u8>
    recommends
        0 <= v < 0x1_0000_0000,
{
    seq![
        (v / 0x100_0000 % 0x100) as u8,
        (v / 0x1_0000 % 0x100) as u8,
        (v / 0x100 % 0x100) as u8,
        (v % 0x100) as u8,
    ]
}

/// The number that eight bytes denote, the first byte being the most significant.
pub open spec fn double_word_value(s: Seq<u8>) -> int
    recommends
        s.len() == 8,
{
    word_value(s.subrange(0, 4)) * 0x1_0000_0000 + word_value(s.subrange(4, 8))
}

/// The eight bytes that denote `v`, the most significant first.
pub open spec fn double_word_bytes(v: int) -> Seq<u8>
    recommends
        0 <= v < 0x1_0000_0000_0000_0000,
{
    word_bytes(v / 0x1_0000_0000) + word_bytes(v % 0x1_0000_0000)
}

/// Two to the power of `bits`, for the four integer widths the format carries.
pub open spec fn modulus(bits: nat) -> int {
    if bits == 8 {
        0x100
    } else if bits == 16 {
        0x1_0000
    } else if bits == 32 {
        0x1_0000_0000
    } else {
        0x1_0000_0000_0000_0000
    }
}

/// The two's complement pattern of the signed number `v` in `bits` bits.
pub open spec fn to_unsigned(v: int, bits: nat) -> int {
    if v < 0 {
        v + modulus(bits)
    } else {
        v
    }
}

/// The signed number that the pattern `n` of `bits` bits stands for in two's
/// complement.
pub open spec fn to_signed(n: int, bits: nat) -> int {
    if 2 * n >= modulus(bits) {
        n - modulus(bits)
    } else {
        n
    }
}

/// The number of zero bytes that follow a string of `len` bytes: what brings
/// the length up to the next multiple of four, and a whole word where the
/// length already is one. It is never zero.
pub open spec fn padding(len: nat) -> nat {
    (4 - len % 4) as nat
}

/// `n` zero bytes.
pub open spec fn zeros(n: nat) -> Seq<u8> {
    Seq::new(n, |i: int| 0u8)
}

/// Four bytes hold a number below `2^32`.
pub proof fn lemma_word_value_bounds(s: Seq<u8>)
    ensures
        0 <= word_value(s) < 0x1_0000_0000,
{
}

/// Reading back the bytes of a word gives the number they were made from.
pub proof fn lemma_word_value_of_bytes(v: int)
    requires
        0 <= v < 0x1_0000_0000,
    ensures
        word_bytes(v).len() == 4,
        word_value(word_bytes(v)) == v,
{
}

/// Reading back the bytes of a double word gives the number they were made from.
pub proof fn lemma_double_word_value_of_bytes(v: int)
    requires
        0 <= v < 0x1_0000_0000_0000_0000,
    ensures
        double_word_bytes(v).len() == 8,
        double_word_value(double_word_bytes(v)) == v,
{
    let high = v / 0x1_0000_0000;
    let low = v % 0x1_0000_0000;
    lemma_word_value_of_bytes(high);
    lemma_word_value_of_bytes(low);
    let s = double_word_bytes(v);
    assert(s.subrange(0, 4) =~= word_bytes(high));
    assert(s.subrange(4, 8) =~= word_bytes(low));
}

/// A pattern and the signed number it stands for give each other back.
pub proof fn lemma_unsigned_signed(n: int, bits: nat)
    requires
        bits == 8 || bits == 16 || bits == 32 || bits == 64,
        0 <= n < modulus(bits),
    ensures
        -modulus(bits) <= 2 * to_signed(n, bits) < modulus(bits),
        to_unsigned(to_signed(n, bits), bits) == n,
{
}

/// Cutting an unsigned word down to eight or sixteen bits keeps the
/// remainder by `2^8` or `2^16`.
pub proof fn lemma_narrow_unsigned(w: u32)
    ensures
        w as u8 == w % 0x100,
        w as u16 == w % 0x1_0000,
{
    assert(w as u8 == w % 0x100) by (bit_vector);
    assert(w as u16 == w % 0x1_0000) by (bit_vector);
}

/// Cutting a signed word down to eight or sixteen bits keeps the low bits of
/// its pattern, read as a signed number of that width.
pub proof fn lemma_narrow_signed(w: i32)
    ensures
        w as i8 == to_signed(to_unsigned(w as int, 32) % 0x100, 8),
        w as i16 == to_signed(to_unsigned(w as int, 32) % 0x1_0000, 16),
{
    let u = w as u32;
    assert(w < 0 ==> u == w + 0x1_0000_0000) by (bit_vector)
        requires
            u == w as u32,
    ;
    assert(w >= 0 ==> u == w) by (bit_vector)
        requires
            u == w as u32,
    ;
    let b = w as i8;
    assert(if u % 0x100 >= 0x80 {
        b == u % 0x100 - 0x100
    } else {
        b == u % 0x100
    }) by (bit_vector)
        requires
            u == w as u32,
            b == w as i8,
    ;
    let h = w as i16;
    assert(if u % 0x1_0000 >= 0x8000 {
        h == u % 0x1_0000 - 0x1_0000
    } else {
        h == u % 0x1_0000
    }) by (bit_vector)
        requires
            u == w as u32,
            h == w as i16,
    ;
}

/// With its padding a string's bytes fill whole words, and where the length
/// is no multiple of four the padding is the least that does so.
pub proof fn lemma_padding(len: nat)
    ensures
        1 <= padding(len) <= 4,
        (len + padding(len)) % 4 == 0,
        len % 4 != 0 ==> padding(len) < 4,
        len % 4 == 0 ==> padding(len) == 4,
{
}

} // verus!
