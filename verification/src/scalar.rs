//! The encodings of the integers and of `bool`.

use vstd::prelude::*;
use crate::byte_order;
use crate::wire::{
    double_word_bytes, double_word_value, lemma_double_word_value_of_bytes, lemma_narrow_signed,
    lemma_narrow_unsigned, lemma_unsigned_signed, lemma_word_value_bounds,
    lemma_word_value_of_bytes, to_signed, to_unsigned, word_bytes, word_value,
};
use crate::xdr::{refused, Decoded, Error, XdrPrimitive, XdrReader, XdrWriter};

verus! {

/// The number in the word at the head of `s`.
pub open spec fn head_word(s: Seq<u8>) -> int {
    word_value(s.subrange(0, 4))
}

/// The number in the double word at the head of `s`.
pub open spec fn head_double_word(s: Seq<u8>) -> int {
    double_word_value(s.subrange(0, 8))
}

impl XdrPrimitive for u32 {
    type Value = u32;

    open spec fn value(&self) -> u32 {
        *self
    }

    open spec fn fits(v: u32) -> bool {
        true
    }

    /// The word of the number.
    open spec fn encode(v: u32) -> Seq<u8> {
        word_bytes(v as int)
    }

    /// The number in the next word.
    open spec fn decode(s: Seq<u8>) -> Decoded<u32> {
        if s.len() < 4 {
            refused(Error::Truncated)
        } else {
            Decoded { result: Ok(head_word(s) as u32), consumed: 4 }
        }
    }

    proof fn lemma_encoding_in_words(v: u32) {
    }

    proof fn lemma_decode_in_bounds(s: Seq<u8>) {
    }

    proof fn lemma_round_trip(v: u32, rest: Seq<u8>) {
        lemma_word_value_of_bytes(v as int);
        assert((Self::encode(v) + rest).subrange(0, 4) =~= word_bytes(v as int));
    }

    proof fn lemma_less_than_a_word(s: Seq<u8>) {
    }

    proof fn lemma_truncated(v: u32, k: int) {
    }

    fn read_from_xdr(x: &mut XdrReader) -> (r: Result<u32, Error>) {
        if x.left() < 4 {
            return Err(Error::Truncated);
        }
        let v = byte_order::read_u32(x.window(0, 4));
        x.advance(4);
        Ok(v)
    }

    fn write_to_xdr(x: &mut XdrWriter, v: u32) -> (r: Option<Error>) {
        let word = byte_order::write_u32(v);
        x.put(word.as_slice());
        None
    }
}

impl XdrPrimitive for u16 {
    type Value = u16;

    open spec fn value(&self) -> u16 {
        *self
    }

    open spec fn fits(v: u16) -> bool {
        true
    }

    /// The number, widened to a word.
    open spec fn encode(v: u16) -> Seq<u8> {
        word_bytes(v as int)
    }

    /// The low 16 bits of the number in the next word; the high bits are
    /// dropped unseen.
    open spec fn decode(s: Seq<u8>) -> Decoded<u16> {
        if s.len() < 4 {
            refused(Error::Truncated)
        } else {
            Decoded { result: Ok((head_word(s) % 0x1_0000) as u16), consumed: 4 }
        }
    }

    proof fn lemma_encoding_in_words(v: u16) {
    }

    proof fn lemma_decode_in_bounds(s: Seq<u8>) {
    }

    proof fn lemma_round_trip(v: u16, rest: Seq<u8>) {
        lemma_word_value_of_bytes(v as int);
        assert((Self::encode(v) + rest).subrange(0, 4) =~= word_bytes(v as int));
    }

    proof fn lemma_less_than_a_word(s: Seq<u8>) {
    }

    proof fn lemma_truncated(v: u16, k: int) {
    }

    fn read_from_xdr(x: &mut XdrReader) -> (r: Result<u16, Error>) {
        if x.left() < 4 {
            return Err(Error::Truncated);
        }
        let word = byte_order::read_u32(x.window(0, 4));
        proof {
            lemma_narrow_unsigned(word);
        }
        let v = #[verifier::truncate] (word as u16);
        x.advance(4);
        Ok(v)
    }

    fn write_to_xdr(x: &mut XdrWriter, v: u16) -> (r: Option<Error>) {
        let word = byte_order::write_u32(v as u32);
        x.put(word.as_slice());
        None
    }
}

impl XdrPrimitive for u8 {
    type Value = u8;

    open spec fn value(&self) -> u8 {
        *self
    }

    open spec fn fits(v: u8) -> bool {
        true
    }

    /// The number, widened to a word.
    open spec fn encode(v: u8) -> Seq<u8> {
        word_bytes(v as int)
    }

    /// The low 8 bits of the number in the next word; the high bits are
    /// dropped unseen.
    open spec fn decode(s: Seq<u8>) -> Decoded<u8> {
        if s.len() < 4 {
            refused(Error::Truncated)
        } else {
            Decoded { result: Ok((head_word(s) % 0x100) as u8), consumed: 4 }
        }
    }

    proof fn lemma_encoding_in_words(v: u8) {
    }

    proof fn lemma_decode_in_bounds(s: Seq<u8>) {
    }

    proof fn lemma_round_trip(v: u8, rest: Seq<u8>) {
        lemma_word_value_of_bytes(v as int);
        assert((Self::encode(v) + rest).subrange(0, 4) =~= word_bytes(v as int));
    }

    proof fn lemma_less_than_a_word(s: Seq<u8>) {
    }

    proof fn lemma_truncated(v: u8, k: int) {
    }

    fn read_from_xdr(x: &mut XdrReader) -> (r: Result<u8, Error>) {
        if x.left() < 4 {
            return Err(Error::Truncated);
        }
        let word = byte_order::read_u32(x.window(0, 4));
        proof {
            lemma_narrow_unsigned(word);
        }
        let v = #[verifier::truncate] (word as u8);
        x.advance(4);
        Ok(v)
    }

    fn write_to_xdr(x: &mut XdrWriter, v: u8) -> (r: Option<Error>) {
        let word = byte_order::write_u32(v as u32);
        x.put(word.as_slice());
        None
    }
}

impl XdrPrimitive for i8 {
    type Value = i8;

    open spec fn value(&self) -> i8 {
        *self
    }

    open spec fn fits(v: i8) -> bool {
        true
    }

    /// The number, widened to a word with its sign: the word of its two's
    /// complement pattern in 32 bits.
    open spec fn encode(v: i8) -> Seq<u8> {
        word_bytes(to_unsigned(v as int, 32))
    }

    /// The low 8 bits of the next word, read as a signed number; the high
    /// bits are dropped unseen.
    open spec fn decode(s: Seq<u8>) -> Decoded<i8> {
        if s.len() < 4 {
            refused(Error::Truncated)
        } else {
            Decoded { result: Ok(to_signed(head_word(s) % 0x100, 8) as i8), consumed: 4 }
        }
    }

    proof fn lemma_encoding_in_words(v: i8) {
    }

    proof fn lemma_decode_in_bounds(s: Seq<u8>) {
    }

    proof fn lemma_round_trip(v: i8, rest: Seq<u8>) {
        let pattern = to_unsigned(v as int, 32);
        lemma_word_value_of_bytes(pattern);
        assert((Self::encode(v) + rest).subrange(0, 4) =~= word_bytes(pattern));
        assert(to_signed(pattern % 0x100, 8) == v);
    }

    proof fn lemma_less_than_a_word(s: Seq<u8>) {
    }

    proof fn lemma_truncated(v: i8, k: int) {
    }

    fn read_from_xdr(x: &mut XdrReader) -> (r: Result<i8, Error>) {
        if x.left() < 4 {
            return Err(Error::Truncated);
        }
        let word = byte_order::read_i32(x.window(0, 4));
        proof {
            lemma_word_value_bounds(x.remaining().subrange(0, 4));
            lemma_unsigned_signed(head_word(x.remaining()), 32);
            lemma_narrow_signed(word);
        }
        let v = #[verifier::truncate] (word as i8);
        x.advance(4);
        Ok(v)
    }

    fn write_to_xdr(x: &mut XdrWriter, v: i8) -> (r: Option<Error>) {
        let word = byte_order::write_i32(v as i32);
        x.put(word.as_slice());
        None
    }
}

impl XdrPrimitive for i16 {
    type Value = i16;

    open spec fn value(&self) -> i16 {
        *self
    }

    open spec fn fits(v: i16) -> bool {
        true
    }

    /// The number, widened to a word with its sign: the word of its two's
    /// complement pattern in 32 bits.
    open spec fn encode(v: i16) -> Seq<u8> {
        word_bytes(to_unsigned(v as int, 32))
    }

    /// The low 16 bits of the next word, read as a signed number; the high
    /// bits are dropped unseen.
    open spec fn decode(s: Seq<u8>) -> Decoded<i16> {
        if s.len() < 4 {
            refused(Error::Truncated)
        } else {
            Decoded { result: Ok(to_signed(head_word(s) % 0x1_0000, 16) as i16), consumed: 4 }
        }
    }

    proof fn lemma_encoding_in_words(v: i16) {
    }

    proof fn lemma_decode_in_bounds(s: Seq<u8>) {
    }

    proof fn lemma_round_trip(v: i16, rest: Seq<u8>) {
        let pattern = to_unsigned(v as int, 32);
        lemma_word_value_of_bytes(pattern);
        assert((Self::encode(v) + rest).subrange(0, 4) =~= word_bytes(pattern));
        assert(to_signed(pattern % 0x1_0000, 16) == v);
    }

    proof fn lemma_less_than_a_word(s: Seq<u8>) {
    }

    proof fn lemma_truncated(v: i16, k: int) {
    }

    fn read_from_xdr(x: &mut XdrReader) -> (r: Result<i16, Error>) {
        if x.left() < 4 {
            return Err(Error::Truncated);
        }
        let word = byte_order::read_i32(x.window(0, 4));
        proof {
            lemma_word_value_bounds(x.remaining().subrange(0, 4));
            lemma_unsigned_signed(head_word(x.remaining()), 32);
            lemma_narrow_signed(word);
        }
        let v = #[verifier::truncate] (word as i16);
        x.advance(4);
        Ok(v)
    }

    fn write_to_xdr(x: &mut XdrWriter, v: i16) -> (r: Option<Error>) {
        let word = byte_order::write_i32(v as i32);
        x.put(word.as_slice());
        None
    }
}

impl XdrPrimitive for i32 {
    type Value = i32;

    open spec fn value(&self) -> i32 {
        *self
    }

    open spec fn fits(v: i32) -> bool {
        true
    }

    /// The word of the number's two's complement pattern.
    open spec fn encode(v: i32) -> Seq<u8> {
        word_bytes(to_unsigned(v as int, 32))
    }

    /// The next word, read as a signed number.
    open spec fn decode(s: Seq<u8>) -> Decoded<i32> {
        if s.len() < 4 {
            refused(Error::Truncated)
        } else {
            Decoded { result: Ok(to_signed(head_word(s), 32) as i32), consumed: 4 }
        }
    }

    proof fn lemma_encoding_in_words(v: i32) {
    }

    proof fn lemma_decode_in_bounds(s: Seq<u8>) {
    }

    proof fn lemma_round_trip(v: i32, rest: Seq<u8>) {
        let pattern = to_unsigned(v as int, 32);
        lemma_word_value_of_bytes(pattern);
        assert((Self::encode(v) + rest).subrange(0, 4) =~= word_bytes(pattern));
    }

    proof fn lemma_less_than_a_word(s: Seq<u8>) {
    }

    proof fn lemma_truncated(v: i32, k: int) {
    }

    fn read_from_xdr(x: &mut XdrReader) -> (r: Result<i32, Error>) {
        if x.left() < 4 {
            return Err(Error::Truncated);
        }
        let v = byte_order::read_i32(x.window(0, 4));
        x.advance(4);
        Ok(v)
    }

    fn write_to_xdr(x: &mut XdrWriter, v: i32) -> (r: Option<Error>) {
        let word = byte_order::write_i32(v);
        x.put(word.as_slice());
        None
    }
}

impl XdrPrimitive for i64 {
    type Value = i64;

    open spec fn value(&self) -> i64 {
        *self
    }

    open spec fn fits(v: i64) -> bool {
        true
    }

    /// The double word of the number's two's complement pattern.
    open spec fn encode(v: i64) -> Seq<u8> {
        double_word_bytes(to_unsigned(v as int, 64))
    }

    /// The next double word, read as a signed number.
    open spec fn decode(s: Seq<u8>) -> Decoded<i64> {
        if s.len() < 8 {
            refused(Error::Truncated)
        } else {
            Decoded { result: Ok(to_signed(head_double_word(s), 64) as i64), consumed: 8 }
        }
    }

    proof fn lemma_encoding_in_words(v: i64) {
    }

    proof fn lemma_decode_in_bounds(s: Seq<u8>) {
    }

    proof fn lemma_round_trip(v: i64, rest: Seq<u8>) {
        let pattern = to_unsigned(v as int, 64);
        lemma_double_word_value_of_bytes(pattern);
        assert((Self::encode(v) + rest).subrange(0, 8) =~= double_word_bytes(pattern));
    }

    proof fn lemma_less_than_a_word(s: Seq<u8>) {
    }

    proof fn lemma_truncated(v: i64, k: int) {
    }

    fn read_from_xdr(x: &mut XdrReader) -> (r: Result<i64, Error>) {
        if x.left() < 8 {
            return Err(Error::Truncated);
        }
        let v = byte_order::read_i64(x.window(0, 8));
        x.advance(8);
        Ok(v)
    }

    fn write_to_xdr(x: &mut XdrWriter, v: i64) -> (r: Option<Error>) {
        let word = byte_order::write_i64(v);
        x.put(word.as_slice());
        None
    }
}

impl XdrPrimitive for u64 {
    type Value = u64;

    open spec fn value(&self) -> u64 {
        *self
    }

    open spec fn fits(v: u64) -> bool {
        true
    }

    /// The double word of the number.
    open spec fn encode(v: u64) -> Seq<u8> {
        double_word_bytes(v as int)
    }

    /// The number in the next double word.
    open spec fn decode(s: Seq<u8>) -> Decoded<u64> {
        if s.len() < 8 {
            refused(Error::Truncated)
        } else {
            Decoded { result: Ok(head_double_word(s) as u64), consumed: 8 }
        }
    }

    proof fn lemma_encoding_in_words(v: u64) {
    }

    proof fn lemma_decode_in_bounds(s: Seq<u8>) {
    }

    proof fn lemma_round_trip(v: u64, rest: Seq<u8>) {
        lemma_double_word_value_of_bytes(v as int);
        assert((Self::encode(v) + rest).subrange(0, 8) =~= double_word_bytes(v as int));
    }

    proof fn lemma_less_than_a_word(s: Seq<u8>) {
    }

    proof fn lemma_truncated(v: u64, k: int) {
    }

    fn read_from_xdr(x: &mut XdrReader) -> (r: Result<u64, Error>) {
        if x.left() < 8 {
            return Err(Error::Truncated);
        }
        let v = byte_order::read_u64(x.window(0, 8));
        x.advance(8);
        Ok(v)
    }

    fn write_to_xdr(x: &mut XdrWriter, v: u64) -> (r: Option<Error>) {
        let word = byte_order::write_u64(v);
        x.put(word.as_slice());
        None
    }
}

impl XdrPrimitive for bool {
    type Value = bool;

    open spec fn value(&self) -> bool {
        *self
    }

    open spec fn fits(v: bool) -> bool {
        true
    }

    /// The word of 1 for true, of 0 for false.
    open spec fn encode(v: bool) -> Seq<u8> {
        word_bytes(
            if v {
                1
            } else {
                0
            },
        )
    }

    /// False for a word of 0, true for a word of 1; any other word is no
    /// boolean, and is not consumed.
    open spec fn decode(s: Seq<u8>) -> Decoded<bool> {
        if s.len() < 4 {
            refused(Error::Truncated)
        } else if head_word(s) == 0 {
            Decoded { result: Ok(false), consumed: 4 }
        } else if head_word(s) == 1 {
            Decoded { result: Ok(true), consumed: 4 }
        } else {
            refused(Error::InvalidValue)
        }
    }

    proof fn lemma_encoding_in_words(v: bool) {
    }

    proof fn lemma_decode_in_bounds(s: Seq<u8>) {
    }

    proof fn lemma_round_trip(v: bool, rest: Seq<u8>) {
        lemma_word_value_of_bytes(0);
        lemma_word_value_of_bytes(1);
        assert((Self::encode(v) + rest).subrange(0, 4) =~= Self::encode(v));
    }

    proof fn lemma_less_than_a_word(s: Seq<u8>) {
    }

    proof fn lemma_truncated(v: bool, k: int) {
    }

    fn read_from_xdr(x: &mut XdrReader) -> (r: Result<bool, Error>) {
        if x.left() < 4 {
            return Err(Error::Truncated);
        }
        let word = byte_order::read_u32(x.window(0, 4));
        if word == 0 {
            x.advance(4);
            Ok(false)
        } else if word == 1 {
            x.advance(4);
            Ok(true)
        } else {
            Err(Error::InvalidValue)
        }
    }

    fn write_to_xdr(x: &mut XdrWriter, v: bool) -> (r: Option<Error>) {
        let word = if v {
            byte_order::write_u32(1)
        } else {
            byte_order::write_u32(0)
        };
        x.put(word.as_slice());
        None
    }
}

/// The integers of 64 bits need a double word: from less, none of them is
/// decoded and nothing is consumed.
pub proof fn lemma_less_than_a_double_word(s: Seq<u8>)
    requires
        s.len() < 8,
    ensures
        u64::decode(s) == refused::<u64>(Error::Truncated),
        i64::decode(s) == refused::<i64>(Error::Truncated),
{
}

/// A word of 0 decodes to false and a word of 1 to true; every other word
/// fails with `InvalidValue`, and fewer than four bytes with `Truncated`.
pub proof fn lemma_bool_domain(s: Seq<u8>)
    ensures
        s.len() < 4 <==> bool::decode(s).result == Err::<bool, Error>(Error::Truncated),
        s.len() >= 4 && head_word(s) == 0 <==> bool::decode(s).result == Ok::<bool, Error>(false),
        s.len() >= 4 && head_word(s) == 1 <==> bool::decode(s).result == Ok::<bool, Error>(true),
        s.len() >= 4 && head_word(s) > 1 <==> bool::decode(s).result == Err::<bool, Error>(
            Error::InvalidValue,
        ),
        bool::encode(true) == seq![0u8, 0u8, 0u8, 1u8],
        bool::encode(false) == seq![0u8, 0u8, 0u8, 0u8],
{
    lemma_word_value_bounds(s.subrange(0, 4));
    assert(bool::encode(true) =~= seq![0u8, 0u8, 0u8, 1u8]);
    assert(bool::encode(false) =~= seq![0u8, 0u8, 0u8, 0u8]);
}

} // verus!
