//! The encoding of strings: the count of the bytes of the text in UTF-8, the
//! bytes, and zero bytes up to a word boundary.
//!
//! The padding is `4 - len % 4` bytes: a text whose length is a multiple of
//! four is followed by a whole word of zeros, not by none. Other
//! implementations of the format write no padding there, and their strings of
//! such lengths are not read correctly by this one, nor this one's by them.

use std::string::FromUtf8Error;
use vstd::prelude::*;
use vstd::slice::slice_to_vec;
use vstd::utf8::{
    decode_utf8, decode_utf8_encode_utf8, encode_utf8, encode_utf8_decode_utf8,
    encode_utf8_valid_utf8, valid_utf8,
};
use crate::byte_order;
use crate::scalar::head_word;
use crate::wire::{
    lemma_padding, lemma_word_value_bounds, lemma_word_value_of_bytes, padding, word_bytes, zeros,
};
use crate::xdr::{refused, Decoded, Error, XdrPrimitive, XdrReader, XdrWriter};

verus! {

/// The number of bytes in a word, to which strings are padded.
const PADDING: usize = 4;

/// The error of `String::from_utf8`, which is passed on unread.
#[verifier::external_type_specification]
#[verifier::external_body]
pub struct ExFromUtf8Error(FromUtf8Error);

/// `String::from_utf8` succeeds on the bytes that are well-formed UTF-8 and on
/// no others, and the string it gives has exactly those bytes.
pub assume_specification[ String::from_utf8 ](vec: Vec<u8>) -> (r: Result<String, FromUtf8Error>)
    ensures
        r is Ok <==> valid_utf8(vec@),
        r matches Ok(s) ==> encode_utf8(s@) == vec@,
;

/// The number of bytes that the encoding of a text of `len` bytes takes.
pub open spec fn string_width(len: nat) -> nat {
    4 + len + padding(len)
}

impl XdrPrimitive for String {
    type Value = Seq<char>;

    open spec fn value(&self) -> Seq<char> {
        self@
    }

    /// The count of the bytes of the text fits a word.
    open spec fn fits(v: Seq<char>) -> bool {
        encode_utf8(v).len() <= u32::MAX
    }

    /// The word of the count of bytes, the bytes of the text in UTF-8, and the
    /// padding.
    open spec fn encode(v: Seq<char>) -> Seq<u8> {
        let bytes = encode_utf8(v);
        word_bytes(bytes.len() as int) + bytes + zeros(padding(bytes.len()))
    }

    /// The count in the next word, as many bytes of text, and the padding,
    /// whose bytes are passed over unread. Count, text and padding must all be
    /// there before the text is judged.
    open spec fn decode(s: Seq<u8>) -> Decoded<Seq<char>> {
        if s.len() < 4 {
            refused(Error::Truncated)
        } else {
            let len = head_word(s) as nat;
            let text = s.subrange(4, 4 + len as int);
            if s.len() < string_width(len) {
                refused(Error::Truncated)
            } else if !valid_utf8(text) {
                refused(Error::InvalidValue)
            } else {
                Decoded { result: Ok(decode_utf8(text)), consumed: string_width(len) }
            }
        }
    }

    proof fn lemma_encoding_in_words(v: Seq<char>) {
        lemma_padding(encode_utf8(v).len());
    }

    proof fn lemma_decode_in_bounds(s: Seq<u8>) {
        if s.len() >= 4 {
            let len = head_word(s) as nat;
            let text = s.subrange(4, 4 + len as int);
            lemma_word_value_bounds(s.subrange(0, 4));
            if s.len() >= string_width(len) && valid_utf8(text) {
                decode_utf8_encode_utf8(text);
            }
        }
    }

    proof fn lemma_round_trip(v: Seq<char>, rest: Seq<u8>) {
        let bytes = encode_utf8(v);
        let s = Self::encode(v) + rest;
        lemma_word_value_of_bytes(bytes.len() as int);
        assert(s.subrange(0, 4) =~= word_bytes(bytes.len() as int));
        assert(s.subrange(4, 4 + bytes.len() as int) =~= bytes);
        encode_utf8_valid_utf8(v);
        encode_utf8_decode_utf8(v);
    }

    proof fn lemma_less_than_a_word(s: Seq<u8>) {
    }

    proof fn lemma_truncated(v: Seq<char>, k: int) {
        let bytes = encode_utf8(v);
        let cut = Self::encode(v).subrange(0, k);
        if k >= 4 {
            lemma_word_value_of_bytes(bytes.len() as int);
            assert(cut.subrange(0, 4) =~= word_bytes(bytes.len() as int));
        }
    }

    fn read_from_xdr(x: &mut XdrReader) -> (r: Result<String, Error>) {
        if x.left() < 4 {
            return Err(Error::Truncated);
        }
        let len = byte_order::read_u32(x.window(0, 4)) as usize;
        let pad = PADDING - len % PADDING;
        if x.left() - 4 < len {
            return Err(Error::Truncated);
        }
        if x.left() - 4 - len < pad {
            return Err(Error::Truncated);
        }
        let bytes = x.copy(4, len);
        match String::from_utf8(bytes) {
            Ok(s) => {
                proof {
                    encode_utf8_decode_utf8(s@);
                }
                x.advance(4 + len + pad);
                Ok(s)
            },
            Err(_) => Err(Error::InvalidValue),
        }
    }

    fn write_to_xdr(x: &mut XdrWriter, v: String) -> (r: Option<Error>) {
        let bytes = v.as_str().as_bytes();
        let len = bytes.len();
        let pad = PADDING - len % PADDING;
        x.pack_opaque_var_len(slice_to_vec(bytes));
        x.pad(pad)
    }
}

/// The encoding of a string fills whole words, and where the length of the
/// text is no multiple of four it is the shortest that holds the count and the
/// text: its length is the least multiple of four that is no less than four
/// plus the length of the text.
pub proof fn lemma_string_width(v: Seq<char>)
    requires
        String::fits(v),
    ensures
        String::encode(v).len() == string_width(encode_utf8(v).len()),
        String::encode(v).len() % 4 == 0,
        String::encode(v).len() >= 4 + encode_utf8(v).len(),
        encode_utf8(v).len() % 4 != 0 ==> String::encode(v).len() < 4 + encode_utf8(v).len() + 4,
        encode_utf8(v).len() % 4 == 0 ==> String::encode(v).len() == 4 + encode_utf8(v).len() + 4,
{
    lemma_padding(encode_utf8(v).len());
}

} // verus!
