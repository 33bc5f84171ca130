//! The writer, the reader, the errors and the interface that every type the
//! codec carries implements.
//!
//! A decode of a scalar, a boolean, a string or an opaque block either
//! succeeds and moves the cursor over the whole encoding, or fails and leaves
//! the cursor where it was. Sequences and arrays are decoded element by
//! element: when an element fails, the cursor stays behind the elements that
//! were decoded before it.
//!
//! Opaque blocks are written and read as they are, without padding to a word
//! boundary. A caller that places a block inside a larger encoding brings it
//! to the boundary with [`XdrWriter::pad`], and passes over those bytes when
//! reading.

use vstd::prelude::*;
use vstd::slice::slice_subrange;
use crate::byte_order;
use crate::sequence::{
    all_fit, decode_elements, encode_elements, lemma_failure_ends_run, values_of,
};
use crate::wire::{lemma_word_value_of_bytes, word_bytes, word_value, zeros};

verus! {

/// Why a value could not be decoded.
#[derive(Debug, Clone, Copy, PartialEq, Eq, Structural)]
pub enum Error {
    /// Fewer bytes remain than the value needs.
    Truncated,
    /// The bytes are all there and denote nothing of the requested type.
    InvalidValue,
    /// The requested shape is not one the format defines. The types of this
    /// crate never give this error; it is there for types defined elsewhere.
    InvalidType,
}

impl Error {
    /// The text that `description` gives for each error.
    pub open spec fn text(self) -> Seq<char> {
        match self {
            Error::Truncated => "Truncated input."@,
            Error::InvalidValue => "Invalid value."@,
            Error::InvalidType => "Invalid type."@,
        }
    }

    /// A short sentence that names the error.
    pub fn description(&self) -> (r: &'static str)
        ensures
            r@ == self.text(),
    {
        match self {
            Error::Truncated => "Truncated input.",
            Error::InvalidValue => "Invalid value.",
            Error::InvalidType => "Invalid type.",
        }
    }
}

/// What decoding at the head of a byte sequence comes to: the value or the
/// failure, and the number of bytes the cursor moves over.
pub struct Decoded<V> {
    pub result: Result<V, Error>,
    pub consumed: nat,
}

/// A failed decode that consumed nothing.
pub open spec fn refused<V>(e: Error) -> Decoded<V> {
    Decoded { result: Err(e), consumed: 0 }
}

/// A block of `n` raw bytes at the head of `s`: taken whole, or not at all.
pub open spec fn decode_opaque(s: Seq<u8>, n: nat) -> Decoded<Seq<u8>> {
    if s.len() < n {
        refused(Error::Truncated)
    } else {
        Decoded { result: Ok(s.subrange(0, n as int)), consumed: n }
    }
}

/// A block of raw bytes behind the word that counts them.
pub open spec fn encode_counted_opaque(bytes: Seq<u8>) -> Seq<u8>
    recommends
        bytes.len() <= u32::MAX,
{
    word_bytes(bytes.len() as int) + bytes
}

/// A counted block at the head of `s`: the count, then as many raw bytes,
/// taken whole or not at all.
pub open spec fn decode_counted_opaque(s: Seq<u8>) -> Decoded<Seq<u8>> {
    if s.len() < 4 {
        refused(Error::Truncated)
    } else {
        let n = word_value(s.subrange(0, 4));
        if s.len() - 4 < n {
            refused(Error::Truncated)
        } else {
            Decoded { result: Ok(s.subrange(4, 4 + n)), consumed: (4 + n) as nat }
        }
    }
}

/// A block is read back whole from where it was written, whatever follows it.
pub proof fn lemma_opaque_round_trip(bytes: Seq<u8>, rest: Seq<u8>)
    ensures
        decode_opaque(bytes + rest, bytes.len()) == (Decoded {
            result: Ok(bytes),
            consumed: bytes.len(),
        }),
{
    assert((bytes + rest).subrange(0, bytes.len() as int) =~= bytes);
}

/// A block cut short is not read at all.
pub proof fn lemma_opaque_truncated(bytes: Seq<u8>, k: int)
    requires
        0 <= k < bytes.len(),
    ensures
        decode_opaque(bytes.subrange(0, k), bytes.len()) == refused::<Seq<u8>>(Error::Truncated),
{
}

/// A counted block is read back whole from where it was written, whatever
/// follows it.
pub proof fn lemma_counted_opaque_round_trip(bytes: Seq<u8>, rest: Seq<u8>)
    requires
        bytes.len() <= u32::MAX,
    ensures
        decode_counted_opaque(encode_counted_opaque(bytes) + rest) == (Decoded {
            result: Ok(bytes),
            consumed: encode_counted_opaque(bytes).len(),
        }),
{
    let s = encode_counted_opaque(bytes) + rest;
    lemma_word_value_of_bytes(bytes.len() as int);
    assert(s.subrange(0, 4) =~= word_bytes(bytes.len() as int));
    assert(s.subrange(4, 4 + bytes.len() as int) =~= bytes);
}

/// A counted block cut short anywhere, in its count or in its bytes, is not
/// read at all.
pub proof fn lemma_counted_opaque_truncated(bytes: Seq<u8>, k: int)
    requires
        bytes.len() <= u32::MAX,
        0 <= k < encode_counted_opaque(bytes).len(),
    ensures
        decode_counted_opaque(encode_counted_opaque(bytes).subrange(0, k)) == refused::<Seq<u8>>(
            Error::Truncated,
        ),
{
    let cut = encode_counted_opaque(bytes).subrange(0, k);
    if k >= 4 {
        lemma_word_value_of_bytes(bytes.len() as int);
        assert(cut.subrange(0, 4) =~= word_bytes(bytes.len() as int));
    }
}

/// A type with an encoding: the integers of 8 to 64 bits, `bool`, `String`,
/// and `Vec` of any such type.
///
/// The encoding is stated over `Value`, the mathematical value that an
/// instance stands for. `encode` and `decode` are the format; the proof
/// functions are what holds of it for every implementing type; the two
/// executable functions are proved to follow `decode` and `encode`.
pub trait XdrPrimitive: Sized {
    /// What an instance denotes: itself for integers and booleans, a sequence
    /// of characters for a string, a sequence of values for a sequence.
    type Value;

    /// The value of this instance.
    spec fn value(&self) -> Self::Value;

    /// Whether the value can be written: whether every count in it fits the
    /// word that carries it.
    spec fn fits(v: Self::Value) -> bool;

    /// The bytes that stand for `v`.
    spec fn encode(v: Self::Value) -> Seq<u8>;

    /// What the bytes at the head of `s` decode to.
    spec fn decode(s: Seq<u8>) -> Decoded<Self::Value>;

    /// Every encoding is a whole, positive number of words.
    proof fn lemma_encoding_in_words(v: Self::Value)
        requires
            Self::fits(v),
        ensures
            Self::encode(v).len() >= 4,
            Self::encode(v).len() % 4 == 0,
    ;

    /// Decoding never runs past the end of the input, and what it yields can
    /// be written again.
    proof fn lemma_decode_in_bounds(s: Seq<u8>)
        ensures
            Self::decode(s).consumed <= s.len(),
            Self::decode(s).result matches Ok(v) ==> Self::fits(v),
    ;

    /// Decoding the encoding of `v` gives `v` and consumes exactly the
    /// encoding, whatever follows it.
    proof fn lemma_round_trip(v: Self::Value, rest: Seq<u8>)
        requires
            Self::fits(v),
        ensures
            Self::decode(Self::encode(v) + rest) == (Decoded {
                result: Ok(v),
                consumed: Self::encode(v).len(),
            }),
    ;

    /// No value is decoded from less than a word: such an input is refused as
    /// `Truncated`, and none of it is consumed.
    proof fn lemma_less_than_a_word(s: Seq<u8>)
        requires
            s.len() < 4,
        ensures
            Self::decode(s) == refused::<Self::Value>(Error::Truncated),
    ;

    /// An encoding cut short anywhere decodes to `Truncated`.
    proof fn lemma_truncated(v: Self::Value, k: int)
        requires
            Self::fits(v),
            0 <= k < Self::encode(v).len(),
        ensures
            Self::decode(Self::encode(v).subrange(0, k)).result == Err::<Self::Value, Error>(
                Error::Truncated,
            ),
    ;

    /// Decodes one value at the cursor.
    fn read_from_xdr(x: &mut XdrReader) -> (r: Result<Self, Error>)
        ensures
            final(x).follows(old(x), Self::decode(old(x).remaining()).consumed),
            match r {
                Ok(v) => Self::decode(old(x).remaining()).result == Ok::<Self::Value, Error>(
                    v.value(),
                ),
                Err(e) => Self::decode(old(x).remaining()).result == Err::<Self::Value, Error>(e),
            },
    ;

    /// Appends the encoding of `v`.
    fn write_to_xdr(x: &mut XdrWriter, v: Self) -> (r: Option<Error>)
        requires
            Self::fits(v.value()),
        ensures
            r is None,
            final(x)@ == old(x)@ + Self::encode(v.value()),
    ;
}

/// The result of a decode with the value in place of the instance.
pub open spec fn outcome<T: XdrPrimitive>(r: Result<T, Error>) -> Result<T::Value, Error> {
    match r {
        Ok(v) => Ok(v.value()),
        Err(e) => Err(e),
    }
}

/// A value is read back from wherever its encoding stands in a buffer: with
/// the cursor behind `before`, decoding gives `v` and moves the cursor to
/// the start of `after`.
pub proof fn lemma_round_trip_in_place<T: XdrPrimitive>(
    before: Seq<u8>,
    v: T::Value,
    after: Seq<u8>,
)
    requires
        T::fits(v),
    ensures
        T::decode((before + T::encode(v) + after).skip(before.len() as int)) == (Decoded {
            result: Ok(v),
            consumed: T::encode(v).len(),
        }),
{
    assert((before + T::encode(v) + after).skip(before.len() as int) =~= T::encode(v) + after);
    T::lemma_round_trip(v, after);
}

/// Appends encodings to a buffer that it owns.
pub struct XdrWriter {
    buf: Vec<u8>,
}

impl View for XdrWriter {
    type V = Seq<u8>;

    /// The bytes written so far.
    closed spec fn view(&self) -> Seq<u8> {
        self.buf@
    }
}

impl XdrWriter {
    /// A writer with nothing written.
    pub fn new() -> (w: XdrWriter)
        ensures
            w@ == Seq::<u8>::empty(),
    {
        XdrWriter { buf: Vec::new() }
    }

    /// Ends the writing and hands out the bytes.
    pub fn into_buffer(self) -> (v: Vec<u8>)
        ensures
            v@ == self@,
    {
        self.buf
    }

    /// Appends the encoding of `x`. It never fails: the result is there for
    /// callers that expect one, and is always `None`.
    pub fn pack<T: XdrPrimitive>(&mut self, x: T) -> (r: Option<Error>)
        requires
            T::fits(x.value()),
        ensures
            r is None,
            final(self)@ == old(self)@ + T::encode(x.value()),
    {
        T::write_to_xdr(self, x)
    }

    /// Appends the encodings of the elements one after the other, with no count.
    pub fn pack_array<T: XdrPrimitive>(&mut self, x: Vec<T>) -> (r: Option<Error>)
        requires
            all_fit::<T>(values_of(x@)),
        ensures
            r is None,
            final(self)@ == old(self)@ + encode_elements::<T>(values_of(x@)),
    {
        let ghost values = values_of(x@);
        for t in it: x
            invariant
                it.seq() == x@,
                values == values_of(x@),
                all_fit::<T>(values),
                self@ == old(self)@ + encode_elements::<T>(values.take(it.index() as int)),
        {
            let ghost done = values.take(it.index() as int);
            let ghost more = values.take(it.index() + 1);
            assert(more.drop_last() =~= done);
            assert(more.last() == t.value());
            assert(T::fits(values[it.index() as int]));
            T::write_to_xdr(self, t);
        }
        assert(values.take(x@.len() as int) =~= values);
        None
    }

    /// Appends the count of the bytes as a word, then the bytes as they are.
    pub fn pack_opaque_var_len(&mut self, x: Vec<u8>) -> (r: Option<Error>)
        requires
            x@.len() <= u32::MAX,
        ensures
            r is None,
            final(self)@ == old(self)@ + encode_counted_opaque(x@),
    {
        self.pack(x.len() as u32);
        self.pack_opaque_fixed_len(x);
        assert(self@ =~= old(self)@ + encode_counted_opaque(x@));
        None
    }

    /// Appends the bytes as they are, with no count and no padding.
    pub fn pack_opaque_fixed_len(&mut self, x: Vec<u8>) -> (r: Option<Error>)
        ensures
            r is None,
            final(self)@ == old(self)@ + x@,
    {
        self.put(x.as_slice());
        None
    }

    /// Appends `len` zero bytes.
    pub fn pad(&mut self, len: usize) -> (r: Option<Error>)
        ensures
            r is None,
            final(self)@ == old(self)@ + zeros(len as nat),
    {
        let mut i: usize = 0;
        while i < len
            invariant
                i <= len,
                self@ == old(self)@ + zeros(i as nat),
            decreases len - i,
        {
            self.buf.push(0);
            i = i + 1;
        }
        None
    }

    /// Appends the bytes of a slice.
    pub(crate) fn put(&mut self, bytes: &[u8])
        ensures
            final(self)@ == old(self)@ + bytes@,
    {
        let mut i: usize = 0;
        while i < bytes.len()
            invariant
                i <= bytes@.len(),
                self@ == old(self)@ + bytes@.subrange(0, i as int),
            decreases bytes@.len() - i,
        {
            self.buf.push(bytes[i]);
            i = i + 1;
        }
    }
}

/// Walks a buffer that it only reads, with a cursor that only moves forward.
pub struct XdrReader<'a> {
    data: &'a [u8],
    pos: usize,
}

impl<'a> XdrReader<'a> {
    #[verifier::type_invariant]
    spec fn cursor_in_buffer(self) -> bool {
        self.pos <= self.data@.len()
    }

    /// The whole input.
    pub closed spec fn buffer(&self) -> Seq<u8> {
        self.data@
    }

    /// The cursor: the number of bytes consumed so far.
    pub closed spec fn position(&self) -> nat {
        self.pos as nat
    }

    /// The bytes from the cursor on.
    pub open spec fn remaining(&self) -> Seq<u8> {
        self.buffer().skip(self.position() as int)
    }

    /// This reader is `before` with the cursor `consumed` bytes further on,
    /// still inside the same input.
    pub open spec fn follows(&self, before: &Self, consumed: nat) -> bool {
        &&& self.buffer() == before.buffer()
        &&& self.position() == before.position() + consumed
        &&& self.position() <= self.buffer().len()
    }

    /// A reader at the start of the bytes of a vector.
    pub fn new(x: &'a Vec<u8>) -> (r: XdrReader<'a>)
        ensures
            r.buffer() == x@,
            r.position() == 0,
    {
        XdrReader { data: x.as_slice(), pos: 0 }
    }

    /// A reader at the start of a slice.
    pub fn from_array(x: &'a [u8]) -> (r: XdrReader<'a>)
        ensures
            r.buffer() == x@,
            r.position() == 0,
    {
        XdrReader { data: x, pos: 0 }
    }

    /// Decodes one value at the cursor: `T::decode` says of every input what
    /// the result is and how far the cursor moves.
    pub fn unpack<T: XdrPrimitive>(&mut self) -> (r: Result<T, Error>)
        ensures
            final(self).follows(old(self), T::decode(old(self).remaining()).consumed),
            outcome(r) == T::decode(old(self).remaining()).result,
    {
        T::read_from_xdr(self)
    }

    /// Decodes `n` elements one after the other, with no count before them.
    /// The first element that fails ends the decoding with its error, and
    /// the cursor stays where that element left it.
    pub fn unpack_array<T: XdrPrimitive>(&mut self, n: usize) -> (r: Result<Vec<T>, Error>)
        ensures
            final(self).follows(
                old(self),
                decode_elements::<T>(old(self).remaining(), n as nat).consumed,
            ),
            match r {
                Ok(v) => decode_elements::<T>(old(self).remaining(), n as nat).result == Ok::<
                    Seq<T::Value>,
                    Error,
                >(values_of(v@)),
                Err(e) => decode_elements::<T>(old(self).remaining(), n as nat).result == Err::<
                    Seq<T::Value>,
                    Error,
                >(e),
            },
    {
        let ghost input = self.remaining();
        let mut result: Vec<T> = Vec::new();
        let mut i: usize = 0;
        assert(values_of::<T>(result@) =~= Seq::empty());
        proof {
            use_type_invariant(&*self);
        }
        while i < n
            invariant
                i <= n,
                input == old(self).remaining(),
                self.follows(old(self), decode_elements::<T>(input, i as nat).consumed),
                decode_elements::<T>(input, i as nat).result == Ok::<Seq<T::Value>, Error>(
                    values_of(result@),
                ),
            decreases n - i,
        {
            let ghost done = decode_elements::<T>(input, i as nat);
            assert(self.remaining() =~= input.skip(done.consumed as int));
            match T::read_from_xdr(self) {
                Ok(v) => {
                    let ghost values = values_of(result@);
                    result.push(v);
                    assert(values_of(result@) =~= values.push(v.value()));
                },
                Err(e) => {
                    proof {
                        lemma_failure_ends_run::<T>(input, (i + 1) as nat, n as nat);
                    }
                    return Err(e);
                },
            }
            i = i + 1;
        }
        Ok(result)
    }

    /// Decodes a word that counts the bytes of a block, then the block. Where
    /// the count or any byte of the block is missing, the result is
    /// `Truncated` and the cursor stays.
    pub fn unpack_opaque_var_len(&mut self) -> (r: Result<Vec<u8>, Error>)
        ensures
            final(self).follows(old(self), decode_counted_opaque(old(self).remaining()).consumed),
            match r {
                Ok(v) => decode_counted_opaque(old(self).remaining()).result == Ok::<
                    Seq<u8>,
                    Error,
                >(v@),
                Err(e) => decode_counted_opaque(old(self).remaining()).result == Err::<
                    Seq<u8>,
                    Error,
                >(e),
            },
    {
        if self.left() < 4 {
            return Err(Error::Truncated);
        }
        let len = byte_order::read_u32(self.window(0, 4)) as usize;
        if self.left() - 4 < len {
            return Err(Error::Truncated);
        }
        let v = self.copy(4, len);
        self.advance(4 + len);
        Ok(v)
    }

    /// Decodes a block of `len` raw bytes. Where fewer remain, the result is
    /// `Truncated` and the cursor stays.
    pub fn unpack_opaque_fixed_len(&mut self, len: usize) -> (r: Result<Vec<u8>, Error>)
        ensures
            final(self).follows(
                old(self),
                decode_opaque(old(self).remaining(), len as nat).consumed,
            ),
            match r {
                Ok(v) => decode_opaque(old(self).remaining(), len as nat).result == Ok::<
                    Seq<u8>,
                    Error,
                >(v@),
                Err(e) => decode_opaque(old(self).remaining(), len as nat).result == Err::<
                    Seq<u8>,
                    Error,
                >(e),
            },
    {
        if self.left() < len {
            return Err(Error::Truncated);
        }
        let v = self.copy(0, len);
        self.advance(len);
        Ok(v)
    }

    /// The number of bytes from the cursor to the end.
    pub(crate) fn left(&self) -> (n: usize)
        ensures
            n == self.remaining().len(),
            self.position() <= self.buffer().len(),
    {
        proof {
            use_type_invariant(self);
        }
        self.data.len() - self.pos
    }

    /// The `n` bytes that lie `from` bytes behind the cursor.
    pub(crate) fn window(&self, from: usize, n: usize) -> (w: &'a [u8])
        requires
            from + n <= self.remaining().len(),
        ensures
            w@ == self.remaining().subrange(from as int, from + n),
    {
        proof {
            use_type_invariant(self);
        }
        let end = self.data.len();
        assert(self.pos + from + n <= end);
        let w = slice_subrange(self.data, self.pos + from, self.pos + from + n);
        assert(w@ =~= self.remaining().subrange(from as int, from + n));
        w
    }

    /// A copy of the `n` bytes that lie `from` bytes behind the cursor.
    pub(crate) fn copy(&self, from: usize, n: usize) -> (v: Vec<u8>)
        requires
            from + n <= self.remaining().len(),
        ensures
            v@ == self.remaining().subrange(from as int, from + n),
    {
        let w = self.window(from, n);
        let mut v: Vec<u8> = Vec::new();
        let mut i: usize = 0;
        while i < n
            invariant
                i <= n,
                w@.len() == n,
                v@ == w@.subrange(0, i as int),
            decreases n - i,
        {
            v.push(w[i]);
            i = i + 1;
        }
        assert(w@.subrange(0, n as int) =~= w@);
        v
    }

    /// Moves the cursor over `n` bytes.
    pub(crate) fn advance(&mut self, n: usize)
        requires
            n <= old(self).remaining().len(),
        ensures
            final(self).follows(old(self), n as nat),
            final(self).remaining() == old(self).remaining().skip(n as int),
    {
        proof {
            use_type_invariant(&*self);
        }
        let end = self.data.len();
        assert(self.pos + n <= end);
        self.pos = self.pos + n;
        assert(self.remaining() =~= old(self).remaining().skip(n as int));
    }
}

} // verus!
