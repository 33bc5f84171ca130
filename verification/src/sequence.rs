//! Runs of elements of one type: arrays, whose length the reader is told, and
//! sequences, which carry their length in a word before the first element.

use vstd::prelude::*;
use crate::scalar::head_word;
use crate::wire::{lemma_word_value_bounds, lemma_word_value_of_bytes, word_bytes};
use crate::xdr::{refused, Decoded, Error, XdrPrimitive, XdrReader, XdrWriter};

verus! {

/// The values of the elements of `s`, in order.
pub open spec fn values_of<T: XdrPrimitive>(s: Seq<T>) -> Seq<T::Value> {
    Seq::new(s.len(), |i: int| s[i].value())
}

/// Whether every one of the values can be written.
pub open spec fn all_fit<T: XdrPrimitive>(vs: Seq<T::Value>) -> bool {
    forall|i: int| 0 <= i < vs.len() ==> T::fits(#[trigger] vs[i])
}

/// The encodings of the values one after the other, with nothing between them.
pub open spec fn encode_elements<T: XdrPrimitive>(vs: Seq<T::Value>) -> Seq<u8>
    decreases vs.len(),
{
    if vs.len() == 0 {
        Seq::empty()
    } else {
        encode_elements::<T>(vs.drop_last()) + T::encode(vs.last())
    }
}

/// What decoding `n` elements one after the other from the head of `s` comes
/// to. The first element that fails ends the run with its error; the bytes
/// consumed are those of the elements before it and what the failing element
/// itself consumed.
pub open spec fn decode_elements<T: XdrPrimitive>(s: Seq<u8>, n: nat) -> Decoded<Seq<T::Value>>
    decreases n,
{
    if n == 0 {
        Decoded { result: Ok(Seq::empty()), consumed: 0 }
    } else {
        let before = decode_elements::<T>(s, (n - 1) as nat);
        match before.result {
            Err(_) => before,
            Ok(vs) => {
                let next = T::decode(s.skip(before.consumed as int));
                Decoded {
                    result: match next.result {
                        Ok(v) => Ok(vs.push(v)),
                        Err(e) => Err(e),
                    },
                    consumed: before.consumed + next.consumed,
                }
            },
        }
    }
}

/// Once an element has failed, asking for more elements changes nothing.
pub proof fn lemma_failure_ends_run<T: XdrPrimitive>(s: Seq<u8>, m: nat, n: nat)
    requires
        m <= n,
        decode_elements::<T>(s, m).result is Err,
    ensures
        decode_elements::<T>(s, n) == decode_elements::<T>(s, m),
    decreases n,
{
    if m < n {
        lemma_failure_ends_run::<T>(s, m, (n - 1) as nat);
    }
}

/// A run never consumes more than there is, and a run that succeeds yields as
/// many values as were asked for, each of which can be written again.
pub proof fn lemma_elements_in_bounds<T: XdrPrimitive>(s: Seq<u8>, n: nat)
    ensures
        decode_elements::<T>(s, n).consumed <= s.len(),
        decode_elements::<T>(s, n).result matches Ok(vs) ==> vs.len() == n && all_fit::<T>(vs),
    decreases n,
{
    if n > 0 {
        lemma_elements_in_bounds::<T>(s, (n - 1) as nat);
        let before = decode_elements::<T>(s, (n - 1) as nat);
        if before.result is Ok {
            T::lemma_decode_in_bounds(s.skip(before.consumed as int));
        }
    }
}

/// The encodings of a run fill whole words, at least one for each element.
pub proof fn lemma_elements_in_words<T: XdrPrimitive>(vs: Seq<T::Value>)
    requires
        all_fit::<T>(vs),
    ensures
        encode_elements::<T>(vs).len() % 4 == 0,
        encode_elements::<T>(vs).len() >= 4 * vs.len(),
    decreases vs.len(),
{
    if vs.len() > 0 {
        lemma_elements_in_words::<T>(vs.drop_last());
        T::lemma_encoding_in_words(vs.last());
    }
}

/// Decoding as many elements as were encoded gives the values back and
/// consumes exactly their encodings, whatever follows them.
pub proof fn lemma_elements_round_trip<T: XdrPrimitive>(vs: Seq<T::Value>, rest: Seq<u8>)
    requires
        all_fit::<T>(vs),
    ensures
        decode_elements::<T>(encode_elements::<T>(vs) + rest, vs.len()) == (Decoded {
            result: Ok(vs),
            consumed: encode_elements::<T>(vs).len(),
        }),
    decreases vs.len(),
{
    if vs.len() > 0 {
        let init = vs.drop_last();
        let last = T::encode(vs.last());
        let s = encode_elements::<T>(vs) + rest;
        lemma_elements_round_trip::<T>(init, last + rest);
        assert(s =~= encode_elements::<T>(init) + (last + rest));
        assert(s.skip(encode_elements::<T>(init).len() as int) =~= last + rest);
        T::lemma_round_trip(vs.last(), rest);
        assert(init.push(vs.last()) =~= vs);
    } else {
        assert(vs =~= Seq::empty());
    }
}

/// The encodings of a run, cut short anywhere, decode to `Truncated`.
pub proof fn lemma_elements_truncated<T: XdrPrimitive>(vs: Seq<T::Value>, k: int)
    requires
        all_fit::<T>(vs),
        0 <= k < encode_elements::<T>(vs).len(),
    ensures
        decode_elements::<T>(encode_elements::<T>(vs).subrange(0, k), vs.len()).result == Err::<
            Seq<T::Value>,
            Error,
        >(Error::Truncated),
    decreases vs.len(),
{
    let init = vs.drop_last();
    let whole = encode_elements::<T>(init);
    let last = T::encode(vs.last());
    let cut = encode_elements::<T>(vs).subrange(0, k);
    if k < whole.len() {
        lemma_elements_truncated::<T>(init, k);
        assert(cut =~= whole.subrange(0, k));
    } else {
        let tail = last.subrange(0, k - whole.len());
        lemma_elements_round_trip::<T>(init, tail);
        assert(cut =~= whole + tail);
        assert(cut.skip(whole.len() as int) =~= tail);
        T::lemma_truncated(vs.last(), k - whole.len());
    }
}

/// A run of `m + n` elements is a run of `m` followed, where that succeeds,
/// by a run of `n` from where it ended.
pub proof fn lemma_elements_in_two_runs<T: XdrPrimitive>(s: Seq<u8>, m: nat, n: nat)
    ensures
        decode_elements::<T>(s, m + n) == match decode_elements::<T>(s, m).result {
            Err(_) => decode_elements::<T>(s, m),
            Ok(vs) => {
                let more = decode_elements::<T>(
                    s.skip(decode_elements::<T>(s, m).consumed as int),
                    n,
                );
                Decoded {
                    result: match more.result {
                        Ok(ws) => Ok(vs + ws),
                        Err(e) => Err(e),
                    },
                    consumed: decode_elements::<T>(s, m).consumed + more.consumed,
                }
            },
        },
    decreases n,
{
    let first = decode_elements::<T>(s, m);
    match first.result {
        Err(_) => {
            lemma_failure_ends_run::<T>(s, m, m + n);
        },
        Ok(vs) => {
            let from = s.skip(first.consumed as int);
            if n == 0 {
                assert(vs + Seq::<T::Value>::empty() =~= vs);
            } else {
                lemma_elements_in_two_runs::<T>(s, m, (n - 1) as nat);
                lemma_elements_in_bounds::<T>(s, m);
                lemma_elements_in_bounds::<T>(from, (n - 1) as nat);
                let more = decode_elements::<T>(from, (n - 1) as nat);
                match more.result {
                    Err(_) => {},
                    Ok(ws) => {
                        assert(from.skip(more.consumed as int) =~= s.skip(
                            (first.consumed + more.consumed) as int,
                        ));
                        match T::decode(from.skip(more.consumed as int)).result {
                            Err(_) => {},
                            Ok(v) => {
                                assert((vs + ws).push(v) =~= vs + ws.push(v));
                            },
                        }
                    },
                }
            }
        },
    }
}

/// The encodings of two runs one after the other are the encodings of the
/// one run that holds the values of both.
pub proof fn lemma_encode_two_runs<T: XdrPrimitive>(vs: Seq<T::Value>, ws: Seq<T::Value>)
    ensures
        encode_elements::<T>(vs + ws) == encode_elements::<T>(vs) + encode_elements::<T>(ws),
    decreases ws.len(),
{
    if ws.len() == 0 {
        assert(vs + ws =~= vs);
        assert(encode_elements::<T>(vs) + encode_elements::<T>(ws) =~= encode_elements::<T>(vs));
    } else {
        lemma_encode_two_runs::<T>(vs, ws.drop_last());
        assert((vs + ws).drop_last() =~= vs + ws.drop_last());
        assert(encode_elements::<T>(vs + ws) =~= encode_elements::<T>(vs) + encode_elements::<T>(
            ws,
        ));
    }
}

/// Asking for fewer elements than were encoded gives as many of the first
/// values, and consumes their encodings only.
pub proof fn lemma_count_too_small<T: XdrPrimitive>(vs: Seq<T::Value>, rest: Seq<u8>, n: nat)
    requires
        all_fit::<T>(vs),
        n <= vs.len(),
    ensures
        decode_elements::<T>(encode_elements::<T>(vs) + rest, n) == (Decoded {
            result: Ok(vs.take(n as int)),
            consumed: encode_elements::<T>(vs.take(n as int)).len(),
        }),
{
    let first = vs.take(n as int);
    let others = vs.skip(n as int);
    assert(vs =~= first + others);
    lemma_encode_two_runs::<T>(first, others);
    let behind = encode_elements::<T>(others) + rest;
    assert(encode_elements::<T>(vs) + rest =~= encode_elements::<T>(first) + behind);
    lemma_elements_round_trip::<T>(first, behind);
}

/// Asking for more elements than were encoded gives the values that were
/// encoded, and goes on decoding in whatever bytes follow them.
pub proof fn lemma_count_too_large<T: XdrPrimitive>(vs: Seq<T::Value>, rest: Seq<u8>, n: nat)
    requires
        all_fit::<T>(vs),
        n >= vs.len(),
    ensures
        decode_elements::<T>(encode_elements::<T>(vs) + rest, n) == ({
            let more = decode_elements::<T>(rest, (n - vs.len()) as nat);
            Decoded {
                result: match more.result {
                    Ok(ws) => Ok(vs + ws),
                    Err(e) => Err(e),
                },
                consumed: encode_elements::<T>(vs).len() + more.consumed,
            }
        }),
{
    let s = encode_elements::<T>(vs) + rest;
    lemma_elements_round_trip::<T>(vs, rest);
    lemma_elements_in_two_runs::<T>(s, vs.len(), (n - vs.len()) as nat);
    assert(s.skip(encode_elements::<T>(vs).len() as int) =~= rest);
}

/// Asking for more elements than were encoded, with nothing behind them,
/// fails with `Truncated` once the encoded ones are consumed.
pub proof fn lemma_count_past_end<T: XdrPrimitive>(vs: Seq<T::Value>, n: nat)
    requires
        all_fit::<T>(vs),
        vs.len() < n,
    ensures
        decode_elements::<T>(encode_elements::<T>(vs), n) == (Decoded {
            result: Err::<Seq<T::Value>, Error>(Error::Truncated),
            consumed: encode_elements::<T>(vs).len(),
        }),
{
    let nothing = Seq::<u8>::empty();
    assert(encode_elements::<T>(vs) + nothing =~= encode_elements::<T>(vs));
    lemma_count_too_large::<T>(vs, nothing, n);
    T::lemma_less_than_a_word(nothing);
    assert(nothing.skip(0) =~= nothing);
    assert(decode_elements::<T>(nothing, 0).result is Ok);
    assert(decode_elements::<T>(nothing, 1) == refused::<Seq<T::Value>>(Error::Truncated));
    lemma_failure_ends_run::<T>(nothing, 1, (n - vs.len()) as nat);
}

impl<T: XdrPrimitive> XdrPrimitive for Vec<T> {
    type Value = Seq<T::Value>;

    open spec fn value(&self) -> Seq<T::Value> {
        values_of::<T>(self@)
    }

    /// The count fits a word, and every element can be written.
    open spec fn fits(v: Seq<T::Value>) -> bool {
        v.len() <= u32::MAX && all_fit::<T>(v)
    }

    /// The word of the count of elements, then the elements.
    open spec fn encode(v: Seq<T::Value>) -> Seq<u8> {
        word_bytes(v.len() as int) + encode_elements::<T>(v)
    }

    /// The count in the next word, then as many elements.
    open spec fn decode(s: Seq<u8>) -> Decoded<Seq<T::Value>> {
        if s.len() < 4 {
            refused(Error::Truncated)
        } else {
            let elements = decode_elements::<T>(s.skip(4), head_word(s) as nat);
            Decoded { result: elements.result, consumed: 4 + elements.consumed }
        }
    }

    proof fn lemma_encoding_in_words(v: Seq<T::Value>) {
        lemma_elements_in_words::<T>(v);
    }

    proof fn lemma_decode_in_bounds(s: Seq<u8>) {
        if s.len() >= 4 {
            lemma_word_value_bounds(s.subrange(0, 4));
            lemma_elements_in_bounds::<T>(s.skip(4), head_word(s) as nat);
        }
    }

    proof fn lemma_round_trip(v: Seq<T::Value>, rest: Seq<u8>) {
        let s = Self::encode(v) + rest;
        lemma_word_value_of_bytes(v.len() as int);
        assert(s.subrange(0, 4) =~= word_bytes(v.len() as int));
        assert(s.skip(4) =~= encode_elements::<T>(v) + rest);
        lemma_elements_round_trip::<T>(v, rest);
    }

    proof fn lemma_less_than_a_word(s: Seq<u8>) {
    }

    proof fn lemma_truncated(v: Seq<T::Value>, k: int) {
        let cut = Self::encode(v).subrange(0, k);
        if k >= 4 {
            lemma_word_value_of_bytes(v.len() as int);
            assert(cut.subrange(0, 4) =~= word_bytes(v.len() as int));
            assert(cut.skip(4) =~= encode_elements::<T>(v).subrange(0, k - 4));
            lemma_elements_truncated::<T>(v, k - 4);
        }
    }

    fn read_from_xdr(x: &mut XdrReader) -> (r: Result<Vec<T>, Error>) {
        let ghost input = x.remaining();
        let count = match x.unpack::<u32>() {
            Ok(n) => n as usize,
            Err(e) => {
                return Err(e);
            },
        };
        assert(x.remaining() =~= input.skip(4));
        x.unpack_array::<T>(count)
    }

    fn write_to_xdr(x: &mut XdrWriter, v: Vec<T>) -> (r: Option<Error>) {
        x.pack(v.len() as u32);
        x.pack_array(v);
        assert(x@ =~= old(x)@ + Self::encode(v.value()));
        None
    }
}

} // verus!
