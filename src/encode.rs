//! Encoding: the `Encode` trait, its wire model, and the codecs of the
//! primitive types and of bounded sequences.
use crate::buffer::{
    be_u32, max_sink_len, new_sink, put_slice, put_u32, put_u8, sink_bytes, sink_into_vec,
};
use crate::error::EncodeError;
use crate::MAX_ARRAY_LENGTH;
use bytes::BytesMut;
use vstd::prelude::*;

verus! {

/// A type whose values can be written in the pickle format.
pub trait Encode {
    /// The bytes that encoding this value writes.
    spec fn wire(&self) -> Seq<u8>;

    /// The error that encoding this value fails with, or `None` when it
    /// succeeds.
    spec fn encode_failure(&self) -> Option<EncodeError>;

    /// Writes the value to `buf` and returns the number of bytes written.
    /// On failure the bytes written before the failure stay in `buf`.
    fn encode(&self, buf: &mut BytesMut) -> (r: Result<usize, EncodeError>)
        requires
            sink_bytes(*old(buf)).len() + self.wire().len() <= max_sink_len(),
        ensures
            match r {
                Ok(n) => {
                    &&& self.encode_failure() is None
                    &&& n == self.wire().len()
                    &&& sink_bytes(*final(buf)) == sink_bytes(*old(buf)) + self.wire()
                },
                Err(e) => {
                    &&& self.encode_failure() == Some(e)
                    &&& sink_bytes(*old(buf)).is_prefix_of(sink_bytes(*final(buf)))
                },
            },
    ;

    /// Encodes the value into a new vector.
    fn encode_to_vec(&self) -> (r: Result<Vec<u8>, EncodeError>)
        requires
            self.wire().len() <= max_sink_len(),
        ensures
            match r {
                Ok(v) => self.encode_failure() is None && v@ == self.wire(),
                Err(e) => self.encode_failure() == Some(e),
            },
    {
        let mut buffer = new_sink();
        match self.encode(&mut buffer) {
            Ok(_) => {
                assert(sink_bytes(buffer) =~= self.wire());
                Ok(sink_into_vec(buffer))
            },
            Err(e) => Err(e),
        }
    }
}

impl Encode for u8 {
    open spec fn wire(&self) -> Seq<u8> {
        seq![*self]
    }

    open spec fn encode_failure(&self) -> Option<EncodeError> {
        None
    }

    fn encode(&self, buf: &mut BytesMut) -> (r: Result<usize, EncodeError>) {
        put_u8(buf, *self);
        Ok(1)
    }
}

impl Encode for bool {
    /// `true` is written as 1 and `false` as 0.
    open spec fn wire(&self) -> Seq<u8> {
        seq![if *self { 1u8 } else { 0u8 }]
    }

    open spec fn encode_failure(&self) -> Option<EncodeError> {
        None
    }

    fn encode(&self, buf: &mut BytesMut) -> (r: Result<usize, EncodeError>) {
        let byte: u8 = if *self { 1 } else { 0 };
        byte.encode(buf)
    }
}

impl Encode for u32 {
    open spec fn wire(&self) -> Seq<u8> {
        be_u32(*self)
    }

    open spec fn encode_failure(&self) -> Option<EncodeError> {
        None
    }

    fn encode(&self, buf: &mut BytesMut) -> (r: Result<usize, EncodeError>) {
        put_u32(buf, *self);
        Ok(4)
    }
}

impl Encode for usize {
    /// A size is always written in the 32-bit form.
    open spec fn wire(&self) -> Seq<u8> {
        be_u32(*self as u32)
    }

    open spec fn encode_failure(&self) -> Option<EncodeError> {
        if *self > u32::MAX {
            Some(EncodeError::OutsideU32Range(*self))
        } else {
            None
        }
    }

    /// A size above `u32::MAX` is refused before anything is written.
    fn encode(&self, buf: &mut BytesMut) -> (r: Result<usize, EncodeError>)
        ensures
            *self > u32::MAX ==> sink_bytes(*final(buf)) == sink_bytes(*old(buf)),
    {
        if *self > u32::MAX as usize {
            return Err(EncodeError::OutsideU32Range(*self));
        }
        (*self as u32).encode(buf)
    }
}

impl<const N: usize> Encode for [u8; N] {
    /// The raw bytes, with no length prefix.
    open spec fn wire(&self) -> Seq<u8> {
        self@
    }

    open spec fn encode_failure(&self) -> Option<EncodeError> {
        None
    }

    fn encode(&self, buf: &mut BytesMut) -> (r: Result<usize, EncodeError>) {
        put_slice(buf, self.as_slice());
        Ok(N)
    }
}

impl<const N: usize> Encode for Box<[u8; N]> {
    /// The same bytes as the unboxed array.
    open spec fn wire(&self) -> Seq<u8> {
        (**self).wire()
    }

    open spec fn encode_failure(&self) -> Option<EncodeError> {
        None
    }

    fn encode(&self, buf: &mut BytesMut) -> (r: Result<usize, EncodeError>) {
        (**self).encode(buf)
    }
}

/// The encodings of the elements of `s`, one after another.
pub open spec fn wire_all<T: Encode>(s: Seq<T>) -> Seq<u8>
    decreases s.len(),
{
    if s.len() == 0 {
        Seq::empty()
    } else {
        wire_all(s.drop_last()) + s.last().wire()
    }
}

/// The error of the first element of `s` whose encoding fails.
pub open spec fn first_failure<T: Encode>(s: Seq<T>) -> Option<EncodeError>
    decreases s.len(),
{
    if s.len() == 0 {
        None
    } else {
        match first_failure(s.drop_last()) {
            Some(e) => Some(e),
            None => s.last().encode_failure(),
        }
    }
}

/// The index of the first element of `s` whose encoding fails (meaningful
/// when `first_failure(s)` is `Some`).
pub open spec fn first_failure_index<T: Encode>(s: Seq<T>) -> int
    decreases s.len(),
{
    if s.len() == 0 {
        0
    } else if first_failure(s.drop_last()) is Some {
        first_failure_index(s.drop_last())
    } else {
        s.len() - 1
    }
}

/// The sink after a bounded sequence's encoding stopped at a failing element:
/// what was there, the length field, then the elements before the failing one.
pub open spec fn seq_failed_prefix<T: Encode>(before: Seq<u8>, s: Seq<T>) -> Seq<u8> {
    before + be_u32(s.len() as u32) + wire_all(s.take(first_failure_index(s)))
}

/// The wire form of a bounded sequence: its length, then its elements.
pub open spec fn seq_wire<T: Encode>(s: Seq<T>) -> Seq<u8> {
    be_u32(s.len() as u32) + wire_all(s)
}

/// How encoding a bounded sequence fails: on its length first, then on its
/// first failing element.
pub open spec fn seq_failure<T: Encode>(s: Seq<T>) -> Option<EncodeError> {
    if s.len() > MAX_ARRAY_LENGTH {
        Some(EncodeError::ArrayTooBig(s.len() as usize))
    } else {
        first_failure(s)
    }
}

/// Encoding the first `i + 1` elements adds element `i` to the first `i`.
pub proof fn lemma_wire_all_step<T: Encode>(s: Seq<T>, i: int)
    requires
        0 <= i < s.len(),
    ensures
        wire_all(s.take(i + 1)) == wire_all(s.take(i)) + s[i].wire(),
        first_failure(s.take(i + 1)) == (match first_failure(s.take(i)) {
            Some(e) => Some(e),
            None => s[i].encode_failure(),
        }),
{
    assert(s.take(i + 1).drop_last() =~= s.take(i));
}

/// The encoding of a prefix of `s` is a prefix of the encoding of `s`.
pub proof fn lemma_wire_all_prefix<T: Encode>(s: Seq<T>, i: int)
    requires
        0 <= i <= s.len(),
    ensures
        wire_all(s.take(i)).is_prefix_of(wire_all(s)),
    decreases s.len() - i,
{
    if i == s.len() {
        assert(s.take(i) =~= s);
    } else {
        lemma_wire_all_step(s, i);
        lemma_wire_all_prefix(s, i + 1);
    }
}

/// Once an element of a prefix fails, the whole sequence fails the same way.
pub proof fn lemma_first_failure_prefix<T: Encode>(s: Seq<T>, i: int)
    requires
        0 <= i <= s.len(),
        first_failure(s.take(i)) is Some,
    ensures
        first_failure(s) == first_failure(s.take(i)),
    decreases s.len() - i,
{
    if i == s.len() {
        assert(s.take(i) =~= s);
    } else {
        lemma_wire_all_step(s, i);
        lemma_first_failure_prefix(s, i + 1);
    }
}

/// The first failing element is the first one that fails after a prefix
/// that encodes.
pub proof fn lemma_first_failure_index<T: Encode>(s: Seq<T>, i: int)
    requires
        0 <= i < s.len(),
        first_failure(s.take(i)) is None,
        s[i].encode_failure() is Some,
    ensures
        first_failure_index(s) == i,
        first_failure(s) == s[i].encode_failure(),
{
    lemma_wire_all_step(s, i);
    lemma_first_failure_prefix(s, i + 1);
    lemma_failure_index_prefix(s, i + 1);
    assert(s.take(i + 1).drop_last() =~= s.take(i));
}

/// Once a prefix of `s` holds a failing element, the first failing element
/// of `s` is the prefix's.
proof fn lemma_failure_index_prefix<T: Encode>(s: Seq<T>, j: int)
    requires
        0 <= j <= s.len(),
        first_failure(s.take(j)) is Some,
    ensures
        first_failure_index(s) == first_failure_index(s.take(j)),
    decreases s.len(),
{
    if j == s.len() {
        assert(s.take(j) =~= s);
    } else {
        let d = s.drop_last();
        assert(d.take(j) =~= s.take(j));
        lemma_first_failure_prefix(d, j);
        lemma_failure_index_prefix(d, j);
    }
}

impl<T: Encode> Encode for [T] {
    /// A 4-byte big-endian length, then each element's encoding.
    open spec fn wire(&self) -> Seq<u8> {
        seq_wire(self@)
    }

    open spec fn encode_failure(&self) -> Option<EncodeError> {
        seq_failure(self@)
    }

    /// A sequence over the bound is refused before anything is written; one
    /// whose element fails leaves the length field and the elements before
    /// that one in the sink.
    fn encode(&self, buf: &mut BytesMut) -> (r: Result<usize, EncodeError>)
        ensures
            self@.len() > MAX_ARRAY_LENGTH ==> sink_bytes(*final(buf)) == sink_bytes(*old(buf)),
            self@.len() <= MAX_ARRAY_LENGTH && r is Err ==> seq_failed_prefix(
                sink_bytes(*old(buf)),
                self@,
            ).is_prefix_of(sink_bytes(*final(buf))),
    {
        let length = self.len();
        if length > MAX_ARRAY_LENGTH {
            return Err(EncodeError::ArrayTooBig(length));
        }
        let start = Ghost(sink_bytes(*buf));
        let mut ret = length.encode(buf)?;
        let mut i: usize = 0;
        while i < length
            invariant
                i <= length == self@.len() <= MAX_ARRAY_LENGTH,
                start@ == sink_bytes(*old(buf)),
                start@.len() + self.wire().len() <= max_sink_len(),
                sink_bytes(*buf) == start@ + be_u32(length as u32) + wire_all(self@.take(i as int)),
                first_failure(self@.take(i as int)) is None,
                ret == 4 + wire_all(self@.take(i as int)).len(),
            decreases length - i,
        {
            proof {
                lemma_wire_all_step(self@, i as int);
                lemma_wire_all_prefix(self@, i as int + 1);
            }
            let n = match self[i].encode(buf) {
                Ok(n) => n,
                Err(e) => {
                    proof {
                        lemma_first_failure_index(self@, i as int);
                    }
                    return Err(e);
                },
            };
            ret = ret + n;
            i = i + 1;
        }
        assert(self@.take(length as int) =~= self@);
        Ok(ret)
    }
}

impl<T: Encode> Encode for Vec<T> {
    /// The same bytes as the slice of its elements.
    open spec fn wire(&self) -> Seq<u8> {
        seq_wire(self@)
    }

    open spec fn encode_failure(&self) -> Option<EncodeError> {
        seq_failure(self@)
    }

    /// As for the slice of its elements.
    fn encode(&self, buf: &mut BytesMut) -> (r: Result<usize, EncodeError>)
        ensures
            self@.len() > MAX_ARRAY_LENGTH ==> sink_bytes(*final(buf)) == sink_bytes(*old(buf)),
            self@.len() <= MAX_ARRAY_LENGTH && r is Err ==> seq_failed_prefix(
                sink_bytes(*old(buf)),
                self@,
            ).is_prefix_of(sink_bytes(*final(buf))),
    {
        self.as_slice().encode(buf)
    }
}

} // verus!
