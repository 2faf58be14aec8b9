//! Composite types. A record is written as its fields one after another, in
//! order, with nothing between them; a record of positional fields is a
//! tuple, and a longer record nests tuples, which writes the same bytes. A
//! tagged union is written as the zero-based index of its variant in one
//! byte, then the variant's payload.
use crate::buffer::{max_sink_len, sink_bytes, source_bytes};
use crate::decode::Decode;
use crate::encode::Encode;
use crate::error::{DecodeError, EncodeError};
use bytes::{Bytes, BytesMut};
use vstd::prelude::*;

verus! {

impl<A: Encode> Encode for (A,) {
    open spec fn wire(&self) -> Seq<u8> {
        self.0.wire()
    }

    open spec fn encode_failure(&self) -> Option<EncodeError> {
        self.0.encode_failure()
    }

    fn encode(&self, buf: &mut BytesMut) -> (r: Result<usize, EncodeError>) {
        self.0.encode(buf)
    }
}

impl<A: Decode> Decode for (A,) {
    open spec fn parse(input: Seq<u8>) -> Result<((A::V,), Seq<u8>), DecodeError> {
        match A::parse(input) {
            Ok((a, rest)) => Ok(((a,), rest)),
            Err(e) => Err(e),
        }
    }

    open spec fn error_rest(input: Seq<u8>) -> Seq<u8> {
        A::error_rest(input)
    }

    fn decode(buf: &mut Bytes) -> (r: Result<Self, DecodeError>) {
        match A::decode(buf) {
            Ok(a) => Ok((a,)),
            Err(e) => {
                assert(<(A,) as Decode>::error_rest(source_bytes(*old(buf))) == A::error_rest(
                    source_bytes(*old(buf)),
                ));
                Err(e)
            },
        }
    }
}

impl<A: Encode, B: Encode> Encode for (A, B) {
    open spec fn wire(&self) -> Seq<u8> {
        self.0.wire() + self.1.wire()
    }

    /// The first field's error, else the second's.
    open spec fn encode_failure(&self) -> Option<EncodeError> {
        match self.0.encode_failure() {
            Some(e) => Some(e),
            None => self.1.encode_failure(),
        }
    }

    fn encode(&self, buf: &mut BytesMut) -> (r: Result<usize, EncodeError>) {
        let ghost start = sink_bytes(*buf);
        let a = self.0.encode(buf)?;
        let ghost middle = sink_bytes(*buf);
        match self.1.encode(buf) {
            Ok(b) => {
                assert(sink_bytes(*buf) =~= start + self.wire());
                Ok(a + b)
            },
            Err(e) => {
                assert(start.is_prefix_of(middle));
                Err(e)
            },
        }
    }
}

impl<A: Decode, B: Decode> Decode for (A, B) {
    /// The first field, then the second from the bytes that follow it.
    open spec fn parse(input: Seq<u8>) -> Result<((A::V, B::V), Seq<u8>), DecodeError> {
        match A::parse(input) {
            Ok((a, rest)) => match B::parse(rest) {
                Ok((b, after)) => Ok(((a, b), after)),
                Err(e) => Err(e),
            },
            Err(e) => Err(e),
        }
    }

    /// What the failing field leaves.
    open spec fn error_rest(input: Seq<u8>) -> Seq<u8> {
        match A::parse(input) {
            Ok((_, rest)) => B::error_rest(rest),
            Err(_) => A::error_rest(input),
        }
    }

    fn decode(buf: &mut Bytes) -> (r: Result<Self, DecodeError>) {
        let ghost input = source_bytes(*buf);
        let a = match A::decode(buf) {
            Ok(a) => a,
            Err(e) => {
                assert(<(A, B) as Decode>::error_rest(input) == A::error_rest(input));
                return Err(e);
            },
        };
        let ghost middle = source_bytes(*buf);
        match B::decode(buf) {
            Ok(b) => Ok((a, b)),
            Err(e) => {
                assert(<(A, B) as Decode>::error_rest(input) == B::error_rest(middle));
                Err(e)
            },
        }
    }
}

impl<A: Encode, B: Encode, C: Encode> Encode for (A, B, C) {
    open spec fn wire(&self) -> Seq<u8> {
        self.0.wire() + self.1.wire() + self.2.wire()
    }

    /// The error of the first field whose encoding fails.
    open spec fn encode_failure(&self) -> Option<EncodeError> {
        match self.0.encode_failure() {
            Some(e) => Some(e),
            None => match self.1.encode_failure() {
                Some(e) => Some(e),
                None => self.2.encode_failure(),
            },
        }
    }

    fn encode(&self, buf: &mut BytesMut) -> (r: Result<usize, EncodeError>) {
        let ghost start = sink_bytes(*buf);
        let a = self.0.encode(buf)?;
        let ghost first = sink_bytes(*buf);
        let b = match self.1.encode(buf) {
            Ok(b) => b,
            Err(e) => {
                assert(start.is_prefix_of(first));
                return Err(e);
            },
        };
        let ghost second = sink_bytes(*buf);
        assert(second =~= start + self.0.wire() + self.1.wire());
        match self.2.encode(buf) {
            Ok(c) => {
                assert(sink_bytes(*buf) =~= start + self.wire());
                Ok(a + b + c)
            },
            Err(e) => {
                assert(start.is_prefix_of(second));
                Err(e)
            },
        }
    }
}

impl<A: Decode, B: Decode, C: Decode> Decode for (A, B, C) {
    /// The fields in order, each from the bytes that follow the one before.
    open spec fn parse(input: Seq<u8>) -> Result<((A::V, B::V, C::V), Seq<u8>), DecodeError> {
        match A::parse(input) {
            Ok((a, rest)) => match B::parse(rest) {
                Ok((b, rest2)) => match C::parse(rest2) {
                    Ok((c, after)) => Ok(((a, b, c), after)),
                    Err(e) => Err(e),
                },
                Err(e) => Err(e),
            },
            Err(e) => Err(e),
        }
    }

    /// What the failing field leaves.
    open spec fn error_rest(input: Seq<u8>) -> Seq<u8> {
        match A::parse(input) {
            Ok((_, rest)) => match B::parse(rest) {
                Ok((_, rest2)) => C::error_rest(rest2),
                Err(_) => B::error_rest(rest),
            },
            Err(_) => A::error_rest(input),
        }
    }

    fn decode(buf: &mut Bytes) -> (r: Result<Self, DecodeError>) {
        let ghost input = source_bytes(*buf);
        let a = match A::decode(buf) {
            Ok(a) => a,
            Err(e) => {
                assert(<(A, B, C) as Decode>::error_rest(input) == A::error_rest(input));
                return Err(e);
            },
        };
        let ghost first = source_bytes(*buf);
        let b = match B::decode(buf) {
            Ok(b) => b,
            Err(e) => {
                assert(<(A, B, C) as Decode>::error_rest(input) == B::error_rest(first));
                return Err(e);
            },
        };
        let ghost second = source_bytes(*buf);
        match C::decode(buf) {
            Ok(c) => Ok((a, b, c)),
            Err(e) => {
                assert(<(A, B, C) as Decode>::error_rest(input) == C::error_rest(second));
                Err(e)
            },
        }
    }
}

/// The wire form of a tagged union holding variant `index` with the payload
/// encoding `payload`.
pub open spec fn variant_wire(index: u8, payload: Seq<u8>) -> Seq<u8> {
    seq![index] + payload
}

/// What reading the discriminant of a union of `count` variants from `input`
/// gives: the variant's index with the bytes after it, or the error.
pub open spec fn parse_variant_index(count: nat, input: Seq<u8>) -> Result<(u8, Seq<u8>), DecodeError> {
    if input.len() == 0 {
        Err(DecodeError::InsufficientData)
    } else if input[0] < count {
        Ok((input[0], input.drop_first()))
    } else {
        Err(DecodeError::UnknownEnumVariant(input[0]))
    }
}

/// Writes a tagged union's value: the variant's index `index`, then its
/// payload. Returns the number of bytes written.
pub fn encode_variant<P: Encode>(index: u8, payload: &P, buf: &mut BytesMut) -> (r: Result<
    usize,
    EncodeError,
>)
    requires
        sink_bytes(*old(buf)).len() + 1 + payload.wire().len() <= max_sink_len(),
    ensures
        match r {
            Ok(n) => {
                &&& payload.encode_failure() is None
                &&& n == 1 + payload.wire().len()
                &&& sink_bytes(*final(buf)) == sink_bytes(*old(buf)) + variant_wire(
                    index,
                    payload.wire(),
                )
            },
            Err(e) => {
                &&& payload.encode_failure() == Some(e)
                &&& sink_bytes(*old(buf)).is_prefix_of(sink_bytes(*final(buf)))
            },
        },
{
    let ghost start = sink_bytes(*buf);
    let a = index.encode(buf)?;
    let ghost middle = sink_bytes(*buf);
    match payload.encode(buf) {
        Ok(b) => {
            assert(sink_bytes(*buf) =~= start + variant_wire(index, payload.wire()));
            Ok(a + b)
        },
        Err(e) => {
            assert(start.is_prefix_of(middle));
            Err(e)
        },
    }
}

/// Reads the discriminant of a tagged union of `count` variants. A byte
/// that names no variant is an error; the payload is left to the caller.
pub fn decode_variant_index(buf: &mut Bytes, count: usize) -> (r: Result<u8, DecodeError>)
    requires
        count <= 256,
    ensures
        r == Err::<u8, DecodeError>(DecodeError::InsufficientData) ==> source_bytes(*final(buf))
            == source_bytes(*old(buf)),
        r matches Err(DecodeError::UnknownEnumVariant(_)) ==> source_bytes(*final(buf))
            == source_bytes(*old(buf)).drop_first(),
        match r {
            Ok(index) => parse_variant_index(count as nat, source_bytes(*old(buf)))
                == Ok::<(u8, Seq<u8>), DecodeError>((index, source_bytes(*final(buf)))),
            Err(e) => parse_variant_index(count as nat, source_bytes(*old(buf))) == Err::<
                (u8, Seq<u8>),
                DecodeError,
            >(e),
        },
{
    let variant = u8::decode(buf)?;
    if (variant as usize) < count {
        Ok(variant)
    } else {
        Err(DecodeError::UnknownEnumVariant(variant))
    }
}

} // verus!
