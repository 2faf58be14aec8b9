//! Decoding: the `Decode` trait, its parse model, and the codecs of the
//! primitive types and of bounded sequences.
use crate::buffer::{
    lemma_u32_from_be, source_bytes, source_from_slice, try_fill, try_get_u32, try_get_u8,
    u32_from_be,
};
use crate::error::DecodeError;
use crate::MAX_ARRAY_LENGTH;
use bytes::Bytes;
use vstd::prelude::*;

verus! {

/// A type whose values can be read from the pickle format. A decoded value is
/// described by its deep view.
pub trait Decode: Sized + DeepView {
    /// What decoding from `input` gives: the decoded value with the bytes
    /// that follow it, or the error.
    spec fn parse(input: Seq<u8>) -> Result<(Self::V, Seq<u8>), DecodeError>;

    /// The bytes left in the source when decoding from `input` fails.
    spec fn error_rest(input: Seq<u8>) -> Seq<u8>;

    /// Reads a value from the front of `buf`. Whatever the outcome, `buf`
    /// only advances: what is left is a suffix of what was there.
    fn decode(buf: &mut Bytes) -> (r: Result<Self, DecodeError>)
        ensures
            source_bytes(*final(buf)).is_suffix_of(source_bytes(*old(buf))),
            match r {
                Ok(v) => Self::parse(source_bytes(*old(buf))) == Ok::<
                    (Self::V, Seq<u8>),
                    DecodeError,
                >((v.deep_view(), source_bytes(*final(buf)))),
                Err(e) => {
                    &&& Self::parse(source_bytes(*old(buf))) == Err::<
                        (Self::V, Seq<u8>),
                        DecodeError,
                    >(e)
                    &&& source_bytes(*final(buf)) == Self::error_rest(source_bytes(*old(buf)))
                },
            },
    ;

    /// Reads a value from the front of a byte slice; bytes after it are
    /// ignored.
    fn decode_from_slice(buf: &[u8]) -> (r: Result<Self, DecodeError>)
        ensures
            match r {
                Ok(v) => Self::parse(buf@) is Ok && Self::parse(buf@)->Ok_0.0 == v.deep_view(),
                Err(e) => Self::parse(buf@) == Err::<(Self::V, Seq<u8>), DecodeError>(e),
            },
    {
        let mut source = source_from_slice(buf);
        Self::decode(&mut source)
    }
}

impl Decode for u8 {
    open spec fn parse(input: Seq<u8>) -> Result<(u8, Seq<u8>), DecodeError> {
        if input.len() >= 1 {
            Ok((input[0], input.drop_first()))
        } else {
            Err(DecodeError::InsufficientData)
        }
    }

    /// Nothing is read from a source that is too short.
    open spec fn error_rest(input: Seq<u8>) -> Seq<u8> {
        input
    }

    fn decode(buf: &mut Bytes) -> (r: Result<Self, DecodeError>) {
        match try_get_u8(buf) {
            Ok(b) => Ok(b),
            Err(_) => {
                assert(Self::error_rest(source_bytes(*old(buf))) == source_bytes(*old(buf)));
                Err(DecodeError::InsufficientData)
            },
        }
    }
}

impl Decode for bool {
    /// Any byte but 0 reads as `true`.
    open spec fn parse(input: Seq<u8>) -> Result<(bool, Seq<u8>), DecodeError> {
        match u8::parse(input) {
            Ok((b, rest)) => Ok((b != 0, rest)),
            Err(e) => Err(e),
        }
    }

    open spec fn error_rest(input: Seq<u8>) -> Seq<u8> {
        input
    }

    fn decode(buf: &mut Bytes) -> (r: Result<Self, DecodeError>) {
        let ghost input = source_bytes(*buf);
        match u8::decode(buf) {
            Ok(value) => Ok(value != 0),
            Err(e) => {
                assert(Self::error_rest(input) == input);
                Err(e)
            },
        }
    }
}

impl Decode for u32 {
    open spec fn parse(input: Seq<u8>) -> Result<(u32, Seq<u8>), DecodeError> {
        if input.len() >= 4 {
            Ok((u32_from_be(input), input.skip(4)))
        } else {
            Err(DecodeError::InsufficientData)
        }
    }

    /// Nothing is read from a source that is too short.
    open spec fn error_rest(input: Seq<u8>) -> Seq<u8> {
        input
    }

    fn decode(buf: &mut Bytes) -> (r: Result<Self, DecodeError>) {
        match try_get_u32(buf) {
            Ok(v) => {
                proof {
                    lemma_u32_from_be(v);
                }
                Ok(v)
            },
            Err(_) => {
                assert(Self::error_rest(source_bytes(*old(buf))) == source_bytes(*old(buf)));
                Err(DecodeError::InsufficientData)
            },
        }
    }
}

impl Decode for usize {
    /// The 32-bit form, which must fit into this machine's `usize`.
    open spec fn parse(input: Seq<u8>) -> Result<(usize, Seq<u8>), DecodeError> {
        match u32::parse(input) {
            Ok((n, rest)) => if n <= usize::MAX {
                Ok((n as usize, rest))
            } else {
                Err(DecodeError::OutsideUsizeRange(n as u64))
            },
            Err(e) => Err(e),
        }
    }

    /// A size that does not fit leaves the source after its four bytes; a
    /// source that is too short is not read.
    open spec fn error_rest(input: Seq<u8>) -> Seq<u8> {
        match u32::parse(input) {
            Ok((_, rest)) => rest,
            Err(_) => input,
        }
    }

    fn decode(buf: &mut Bytes) -> (r: Result<Self, DecodeError>) {
        let ghost input = source_bytes(*buf);
        let size = match u32::decode(buf) {
            Ok(size) => size,
            Err(e) => {
                assert(Self::error_rest(input) == input);
                return Err(e);
            },
        };
        if size as u64 <= usize::MAX as u64 {
            Ok(size as usize)
        } else {
            assert(Self::error_rest(input) == source_bytes(*buf));
            Err(DecodeError::OutsideUsizeRange(size as u64))
        }
    }
}

/// What decoding a fixed array of `n` bytes from `input` gives.
pub open spec fn parse_fixed(n: nat, input: Seq<u8>) -> Result<(Seq<u8>, Seq<u8>), DecodeError> {
    if input.len() >= n {
        Ok((input.take(n as int), input.skip(n as int)))
    } else {
        Err(DecodeError::InsufficientData)
    }
}

impl<const N: usize> Decode for [u8; N] {
    open spec fn parse(input: Seq<u8>) -> Result<(Seq<u8>, Seq<u8>), DecodeError> {
        parse_fixed(N as nat, input)
    }

    /// Nothing is read from a source that is too short.
    open spec fn error_rest(input: Seq<u8>) -> Seq<u8> {
        input
    }

    fn decode(buf: &mut Bytes) -> (r: Result<Self, DecodeError>) {
        let mut dest = [0u8; N];
        match try_fill(buf, &mut dest) {
            Ok(_) => {
                assert(dest.deep_view() =~= dest@);
                Ok(dest)
            },
            Err(_) => {
                assert(Self::error_rest(source_bytes(*old(buf))) == source_bytes(*old(buf)));
                Err(DecodeError::InsufficientData)
            },
        }
    }
}

impl<const N: usize> Decode for Box<[u8; N]> {
    /// The same bytes as the unboxed array; the bytes are written straight
    /// into the heap allocation.
    open spec fn parse(input: Seq<u8>) -> Result<(Seq<u8>, Seq<u8>), DecodeError> {
        parse_fixed(N as nat, input)
    }

    /// Nothing is read from a source that is too short.
    open spec fn error_rest(input: Seq<u8>) -> Seq<u8> {
        input
    }

    fn decode(buf: &mut Bytes) -> (r: Result<Self, DecodeError>) {
        let mut dest = Box::new([0u8; N]);
        match try_fill(buf, &mut *dest) {
            Ok(_) => {
                assert(dest.deep_view() =~= dest@);
                Ok(dest)
            },
            Err(_) => {
                assert(Self::error_rest(source_bytes(*old(buf))) == source_bytes(*old(buf)));
                Err(DecodeError::InsufficientData)
            },
        }
    }
}

/// What decoding `count` elements one after another from `input` gives.
pub open spec fn parse_elems<T: Decode>(count: nat, input: Seq<u8>) -> Result<
    (Seq<T::V>, Seq<u8>),
    DecodeError,
>
    decreases count,
{
    if count == 0 {
        Ok((Seq::empty(), input))
    } else {
        match parse_elems::<T>((count - 1) as nat, input) {
            Ok((vs, rest)) => match T::parse(rest) {
                Ok((v, after)) => Ok((vs.push(v), after)),
                Err(e) => Err(e),
            },
            Err(e) => Err(e),
        }
    }
}

/// The bytes left when decoding `count` elements from `input` fails: those
/// that the first failing element leaves.
pub open spec fn elems_error_rest<T: Decode>(count: nat, input: Seq<u8>) -> Seq<u8>
    decreases count,
{
    if count == 0 {
        input
    } else {
        match parse_elems::<T>((count - 1) as nat, input) {
            Ok((_, rest)) => T::error_rest(rest),
            Err(_) => elems_error_rest::<T>((count - 1) as nat, input),
        }
    }
}

/// Once decoding some elements fails, decoding more of them leaves the same
/// bytes.
pub proof fn lemma_elems_error_rest<T: Decode>(k: nat, m: nat, input: Seq<u8>)
    requires
        k <= m,
        parse_elems::<T>(k, input) is Err,
    ensures
        elems_error_rest::<T>(m, input) == elems_error_rest::<T>(k, input),
    decreases m - k,
{
    if k < m {
        lemma_parse_elems_error::<T>(k, (m - 1) as nat, input);
        lemma_elems_error_rest::<T>(k, (m - 1) as nat, input);
    }
}

/// What decoding a bounded sequence from `input` gives: the length is read
/// and checked against the bound before any element is read.
pub open spec fn parse_seq<T: Decode>(input: Seq<u8>) -> Result<(Seq<T::V>, Seq<u8>), DecodeError> {
    match usize::parse(input) {
        Ok((n, rest)) => if n > MAX_ARRAY_LENGTH {
            Err(DecodeError::ArrayTooBig(n))
        } else {
            parse_elems::<T>(n as nat, rest)
        },
        Err(e) => Err(e),
    }
}

/// A suffix of a suffix of `c` is a suffix of `c`.
pub proof fn lemma_suffix_trans(a: Seq<u8>, b: Seq<u8>, c: Seq<u8>)
    requires
        a.is_suffix_of(b),
        b.is_suffix_of(c),
    ensures
        a.is_suffix_of(c),
{
    assert(a =~= c.subrange(c.len() - a.len(), c.len() as int));
}

/// Once decoding some elements fails, decoding more of them fails the same way.
pub proof fn lemma_parse_elems_error<T: Decode>(k: nat, m: nat, input: Seq<u8>)
    requires
        k <= m,
        parse_elems::<T>(k, input) is Err,
    ensures
        parse_elems::<T>(m, input) == parse_elems::<T>(k, input),
    decreases m - k,
{
    if k < m {
        lemma_parse_elems_error::<T>(k, (m - 1) as nat, input);
    }
}

impl<T: Decode> Decode for Vec<T> {
    open spec fn parse(input: Seq<u8>) -> Result<(Seq<T::V>, Seq<u8>), DecodeError> {
        parse_seq::<T>(input)
    }

    /// A length above the bound leaves the bytes after the length field.
    open spec fn error_rest(input: Seq<u8>) -> Seq<u8> {
        match usize::parse(input) {
            Ok((n, rest)) => if n > MAX_ARRAY_LENGTH {
                rest
            } else {
                elems_error_rest::<T>(n as nat, rest)
            },
            Err(_) => usize::error_rest(input),
        }
    }

    /// A length above the bound is refused after reading the four bytes of
    /// the length field and nothing more.
    fn decode(buf: &mut Bytes) -> (r: Result<Self, DecodeError>)
        ensures
            (match usize::parse(source_bytes(*old(buf))) {
                Ok((n, _)) => n > MAX_ARRAY_LENGTH,
                Err(_) => false,
            }) ==> source_bytes(*final(buf)) == source_bytes(*old(buf)).skip(4),
    {
        let ghost input = source_bytes(*buf);
        let length = match usize::decode(buf) {
            Ok(length) => length,
            Err(e) => {
                assert(Self::error_rest(input) == usize::error_rest(input));
                return Err(e);
            },
        };
        if length > MAX_ARRAY_LENGTH {
            assert(Self::error_rest(input) == source_bytes(*buf));
            return Err(DecodeError::ArrayTooBig(length));
        }
        let elems_start = Ghost(source_bytes(*buf));
        let mut dest: Vec<T> = Vec::with_capacity(length);
        let mut i: usize = 0;
        assert(dest.deep_view() =~= Seq::<T::V>::empty());
        while i < length
            invariant
                i <= length <= MAX_ARRAY_LENGTH,
                usize::parse(source_bytes(*old(buf))) == Ok::<(usize, Seq<u8>), DecodeError>(
                    (length, elems_start@),
                ),
                parse_elems::<T>(i as nat, elems_start@) == Ok::<(Seq<T::V>, Seq<u8>), DecodeError>(
                    (dest.deep_view(), source_bytes(*buf)),
                ),
                source_bytes(*buf).is_suffix_of(source_bytes(*old(buf))),
            decreases length - i,
        {
            let ghost before_element = source_bytes(*buf);
            let element = match T::decode(buf) {
                Ok(element) => element,
                Err(e) => {
                    proof {
                        lemma_parse_elems_error::<T>(i as nat + 1, length as nat, elems_start@);
                        lemma_elems_error_rest::<T>(i as nat + 1, length as nat, elems_start@);
                        assert(elems_error_rest::<T>(i as nat + 1, elems_start@) == T::error_rest(
                            before_element,
                        ));
                        assert(Self::error_rest(source_bytes(*old(buf))) == elems_error_rest::<T>(
                            length as nat,
                            elems_start@,
                        ));
                        lemma_suffix_trans(
                            source_bytes(*buf),
                            before_element,
                            source_bytes(*old(buf)),
                        );
                    }
                    return Err(e);
                },
            };
            proof {
                lemma_suffix_trans(source_bytes(*buf), before_element, source_bytes(*old(buf)));
            }
            let ghost before = dest.deep_view();
            dest.push(element);
            assert(dest.deep_view() =~= before.push(element.deep_view()));
            i = i + 1;
        }
        Ok(dest)
    }
}

} // verus!
