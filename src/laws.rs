//! What holds between encoding and decoding: every value that encodes
//! decodes back to itself, every cut-short encoding fails for want of data,
//! and the sequence bound, the discriminant check and the boolean reading
//! behave the same on both sides.
use crate::buffer::{be_u32, lemma_u32_from_be};
use crate::compose::{parse_variant_index, variant_wire};
use crate::decode::{parse_elems, parse_fixed, parse_seq, Decode};
use crate::encode::{
    first_failure, lemma_first_failure_prefix, lemma_wire_all_step, seq_failure, wire_all, Encode,
};
use crate::error::{DecodeError, EncodeError};
use crate::MAX_ARRAY_LENGTH;
use vstd::prelude::*;

verus! {

/// A type whose decoding undoes its encoding.
pub trait RoundTrip: Encode + Decode {
    /// Decoding the bytes that encoding `v` writes gives `v` back and leaves
    /// the bytes that follow them.
    proof fn lemma_round_trip(v: Self, rest: Seq<u8>)
        requires
            v.encode_failure() is None,
        ensures
            Self::parse(v.wire() + rest) == Ok::<(Self::V, Seq<u8>), DecodeError>(
                (v.deep_view(), rest),
            ),
    ;

    /// Decoding the first `k` bytes of the encoding of `v`, for any `k`
    /// short of its full length, fails with `InsufficientData`.
    proof fn lemma_truncated(v: Self, k: nat)
        requires
            v.encode_failure() is None,
            k < v.wire().len(),
        ensures
            Self::parse(v.wire().take(k as int)) == Err::<(Self::V, Seq<u8>), DecodeError>(
                DecodeError::InsufficientData,
            ),
    ;
}

impl RoundTrip for u8 {
    proof fn lemma_round_trip(v: Self, rest: Seq<u8>) {
        let input = v.wire() + rest;
        assert(input[0] == v);
        assert(input.drop_first() =~= rest);
    }

    proof fn lemma_truncated(v: Self, k: nat) {
    }
}

impl RoundTrip for bool {
    proof fn lemma_round_trip(v: Self, rest: Seq<u8>) {
        let input = v.wire() + rest;
        assert(input[0] == if v { 1u8 } else { 0u8 });
        assert(input.drop_first() =~= rest);
    }

    proof fn lemma_truncated(v: Self, k: nat) {
    }
}

/// Reading a `u32` from its big-endian bytes followed by anything.
proof fn lemma_u32_round_trip(v: u32, rest: Seq<u8>)
    ensures
        u32::parse(be_u32(v) + rest) == Ok::<(u32, Seq<u8>), DecodeError>((v, rest)),
{
    let input = be_u32(v) + rest;
    lemma_u32_from_be(v);
    assert(input[0] == be_u32(v)[0] && input[1] == be_u32(v)[1] && input[2] == be_u32(v)[2]
        && input[3] == be_u32(v)[3]);
    assert(input.skip(4) =~= rest);
}

impl RoundTrip for u32 {
    proof fn lemma_round_trip(v: Self, rest: Seq<u8>) {
        lemma_u32_round_trip(v, rest);
    }

    proof fn lemma_truncated(v: Self, k: nat) {
    }
}

impl RoundTrip for usize {
    proof fn lemma_round_trip(v: Self, rest: Seq<u8>) {
        lemma_u32_round_trip(v as u32, rest);
    }

    proof fn lemma_truncated(v: Self, k: nat) {
    }
}

impl<const N: usize> RoundTrip for [u8; N] {
    proof fn lemma_round_trip(v: Self, rest: Seq<u8>) {
        let input = v.wire() + rest;
        assert(v@.len() == N);
        assert(input.take(N as int) =~= v@);
        assert(input.skip(N as int) =~= rest);
        assert(v.deep_view() =~= v@);
    }

    proof fn lemma_truncated(v: Self, k: nat) {
    }
}

impl<const N: usize> RoundTrip for Box<[u8; N]> {
    proof fn lemma_round_trip(v: Self, rest: Seq<u8>) {
        <[u8; N] as RoundTrip>::lemma_round_trip(*v, rest);
    }

    proof fn lemma_truncated(v: Self, k: nat) {
    }
}

/// The deep views of the elements of `s`.
pub open spec fn deep_views<T: DeepView>(s: Seq<T>) -> Seq<T::V> {
    Seq::new(s.len(), |i: int| s[i].deep_view())
}

/// In a sequence that encodes, every element encodes.
proof fn lemma_element_encodes<T: Encode>(s: Seq<T>, i: int)
    requires
        0 <= i < s.len(),
        first_failure(s) is None,
    ensures
        first_failure(s.take(i)) is None,
        s[i].encode_failure() is None,
{
    lemma_wire_all_step(s, i);
    if first_failure(s.take(i + 1)) is Some {
        lemma_first_failure_prefix(s, i + 1);
    }
}

/// Decoding `i` elements from the encodings of the first `i` elements of `s`
/// gives those elements back.
proof fn lemma_elems_round_trip<T: RoundTrip>(s: Seq<T>, i: nat, tail: Seq<u8>)
    requires
        i <= s.len(),
        first_failure(s) is None,
    ensures
        parse_elems::<T>(i, wire_all(s.take(i as int)) + tail) == Ok::<
            (Seq<T::V>, Seq<u8>),
            DecodeError,
        >((deep_views(s.take(i as int)), tail)),
    decreases i,
{
    if i == 0 {
        assert(wire_all(s.take(0)) + tail =~= tail);
        assert(deep_views(s.take(0)) =~= Seq::<T::V>::empty());
    } else {
        let j = (i - 1) as nat;
        lemma_wire_all_step(s, j as int);
        lemma_element_encodes(s, j as int);
        let w = s[j as int].wire();
        assert(wire_all(s.take(i as int)) + tail =~= wire_all(s.take(j as int)) + (w + tail));
        lemma_elems_round_trip(s, j, w + tail);
        T::lemma_round_trip(s[j as int], tail);
        assert(deep_views(s.take(i as int)) =~= deep_views(s.take(j as int)).push(
            s[j as int].deep_view(),
        ));
    }
}

/// Decoding `i` elements from a cut-short encoding of the first `i` elements
/// of `s` fails for want of data.
proof fn lemma_elems_truncated<T: RoundTrip>(s: Seq<T>, i: nat, c: nat)
    requires
        i <= s.len(),
        first_failure(s) is None,
        c < wire_all(s.take(i as int)).len(),
    ensures
        parse_elems::<T>(i, wire_all(s.take(i as int)).take(c as int)) == Err::<
            (Seq<T::V>, Seq<u8>),
            DecodeError,
        >(DecodeError::InsufficientData),
    decreases i,
{
    if i == 0 {
        assert(s.take(0) =~= Seq::<T>::empty());
    } else {
        let j = (i - 1) as nat;
        lemma_wire_all_step(s, j as int);
        lemma_element_encodes(s, j as int);
        let x = wire_all(s.take(j as int));
        let w = s[j as int].wire();
        if c < x.len() {
            assert((x + w).take(c as int) =~= x.take(c as int));
            lemma_elems_truncated(s, j, c);
        } else {
            let d = (c - x.len()) as nat;
            assert((x + w).take(c as int) =~= x + w.take(d as int));
            lemma_elems_round_trip(s, j, w.take(d as int));
            T::lemma_truncated(s[j as int], d);
        }
    }
}

impl<T: RoundTrip> RoundTrip for Vec<T> {
    proof fn lemma_round_trip(v: Self, rest: Seq<u8>) {
        let s = v@;
        let n = s.len() as u32;
        lemma_u32_round_trip(n, wire_all(s) + rest);
        assert(v.wire() + rest =~= be_u32(n) + (wire_all(s) + rest));
        assert(s.take(s.len() as int) =~= s);
        lemma_elems_round_trip(s, s.len(), rest);
        assert(v.deep_view() =~= deep_views(s));
    }

    proof fn lemma_truncated(v: Self, k: nat) {
        let s = v@;
        let n = s.len() as u32;
        let input = v.wire().take(k as int);
        if k >= 4 {
            let c = (k - 4) as nat;
            assert(input =~= be_u32(n) + wire_all(s).take(c as int));
            lemma_u32_round_trip(n, wire_all(s).take(c as int));
            assert(s.take(s.len() as int) =~= s);
            lemma_elems_truncated(s, s.len(), c);
        }
    }
}

impl<A: RoundTrip> RoundTrip for (A,) {
    proof fn lemma_round_trip(v: Self, rest: Seq<u8>) {
        A::lemma_round_trip(v.0, rest);
    }

    proof fn lemma_truncated(v: Self, k: nat) {
        A::lemma_truncated(v.0, k);
    }
}

impl<A: RoundTrip, B: RoundTrip> RoundTrip for (A, B) {
    proof fn lemma_round_trip(v: Self, rest: Seq<u8>) {
        assert(v.wire() + rest =~= v.0.wire() + (v.1.wire() + rest));
        A::lemma_round_trip(v.0, v.1.wire() + rest);
        B::lemma_round_trip(v.1, rest);
    }

    proof fn lemma_truncated(v: Self, k: nat) {
        let a = v.0.wire();
        let b = v.1.wire();
        if k < a.len() {
            assert(v.wire().take(k as int) =~= a.take(k as int));
            A::lemma_truncated(v.0, k);
        } else {
            let d = (k - a.len()) as nat;
            assert(v.wire().take(k as int) =~= a + b.take(d as int));
            A::lemma_round_trip(v.0, b.take(d as int));
            B::lemma_truncated(v.1, d);
        }
    }
}

impl<A: RoundTrip, B: RoundTrip, C: RoundTrip> RoundTrip for (A, B, C) {
    proof fn lemma_round_trip(v: Self, rest: Seq<u8>) {
        assert(v.wire() + rest =~= v.0.wire() + (v.1.wire() + (v.2.wire() + rest)));
        A::lemma_round_trip(v.0, v.1.wire() + (v.2.wire() + rest));
        B::lemma_round_trip(v.1, v.2.wire() + rest);
        C::lemma_round_trip(v.2, rest);
    }

    proof fn lemma_truncated(v: Self, k: nat) {
        let a = v.0.wire();
        let b = v.1.wire();
        let c = v.2.wire();
        if k < a.len() {
            assert(v.wire().take(k as int) =~= a.take(k as int));
            A::lemma_truncated(v.0, k);
        } else if k < a.len() + b.len() {
            let d = (k - a.len()) as nat;
            assert(v.wire().take(k as int) =~= a + b.take(d as int));
            A::lemma_round_trip(v.0, b.take(d as int));
            B::lemma_truncated(v.1, d);
        } else {
            let d = (k - a.len() - b.len()) as nat;
            assert(v.wire().take(k as int) =~= a + (b + c.take(d as int)));
            A::lemma_round_trip(v.0, b + c.take(d as int));
            B::lemma_round_trip(v.1, c.take(d as int));
            C::lemma_truncated(v.2, d);
        }
    }
}

/// A tagged union's value decodes back: the discriminant gives the variant's
/// index, and the payload decodes from the bytes after it.
pub proof fn lemma_variant_round_trip<P: RoundTrip>(index: u8, count: nat, payload: P, rest: Seq<u8>)
    requires
        index < count,
        payload.encode_failure() is None,
    ensures
        parse_variant_index(count, variant_wire(index, payload.wire()) + rest) == Ok::<
            (u8, Seq<u8>),
            DecodeError,
        >((index, payload.wire() + rest)),
        P::parse(payload.wire() + rest) == Ok::<(P::V, Seq<u8>), DecodeError>(
            (payload.deep_view(), rest),
        ),
{
    let input = variant_wire(index, payload.wire()) + rest;
    assert(input[0] == index);
    assert(input.drop_first() =~= payload.wire() + rest);
    P::lemma_round_trip(payload, rest);
}

/// A cut-short encoding of a tagged union's value fails for want of data:
/// on the discriminant when nothing is left, else on the payload.
pub proof fn lemma_variant_truncated<P: RoundTrip>(index: u8, count: nat, payload: P, k: nat)
    requires
        index < count,
        payload.encode_failure() is None,
        k < 1 + payload.wire().len(),
    ensures
        k == 0 ==> parse_variant_index(count, variant_wire(index, payload.wire()).take(k as int))
            == Err::<(u8, Seq<u8>), DecodeError>(DecodeError::InsufficientData),
        k > 0 ==> parse_variant_index(count, variant_wire(index, payload.wire()).take(k as int))
            == Ok::<(u8, Seq<u8>), DecodeError>((index, payload.wire().take(k - 1))) && P::parse(
            payload.wire().take(k - 1),
        ) == Err::<(P::V, Seq<u8>), DecodeError>(DecodeError::InsufficientData),
{
    if k > 0 {
        let input = variant_wire(index, payload.wire()).take(k as int);
        assert(input[0] == index);
        assert(input.drop_first() =~= payload.wire().take(k - 1));
        P::lemma_truncated(payload, (k - 1) as nat);
    }
}

/// A discriminant at or past the number of variants is refused, and names
/// the byte that was read.
pub proof fn lemma_unknown_variant(count: nat, discriminant: u8, rest: Seq<u8>)
    requires
        discriminant >= count,
    ensures
        parse_variant_index(count, seq![discriminant] + rest) == Err::<(u8, Seq<u8>), DecodeError>(
            DecodeError::UnknownEnumVariant(discriminant),
        ),
{
    assert((seq![discriminant] + rest)[0] == discriminant);
}

/// The bound on sequence lengths is the same both ways: a sequence longer
/// than the bound fails to encode with `ArrayTooBig` of its length, and a
/// length field holding that length fails to decode with the same error
/// before any element is read.
pub proof fn lemma_bound_symmetry<T: Encode + Decode>(s: Seq<T>, rest: Seq<u8>)
    requires
        MAX_ARRAY_LENGTH < s.len() <= u32::MAX,
    ensures
        seq_failure(s) == Some(EncodeError::ArrayTooBig(s.len() as usize)),
        parse_seq::<T>(be_u32(s.len() as u32) + rest) == Err::<(Seq<T::V>, Seq<u8>), DecodeError>(
            DecodeError::ArrayTooBig(s.len() as usize),
        ),
{
    lemma_u32_round_trip(s.len() as u32, rest);
}

/// Decoding from fewer bytes than a codec's fixed part fails for want of
/// data: one byte for a byte, a boolean or a discriminant; four for an
/// integer, a size or a sequence's length field; `n` for an array of `n`
/// bytes, boxed or not.
pub proof fn lemma_short_input<T: Decode>(input: Seq<u8>, n: nat, count: nat)
    ensures
        input.len() < 1 ==> {
            &&& u8::parse(input) == Err::<(u8, Seq<u8>), DecodeError>(DecodeError::InsufficientData)
            &&& bool::parse(input) == Err::<(bool, Seq<u8>), DecodeError>(
                DecodeError::InsufficientData,
            )
            &&& parse_variant_index(count, input) == Err::<(u8, Seq<u8>), DecodeError>(
                DecodeError::InsufficientData,
            )
        },
        input.len() < 4 ==> {
            &&& u32::parse(input) == Err::<(u32, Seq<u8>), DecodeError>(
                DecodeError::InsufficientData,
            )
            &&& usize::parse(input) == Err::<(usize, Seq<u8>), DecodeError>(
                DecodeError::InsufficientData,
            )
            &&& parse_seq::<T>(input) == Err::<(Seq<T::V>, Seq<u8>), DecodeError>(
                DecodeError::InsufficientData,
            )
        },
        input.len() < n ==> parse_fixed(n, input) == Err::<(Seq<u8>, Seq<u8>), DecodeError>(
            DecodeError::InsufficientData,
        ),
{
}

/// Decoding reads any nonzero byte as `true`, while encoding writes `true`
/// as 1 and `false` as 0.
pub proof fn lemma_bool_reading(b: u8, rest: Seq<u8>)
    ensures
        bool::parse(seq![b] + rest) == Ok::<(bool, Seq<u8>), DecodeError>((b != 0, rest)),
        true.wire() == seq![1u8],
        false.wire() == seq![0u8],
{
    let input = seq![b] + rest;
    assert(input[0] == b);
    assert(input.drop_first() =~= rest);
}

/// Keeping a fixed array in a box, as a secret field does, changes nothing on
/// the wire: the same bytes are written, and decoding either form, alone or
/// as a record's field, from any bytes gives the same value or the same
/// error, and leaves the same bytes.
pub proof fn lemma_boxed_array_wire_neutral<A: Encode + Decode, const N: usize>(
    b: Box<[u8; N]>,
    a: A,
    input: Seq<u8>,
)
    ensures
        b.wire() == (*b).wire(),
        b.encode_failure() == (*b).encode_failure(),
        (a, b).wire() == (a, *b).wire(),
        (b, a).wire() == (*b, a).wire(),
        <Box<[u8; N]> as Decode>::parse(input) == <[u8; N] as Decode>::parse(input),
        <Box<[u8; N]> as Decode>::error_rest(input) == <[u8; N] as Decode>::error_rest(input),
        <(A, Box<[u8; N]>) as Decode>::parse(input) == <(A, [u8; N]) as Decode>::parse(input),
        <(A, Box<[u8; N]>) as Decode>::error_rest(input) == <(A, [u8; N]) as Decode>::error_rest(
            input,
        ),
        <(Box<[u8; N]>, A) as Decode>::parse(input) == <([u8; N], A) as Decode>::parse(input),
        <(Box<[u8; N]>, A) as Decode>::error_rest(input) == <([u8; N], A) as Decode>::error_rest(
            input,
        ),
{
    let rest = input.skip(N as int);
    assert(<Box<[u8; N]> as Decode>::parse(input) == <[u8; N] as Decode>::parse(input));
    assert(<Box<[u8; N]> as Decode>::error_rest(input) == <[u8; N] as Decode>::error_rest(input));
    assert(<Box<[u8; N]> as Decode>::parse(rest) == <[u8; N] as Decode>::parse(rest));
    assert(<Box<[u8; N]> as Decode>::error_rest(rest) == <[u8; N] as Decode>::error_rest(rest));
    match A::parse(input) {
        Ok((_, after)) => {
            assert(<Box<[u8; N]> as Decode>::parse(after) == <[u8; N] as Decode>::parse(after));
            assert(<Box<[u8; N]> as Decode>::error_rest(after) == <[u8; N] as Decode>::error_rest(
                after,
            ));
        },
        Err(_) => {},
    }
}

/// `T` reads exactly `w` bytes: fewer fail for want of data, and from `w` or
/// more it reads a value and leaves what follows the first `w`.
pub open spec fn has_fixed_width<T: Decode>(w: nat) -> bool {
    forall|s: Seq<u8>|
        #![trigger T::parse(s)]
        if s.len() < w {
            T::parse(s) == Err::<(T::V, Seq<u8>), DecodeError>(DecodeError::InsufficientData)
        } else {
            T::parse(s) is Ok && T::parse(s)->Ok_0.1 == s.skip(w as int)
        }
}

/// Decoding `k` fixed-width elements from at least `k * w` bytes reads
/// exactly `k * w` of them.
proof fn lemma_fixed_width_elems<T: Decode>(w: nat, k: nat, input: Seq<u8>)
    requires
        has_fixed_width::<T>(w),
        k * w <= input.len(),
    ensures
        parse_elems::<T>(k, input) is Ok,
        parse_elems::<T>(k, input)->Ok_0.1 == input.skip((k * w) as int),
    decreases k,
{
    if k == 0 {
        assert(input.skip(0) =~= input);
    } else {
        let j = (k - 1) as nat;
        assert(j * w + w == k * w) by (nonlinear_arith)
            requires
                j == k - 1,
        ;
        assert(j * w <= input.len());
        lemma_fixed_width_elems::<T>(w, j, input);
        let rest = input.skip((j * w) as int);
        assert(T::parse(rest) is Ok);
        assert(rest.skip(w as int) =~= input.skip((k * w) as int));
    }
}

/// A sequence of fixed-width elements whose element run is cut short fails
/// for want of data: decoding `n` elements of width `w` from fewer than
/// `n * w` bytes gives `InsufficientData`, after a length field of `n` too.
pub proof fn lemma_short_element_run<T: Decode>(w: nat, n: nat, body: Seq<u8>)
    requires
        has_fixed_width::<T>(w),
        body.len() < n * w,
    ensures
        parse_elems::<T>(n, body) == Err::<(Seq<T::V>, Seq<u8>), DecodeError>(
            DecodeError::InsufficientData,
        ),
        n <= MAX_ARRAY_LENGTH ==> parse_seq::<T>(be_u32(n as u32) + body) == Err::<
            (Seq<T::V>, Seq<u8>),
            DecodeError,
        >(DecodeError::InsufficientData),
    decreases n,
{
    assert(n > 0) by (nonlinear_arith)
        requires
            body.len() < n * w,
    ;
    let j = (n - 1) as nat;
    assert(j * w + w == n * w) by (nonlinear_arith)
        requires
            j == n - 1,
            n > 0,
    ;
    if body.len() < j * w {
        lemma_short_element_run::<T>(w, j, body);
    } else {
        lemma_fixed_width_elems::<T>(w, j, body);
        let rest = body.skip((j * w) as int);
        assert(T::parse(rest) == Err::<(T::V, Seq<u8>), DecodeError>(
            DecodeError::InsufficientData,
        ));
    }
    if n <= MAX_ARRAY_LENGTH {
        lemma_u32_round_trip(n as u32, body);
    }
}

/// Bytes, booleans, integers, sizes and fixed arrays have fixed widths.
pub proof fn lemma_fixed_widths<const N: usize>()
    ensures
        has_fixed_width::<u8>(1),
        has_fixed_width::<bool>(1),
        has_fixed_width::<u32>(4),
        has_fixed_width::<[u8; N]>(N as nat),
        has_fixed_width::<Box<[u8; N]>>(N as nat),
{
    assert forall|s: Seq<u8>| s.len() >= 1 implies s.drop_first() == s.skip(1) by {
        assert(s.drop_first() =~= s.skip(1));
    }
}

} // verus!
