use bytes::{Bytes, BytesMut};
use matrix_pickle::{
    decode_variant_index, encode_variant, Decode, DecodeError, Encode, EncodeError,
    MAX_ARRAY_LENGTH,
};
use std::fmt::Debug;

fn check_cycle<T: Encode + Decode + PartialEq + Debug>(value: T) {
    let encoded = value
        .encode_to_vec()
        .expect("We can always encode into to a Vec");
    let decoded =
        T::decode_from_slice(&encoded).expect("Decoding a freshly encoded value always works");
    assert_eq!(
        value, decoded,
        "The encoded value and the decoded value are not the same"
    );
}

fn check_length<T: Encode + ?Sized>(value: &T) {
    let mut buffer = BytesMut::new();
    let size = value
        .encode(&mut buffer)
        .expect("We can always encode into to a Vec");
    assert_eq!(size, buffer.len());
}

type Foo = ([u8; 32], Box<[u8; 64]>);
type Bar = ([u8; 32],);

#[derive(Debug, PartialEq)]
enum Something {
    Foo(Foo),
    Bar(Bar),
}

fn encode_something(value: &Something, buf: &mut BytesMut) -> Result<usize, EncodeError> {
    match value {
        Something::Foo(v) => encode_variant(0, v, buf),
        Something::Bar(v) => encode_variant(1, v, buf),
    }
}

fn decode_something(buf: &mut Bytes) -> Result<Something, DecodeError> {
    match decode_variant_index(buf, 2)? {
        0 => Ok(Something::Foo(Foo::decode(buf)?)),
        _ => Ok(Something::Bar(Bar::decode(buf)?)),
    }
}

fn cycle_something(value: Something) {
    let mut buffer = BytesMut::new();
    encode_something(&value, &mut buffer).expect("We can always encode into to a Vec");
    let decoded = decode_something(&mut buffer.freeze())
        .expect("Decoding a freshly encoded value always works");
    assert_eq!(value, decoded);
}

#[test]
fn encode_cycle() {
    check_cycle(10u8);
    check_cycle(10u32);
    check_cycle(10usize);
    check_cycle(true);
    check_cycle(false);
    check_cycle(vec![1u8, 2, 3, 4]);
}

#[test]
fn encode_length_check() {
    check_length(&10u8);
    check_length(&10u32);
    check_length(&10usize);
    check_length(&true);
    check_length(&false);
    check_length(&[1u32, 2u32, 3u32, 4u32][..]);
}

#[test]
fn max_array_length() {
    assert!(matches!(
        [false; MAX_ARRAY_LENGTH + 1][..].encode_to_vec(),
        Err(EncodeError::ArrayTooBig(_))
    ));

    let mut buffer = BytesMut::new();
    (MAX_ARRAY_LENGTH + 1)
        .encode(&mut buffer)
        .expect("Should encode length");
    assert!(matches!(
        Vec::<bool>::decode(&mut buffer.freeze()),
        Err(DecodeError::ArrayTooBig(_))
    ));
}

#[test]
fn derive() {
    let foo: Foo = ([1u8; 32], Box::new([2u8; 64]));
    check_cycle(foo.clone());

    let bar: Bar = ([1u8; 32],);
    check_cycle(bar);

    cycle_something(Something::Foo(foo));
    cycle_something(Something::Bar(bar));
}
