use bytes::{Bytes, BytesMut};
use matrix_pickle::{
    decode_variant_index, encode_variant, Decode, DecodeError, Encode, EncodeError,
    MAX_ARRAY_LENGTH,
};

fn encoded<T: Encode + ?Sized>(value: &T) -> Vec<u8> {
    value.encode_to_vec().expect("value encodes")
}

#[test]
fn byte_vector_wire_form() {
    let bytes = encoded(&vec![1u8, 2, 3, 4]);
    assert_eq!(bytes, vec![0, 0, 0, 4, 1, 2, 3, 4]);
    let back = Vec::<u8>::decode_from_slice(&bytes).expect("decodes");
    assert_eq!(back, vec![1u8, 2, 3, 4]);
}

#[test]
fn secret_field_keeps_wire_bytes() {
    let boxed = ([1u8; 32], Box::new([2u8; 64]));
    let plain = ([1u8; 32], [2u8; 64]);
    let boxed_bytes = encoded(&boxed);
    assert_eq!(boxed_bytes, encoded(&plain));
    assert_eq!(boxed_bytes.len(), 96);
    assert_eq!(&boxed_bytes[..32], &[1u8; 32][..]);
    assert_eq!(&boxed_bytes[32..], &[2u8; 64][..]);
    let back = <([u8; 32], Box<[u8; 64]>)>::decode_from_slice(&boxed_bytes).expect("decodes");
    assert_eq!(back, boxed);
}

#[test]
fn integers_are_big_endian() {
    assert_eq!(encoded(&0x0102_0304u32), vec![1, 2, 3, 4]);
    assert_eq!(encoded(&0x0a0b_0c0dusize), vec![10, 11, 12, 13]);
    assert_eq!(u32::decode_from_slice(&[0xde, 0xad, 0xbe, 0xef]).unwrap(), 0xdead_beef);
    assert_eq!(usize::decode_from_slice(&[0, 0, 1, 0]).unwrap(), 256);
    assert_eq!(encoded(&0xffu8), vec![0xff]);
}

#[test]
fn round_trip_edges() {
    for v in [0u32, 1, 255, 256, u32::MAX] {
        assert_eq!(u32::decode_from_slice(&encoded(&v)).unwrap(), v);
    }
    for v in [0usize, 1, u32::MAX as usize] {
        assert_eq!(usize::decode_from_slice(&encoded(&v)).unwrap(), v);
    }
    for v in [0u8, 127, 255] {
        assert_eq!(u8::decode_from_slice(&encoded(&v)).unwrap(), v);
    }
    let empty: Vec<u32> = Vec::new();
    assert_eq!(encoded(&empty), vec![0, 0, 0, 0]);
    assert_eq!(Vec::<u32>::decode_from_slice(&[0, 0, 0, 0]).unwrap(), empty);
    let nested = vec![vec![1u8], vec![], vec![2, 3]];
    let bytes = encoded(&nested);
    assert_eq!(bytes, vec![0, 0, 0, 3, 0, 0, 0, 1, 1, 0, 0, 0, 0, 0, 0, 0, 2, 2, 3]);
    assert_eq!(Vec::<Vec<u8>>::decode_from_slice(&bytes).unwrap(), nested);
    let record = (7u8, true, 9u32);
    assert_eq!(encoded(&record), vec![7, 1, 0, 0, 0, 9]);
    assert_eq!(<(u8, bool, u32)>::decode_from_slice(&[7, 1, 0, 0, 0, 9]).unwrap(), record);
}

#[test]
fn longest_sequence_round_trips() {
    let longest = vec![5u8; MAX_ARRAY_LENGTH];
    let bytes = encoded(&longest);
    assert_eq!(&bytes[..4], &[0, 0, 0xff, 0xff][..]);
    assert_eq!(bytes.len(), 4 + MAX_ARRAY_LENGTH);
    assert_eq!(Vec::<u8>::decode_from_slice(&bytes).unwrap(), longest);
}

#[test]
fn byte_count_matches_bytes_written() {
    let mut buffer = BytesMut::new();
    let mut total = 0;
    total += 3u8.encode(&mut buffer).unwrap();
    total += 3u32.encode(&mut buffer).unwrap();
    total += [9u8; 5].encode(&mut buffer).unwrap();
    total += vec![1u32, 2].encode(&mut buffer).unwrap();
    total += (true, Box::new([1u8; 3])).encode(&mut buffer).unwrap();
    assert_eq!(total, 1 + 4 + 5 + 12 + 4);
    assert_eq!(total, buffer.len());
}

#[test]
fn bound_is_symmetric() {
    let too_long = vec![0u8; MAX_ARRAY_LENGTH + 1];
    assert_eq!(too_long.encode_to_vec(), Err(EncodeError::ArrayTooBig(65536)));
    let mut buffer = BytesMut::new();
    assert_eq!(too_long.encode(&mut buffer), Err(EncodeError::ArrayTooBig(65536)));
    assert_eq!(buffer.len(), 0);

    let mut source = Bytes::from(vec![0u8, 1, 0, 0, 7, 7, 7]);
    assert_eq!(Vec::<u8>::decode(&mut source), Err(DecodeError::ArrayTooBig(65536)));
    assert_eq!(&source[..], &[7u8, 7, 7][..]);
}

#[test]
fn short_input_is_insufficient() {
    assert_eq!(u8::decode_from_slice(&[]), Err(DecodeError::InsufficientData));
    assert_eq!(bool::decode_from_slice(&[]), Err(DecodeError::InsufficientData));
    assert_eq!(u32::decode_from_slice(&[1, 2, 3]), Err(DecodeError::InsufficientData));
    assert_eq!(usize::decode_from_slice(&[0, 0]), Err(DecodeError::InsufficientData));
    assert_eq!(<[u8; 32]>::decode_from_slice(&[1u8; 31]), Err(DecodeError::InsufficientData));
    assert_eq!(
        <Box<[u8; 64]>>::decode_from_slice(&[1u8; 10]),
        Err(DecodeError::InsufficientData)
    );
    assert_eq!(
        Vec::<u8>::decode_from_slice(&[0, 0, 0, 4, 1, 2]),
        Err(DecodeError::InsufficientData)
    );
    let full = encoded(&(vec![1u32, 2], [3u8; 4]));
    for cut in 0..full.len() {
        assert_eq!(
            <(Vec<u32>, [u8; 4])>::decode_from_slice(&full[..cut]),
            Err(DecodeError::InsufficientData)
        );
    }
}

#[test]
fn unknown_discriminant_is_refused() {
    let mut source = Bytes::from(vec![2u8, 0, 0]);
    assert_eq!(
        decode_variant_index(&mut source, 2),
        Err(DecodeError::UnknownEnumVariant(2))
    );
    let mut source = Bytes::from(vec![255u8]);
    assert_eq!(
        decode_variant_index(&mut source, 2),
        Err(DecodeError::UnknownEnumVariant(255))
    );
    let mut source = Bytes::from(vec![1u8, 9]);
    assert_eq!(decode_variant_index(&mut source, 2), Ok(1));
    assert_eq!(&source[..], &[9u8][..]);
    let mut source = Bytes::new();
    assert_eq!(decode_variant_index(&mut source, 2), Err(DecodeError::InsufficientData));
}

#[test]
fn variant_is_index_then_payload() {
    let mut buffer = BytesMut::new();
    let n = encode_variant(3, &0x0102_0304u32, &mut buffer).unwrap();
    assert_eq!(n, 5);
    assert_eq!(&buffer[..], &[3u8, 1, 2, 3, 4][..]);
    let mut buffer = BytesMut::new();
    let big = (u32::MAX as usize) + 1;
    if big > u32::MAX as usize {
        assert_eq!(
            encode_variant(0, &big, &mut buffer),
            Err(EncodeError::OutsideU32Range(big))
        );
    }
}

#[test]
fn boolean_reading_is_permissive() {
    assert_eq!(bool::decode_from_slice(&[2]), Ok(true));
    assert_eq!(bool::decode_from_slice(&[255]), Ok(true));
    assert_eq!(bool::decode_from_slice(&[1]), Ok(true));
    assert_eq!(bool::decode_from_slice(&[0]), Ok(false));
    assert_eq!(encoded(&true), vec![1]);
    assert_eq!(encoded(&false), vec![0]);
}

#[test]
fn oversized_size_value_is_refused() {
    let big = (u32::MAX as usize).wrapping_add(1);
    if big != 0 {
        assert_eq!(big.encode_to_vec(), Err(EncodeError::OutsideU32Range(big)));
        assert_eq!(
            vec![1usize, big].encode_to_vec(),
            Err(EncodeError::OutsideU32Range(big))
        );
        let mut buffer = BytesMut::new();
        assert!(vec![1usize, big].encode(&mut buffer).is_err());
        assert_eq!(&buffer[..], &[0u8, 0, 0, 2, 0, 0, 0, 1][..]);
    }
}

#[test]
fn trailing_bytes_are_left() {
    assert_eq!(u8::decode_from_slice(&[4, 5, 6]), Ok(4));
    let mut source = Bytes::from(vec![0u8, 0, 0, 1, 8, 9]);
    assert_eq!(Vec::<u8>::decode(&mut source), Ok(vec![8u8]));
    assert_eq!(&source[..], &[9u8][..]);
}

#[test]
fn failed_reads_leave_the_cursor_where_stated() {
    let mut source = Bytes::from(vec![1u8, 2, 3]);
    assert_eq!(u32::decode(&mut source), Err(DecodeError::InsufficientData));
    assert_eq!(&source[..], &[1u8, 2, 3][..]);
    assert_eq!(<[u8; 4]>::decode(&mut source), Err(DecodeError::InsufficientData));
    assert_eq!(&source[..], &[1u8, 2, 3][..]);
    assert_eq!(<Box<[u8; 4]>>::decode(&mut source), Err(DecodeError::InsufficientData));
    assert_eq!(&source[..], &[1u8, 2, 3][..]);

    let mut source = Bytes::from(vec![1u8, 2, 3]);
    assert_eq!(<(u8, u32)>::decode(&mut source), Err(DecodeError::InsufficientData));
    assert_eq!(&source[..], &[2u8, 3][..]);

    let mut source = Bytes::from(vec![0u8, 0, 0, 2, 0, 0, 0, 5, 6, 7]);
    assert_eq!(Vec::<u32>::decode(&mut source), Err(DecodeError::InsufficientData));
    assert_eq!(&source[..], &[6u8, 7][..]);

    let mut source = Bytes::from(vec![9u8, 4, 4]);
    assert_eq!(
        decode_variant_index(&mut source, 3),
        Err(DecodeError::UnknownEnumVariant(9))
    );
    assert_eq!(&source[..], &[4u8, 4][..]);
}

#[test]
fn boxed_and_plain_fields_read_alike() {
    let bytes = vec![7u8; 10];
    let mut plain = Bytes::from(bytes.clone());
    let mut boxed = Bytes::from(bytes);
    assert_eq!(
        <(u8, [u8; 16])>::decode(&mut plain),
        Err(DecodeError::InsufficientData)
    );
    assert_eq!(
        <(u8, Box<[u8; 16]>)>::decode(&mut boxed),
        Err(DecodeError::InsufficientData)
    );
    assert_eq!(plain.len(), 9);
    assert_eq!(boxed.len(), 9);
}

#[test]
fn refused_size_writes_nothing() {
    let big = (u32::MAX as usize).wrapping_add(1);
    if big != 0 {
        let mut buffer = BytesMut::new();
        3u8.encode(&mut buffer).unwrap();
        assert_eq!(big.encode(&mut buffer), Err(EncodeError::OutsideU32Range(big)));
        assert_eq!(&buffer[..], &[3u8][..]);
    }
}
