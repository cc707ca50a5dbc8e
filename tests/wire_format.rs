use proto_dryb::compose::{deserialize_discriminant, serialize_variant};
use proto_dryb::{Deserialize, DeserializeError, Endianness, Serialize, SerializeError};

fn encode<T: Serialize>(value: &T, endian: Endianness) -> Vec<u8> {
    let mut buffer = [0u8; 256];
    let n = value.serialize(&mut buffer, endian).unwrap();
    buffer[..n].to_vec()
}

#[test]
fn signed_byte_scenario() {
    assert_eq!(encode(&-42i8, Endianness::Little), vec![0xD6]);
    assert_eq!(i8::deserialize(&[0xD6], Endianness::Little), Ok((-42, 1)));
}

#[test]
fn present_option_scenario() {
    assert_eq!(encode(&Some(42u32), Endianness::Little), vec![1, 42, 0, 0, 0]);
    assert_eq!(
        Option::<u32>::deserialize(&[1, 42, 0, 0, 0], Endianness::Little),
        Ok((Some(42), 5))
    );
    assert_eq!(encode(&None::<u32>, Endianness::Little), vec![0]);
}

#[test]
fn big_endian_sequence_scenario() {
    let bytes = encode(&vec![1u32, 2u32], Endianness::Big);
    assert_eq!(bytes, vec![0, 0, 0, 2, 0, 0, 0, 1, 0, 0, 0, 2]);
    assert_eq!(bytes.len(), 12);
}

#[test]
fn union_variant_scenario() {
    let mut buffer = [0u8; 32];
    let n = serialize_variant(1, &7u32, &mut buffer, 0, Endianness::Little).unwrap();
    assert_eq!(&buffer[..n], &[1, 7, 0, 0, 0]);
    let n = serialize_variant(0, &(), &mut buffer, 0, Endianness::Little).unwrap();
    assert_eq!(&buffer[..n], &[0]);
    let c = (1.5f64.to_bits(), 2.5f64.to_bits());
    let n = serialize_variant(2, &c, &mut buffer, 0, Endianness::Little).unwrap();
    assert_eq!(n, 17);
    assert_eq!(buffer[0], 2);
    let (d, used) = deserialize_discriminant(&buffer[..n], 3).unwrap();
    assert_eq!((d, used), (2, 1));
    let ((x, y), m) = <(u64, u64)>::deserialize(&buffer[1..n], Endianness::Little).unwrap();
    assert_eq!((f64::from_bits(x), f64::from_bits(y), m), (1.5, 2.5, 16));
}

#[test]
fn empty_buffer_is_invalid_for_u16() {
    assert_eq!(u16::deserialize(&[], Endianness::Little), Err(DeserializeError::Invalid));
}

#[test]
fn unknown_discriminant_is_invalid() {
    assert_eq!(deserialize_discriminant(&[9], 3), Err(DeserializeError::Invalid));
    assert_eq!(deserialize_discriminant(&[], 3), Err(DeserializeError::Invalid));
    assert_eq!(deserialize_discriminant(&[2, 5], 3), Ok((2, 1)));
}

#[test]
fn discriminant_ignores_payload() {
    let mut buffer = [0u8; 16];
    serialize_variant(1, &0xFFFF_FFFFu32, &mut buffer, 0, Endianness::Big).unwrap();
    assert_eq!(buffer[0], 1);
    serialize_variant(1, &0u32, &mut buffer, 0, Endianness::Big).unwrap();
    assert_eq!(buffer[0], 1);
}

#[test]
fn encoding_is_deterministic() {
    let value = (vec![3u16, 4u16], Some("ab".to_string()));
    assert_eq!(encode(&value, Endianness::Big), encode(&value, Endianness::Big));
}

#[test]
fn strict_prefixes_are_invalid() {
    let value = (vec![258u16, 7u16], Some("héllo".to_string()));
    for endian in [Endianness::Little, Endianness::Big] {
        let bytes = encode(&value, endian);
        for k in 0..bytes.len() {
            assert_eq!(
                <(Vec<u16>, Option<String>)>::deserialize(&bytes[..k], endian),
                Err(DeserializeError::Invalid)
            );
        }
        let (back, n) = <(Vec<u16>, Option<String>)>::deserialize(&bytes, endian).unwrap();
        assert_eq!((back, n), (value.clone(), bytes.len()));
    }
}

#[test]
fn short_destination_overflows() {
    let mut small = [0u8; 3];
    assert_eq!(7u32.serialize(&mut small, Endianness::Little), Err(SerializeError::BufferOverflow));
    assert_eq!(vec![1u8].serialize(&mut small, Endianness::Little), Err(SerializeError::BufferOverflow));
    let mut four = [0u8; 4];
    assert_eq!(vec![1u8].serialize(&mut four, Endianness::Little), Err(SerializeError::BufferOverflow));
    assert_eq!(Some(1u32).serialize(&mut four, Endianness::Little), Err(SerializeError::BufferOverflow));
    let mut empty: [u8; 0] = [];
    assert_eq!(true.serialize(&mut empty, Endianness::Little), Err(SerializeError::BufferOverflow));
    assert_eq!(().serialize(&mut empty, Endianness::Little), Ok(0));
}

#[test]
fn empty_containers_are_a_zero_count() {
    assert_eq!(encode(&Vec::<u64>::new(), Endianness::Big), vec![0, 0, 0, 0]);
    assert_eq!(encode(&String::new(), Endianness::Little), vec![0, 0, 0, 0]);
    assert_eq!(Vec::<u64>::deserialize(&[0, 0, 0, 0], Endianness::Big), Ok((vec![], 4)));
    assert_eq!(String::deserialize(&[0, 0, 0, 0], Endianness::Little), Ok((String::new(), 4)));
}

#[test]
fn invalid_utf8_is_bytes_but_not_text() {
    let bytes = [2, 0, 0, 0, 0xFF, 0xFE];
    assert_eq!(Vec::<u8>::deserialize(&bytes, Endianness::Little), Ok((vec![0xFF, 0xFE], 6)));
    assert_eq!(String::deserialize(&bytes, Endianness::Little), Err(DeserializeError::Invalid));
    let ok = [2, 0, 0, 0, b'h', b'i'];
    assert_eq!(String::deserialize(&ok, Endianness::Little), Ok(("hi".to_string(), 6)));
}

#[test]
fn byte_orders_of_wide_integers() {
    assert_eq!(encode(&0x1234u16, Endianness::Little), vec![0x34, 0x12]);
    assert_eq!(encode(&0x1234u16, Endianness::Big), vec![0x12, 0x34]);
    assert_eq!(encode(&0x01020304u32, Endianness::Big), vec![1, 2, 3, 4]);
    assert_eq!(
        encode(&0x0102030405060708u64, Endianness::Little),
        vec![8, 7, 6, 5, 4, 3, 2, 1]
    );
    assert_eq!(encode(&-2i16, Endianness::Big), vec![0xFF, 0xFE]);
    assert_eq!(encode(&-1i64, Endianness::Little), vec![0xFF; 8]);
    assert_eq!(i32::deserialize(&[0xFF, 0xFF, 0xFF, 0xFE], Endianness::Big), Ok((-2, 4)));
}

#[test]
fn bool_reads_any_nonzero_as_true() {
    assert_eq!(encode(&true, Endianness::Little), vec![1]);
    assert_eq!(encode(&false, Endianness::Little), vec![0]);
    assert_eq!(bool::deserialize(&[7], Endianness::Little), Ok((true, 1)));
    assert_eq!(bool::deserialize(&[0], Endianness::Little), Ok((false, 1)));
}

#[test]
fn bad_presence_byte_is_invalid() {
    assert_eq!(Option::<u8>::deserialize(&[2, 1], Endianness::Little), Err(DeserializeError::Invalid));
    assert_eq!(Option::<u8>::deserialize(&[], Endianness::Little), Err(DeserializeError::Invalid));
    assert_eq!(Option::<u8>::deserialize(&[0, 9], Endianness::Little), Ok((None, 1)));
}

#[test]
fn records_concatenate_fields_without_tags() {
    let record = (1u8, (0x0203u16, true));
    assert_eq!(encode(&record, Endianness::Big), vec![1, 2, 3, 1]);
    assert_eq!(
        <(u8, (u16, bool))>::deserialize(&[1, 2, 3, 1, 99], Endianness::Big),
        Ok((record, 4))
    );
}

#[test]
fn arrays_have_no_count() {
    assert_eq!(encode(&[1u16, 2u16], Endianness::Little), vec![1, 0, 2, 0]);
    assert_eq!(<[u16; 2]>::deserialize(&[1, 0, 2], Endianness::Little), Err(DeserializeError::Invalid));
}

#[test]
fn writing_at_an_offset_keeps_earlier_bytes() {
    let mut buffer = [9u8; 6];
    assert_eq!(0x0102u16.serialize_at(&mut buffer, 2, Endianness::Big), Ok(2));
    assert_eq!(buffer, [9, 9, 1, 2, 9, 9]);
    assert_eq!(0x0102u32.serialize_at(&mut buffer, 3, Endianness::Big), Err(SerializeError::BufferOverflow));
}

#[test]
fn error_messages_and_default_order() {
    assert_eq!(SerializeError::BufferOverflow.message(), "Buffer overflow");
    assert_eq!(DeserializeError::Invalid.message(), "Invalid payload");
    assert_eq!(Endianness::default(), Endianness::Little);
}
