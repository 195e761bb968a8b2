use jaguar::{
    deserialize, serialize, Double, JaguarDeserialize, JaguarDeserializer, JaguarSerialize,
    JaguarSerializer, SerError, Single, StrRef,
};

fn varint_bytes(v: u64) -> Vec<u8> {
    let mut ser = JaguarSerializer::new();
    ser.write_varint(v).unwrap();
    ser.finish()
}

fn signed_bytes(v: i64) -> Vec<u8> {
    let mut ser = JaguarSerializer::new();
    ser.write_signed_varint(v).unwrap();
    ser.finish()
}

#[test]
fn varint_boundaries() {
    assert_eq!(varint_bytes(0), vec![0x00]);
    assert_eq!(varint_bytes(127), vec![0x7F]);
    assert_eq!(varint_bytes(128), vec![0x80, 0x01]);
    assert_eq!(varint_bytes(16383), vec![0xFF, 0x7F]);
    assert_eq!(varint_bytes(16384), vec![0x80, 0x80, 0x01]);
    assert_eq!(varint_bytes(300), vec![0xAC, 0x02]);
    assert_eq!(
        varint_bytes(u64::MAX),
        vec![0xFF, 0xFF, 0xFF, 0xFF, 0xFF, 0xFF, 0xFF, 0xFF, 0xFF, 0x01]
    );
}

#[test]
fn varint_sizes() {
    assert_eq!(jaguar::varint::varint_size(0), 1);
    assert_eq!(jaguar::varint::varint_size(127), 1);
    assert_eq!(jaguar::varint::varint_size(128), 2);
    assert_eq!(jaguar::varint::varint_size(16383), 2);
    assert_eq!(jaguar::varint::varint_size(16384), 3);
    assert_eq!(jaguar::varint::varint_size(u64::MAX), 10);
}

#[test]
fn varint_round_trip_at_every_length() {
    for shift in 0..64 {
        for delta in [0u64, 1] {
            let v = (1u64 << shift).wrapping_sub(delta);
            let data = varint_bytes(v);
            let mut de = JaguarDeserializer::new(&data);
            assert_eq!(de.read_varint(), Ok(v));
            assert_eq!(de.position(), data.len());
        }
    }
}

#[test]
fn eleven_byte_varint_is_invalid() {
    let data = [0x80u8, 0x80, 0x80, 0x80, 0x80, 0x80, 0x80, 0x80, 0x80, 0x80, 0x01];
    let mut de = JaguarDeserializer::new(&data);
    assert_eq!(de.read_varint(), Err(SerError::InvalidData));
}

#[test]
fn ten_continuation_bytes_are_invalid_even_at_the_end() {
    let data = [0xFFu8; 10];
    let mut de = JaguarDeserializer::new(&data);
    assert_eq!(de.read_varint(), Err(SerError::InvalidData));
}

#[test]
fn unfinished_varint_is_too_short() {
    let data = [0x80u8, 0x80];
    let mut de = JaguarDeserializer::new(&data);
    assert_eq!(de.read_varint(), Err(SerError::BufferTooSmall));

    let mut de = JaguarDeserializer::new(&[]);
    assert_eq!(de.read_varint(), Err(SerError::BufferTooSmall));
}

#[test]
fn varint_need_not_be_shortest() {
    let data = [0x80u8, 0x00, 0x07];
    let mut de = JaguarDeserializer::new(&data);
    assert_eq!(de.read_varint(), Ok(0));
    assert_eq!(de.position(), 2);
    assert_eq!(de.read_varint(), Ok(7));
}

#[test]
fn varint_must_fit_in_64_bits() {
    let data = [0xFFu8, 0xFF, 0xFF, 0xFF, 0xFF, 0xFF, 0xFF, 0xFF, 0xFF, 0x7F];
    assert_eq!(JaguarDeserializer::new(&data).read_varint(), Err(SerError::InvalidData));

    let data = [0x80u8, 0x80, 0x80, 0x80, 0x80, 0x80, 0x80, 0x80, 0x80, 0x02];
    assert_eq!(JaguarDeserializer::new(&data).read_varint(), Err(SerError::InvalidData));

    let data = [0xFFu8, 0xFF, 0xFF, 0xFF, 0xFF, 0xFF, 0xFF, 0xFF, 0xFF, 0x01];
    assert_eq!(JaguarDeserializer::new(&data).read_varint(), Ok(u64::MAX));

    let data = [0x80u8, 0x80, 0x80, 0x80, 0x80, 0x80, 0x80, 0x80, 0x80, 0x01];
    assert_eq!(JaguarDeserializer::new(&data).read_varint(), Ok(1 << 63));

    let data = [0x80u8, 0x80, 0x80, 0x80, 0x80, 0x80, 0x80, 0x80, 0x80, 0x00];
    let mut de = JaguarDeserializer::new(&data);
    assert_eq!(de.read_varint(), Ok(0));
    assert_eq!(de.position(), 10);
}

#[test]
fn signed_varint_bytes() {
    assert_eq!(signed_bytes(0), vec![0x00]);
    assert_eq!(signed_bytes(-1), vec![0x01]);
    assert_eq!(signed_bytes(1), vec![0x02]);
    assert_eq!(signed_bytes(-2), vec![0x03]);
    assert_eq!(signed_bytes(2), vec![0x04]);
    assert_eq!(signed_bytes(63), vec![0x7E]);
    assert_eq!(signed_bytes(-64), vec![0x7F]);
    assert_eq!(signed_bytes(64), vec![0x80, 0x01]);
    assert_eq!(signed_bytes(2147483647).len(), 5);
    assert_eq!(signed_bytes(-2147483648).len(), 5);
    assert_eq!(signed_bytes(i64::MAX).len(), 10);
    assert_eq!(signed_bytes(i64::MIN).len(), 10);
}

#[test]
fn zigzag_values() {
    assert_eq!(jaguar::zigzag::zigzag_encode(0), 0);
    assert_eq!(jaguar::zigzag::zigzag_encode(-1), 1);
    assert_eq!(jaguar::zigzag::zigzag_encode(1), 2);
    assert_eq!(jaguar::zigzag::zigzag_encode(i64::MAX), u64::MAX - 1);
    assert_eq!(jaguar::zigzag::zigzag_encode(i64::MIN), u64::MAX);
    assert_eq!(jaguar::zigzag::zigzag_decode(0), 0);
    assert_eq!(jaguar::zigzag::zigzag_decode(1), -1);
    assert_eq!(jaguar::zigzag::zigzag_decode(2), 1);
    assert_eq!(jaguar::zigzag::zigzag_decode(u64::MAX), i64::MIN);
    assert_eq!(jaguar::zigzag::zigzag_decode(u64::MAX - 1), i64::MAX);
}

#[test]
fn signed_varint_symmetry() {
    for v in [0i64, 1, -1, 2, -2, 63, -64, 64, -65, 1 << 40, -(1 << 40), i64::MAX, i64::MIN] {
        let data = signed_bytes(v);
        let mut de = JaguarDeserializer::new(&data);
        assert_eq!(de.read_signed_varint(), Ok(v));
        assert_eq!(de.position(), data.len());
    }
}

#[test]
fn narrow_integers_widen_and_come_back() {
    for v in [i8::MIN, -1, 0, 1, i8::MAX] {
        let data = serialize(&v).unwrap();
        assert_eq!(data, signed_bytes(v as i64));
        assert_eq!(deserialize::<i8>(&data), Ok(v));
    }
    for v in [i16::MIN, -1, 0, 1, i16::MAX] {
        let data = serialize(&v).unwrap();
        assert_eq!(data, signed_bytes(v as i64));
        assert_eq!(deserialize::<i16>(&data), Ok(v));
    }
    for v in [i32::MIN, -1, 0, 1, i32::MAX] {
        let data = serialize(&v).unwrap();
        assert_eq!(data, signed_bytes(v as i64));
        assert_eq!(deserialize::<i32>(&data), Ok(v));
    }
    for v in [0u16, 1, 127, 128, u16::MAX] {
        let data = serialize(&v).unwrap();
        assert_eq!(data, varint_bytes(v as u64));
        assert_eq!(deserialize::<u16>(&data), Ok(v));
    }
    for v in [0u32, 1, 127, 128, u32::MAX] {
        let data = serialize(&v).unwrap();
        assert_eq!(data, varint_bytes(v as u64));
        assert_eq!(deserialize::<u32>(&data), Ok(v));
    }
    for v in [0u64, 1, 127, 128, u64::MAX] {
        let data = serialize(&v).unwrap();
        assert_eq!(data, varint_bytes(v));
        assert_eq!(deserialize::<u64>(&data), Ok(v));
    }
}

#[test]
fn narrowing_keeps_the_low_bits() {
    let data = varint_bytes(0x1_0005);
    assert_eq!(deserialize::<u16>(&data), Ok(5));
    let data = varint_bytes(0x1_0000_0007);
    assert_eq!(deserialize::<u32>(&data), Ok(7));
    let data = signed_bytes(0x101);
    assert_eq!(deserialize::<i8>(&data), Ok(1));
    let data = signed_bytes(-0x101);
    assert_eq!(deserialize::<i8>(&data), Ok(-1));
    let data = signed_bytes(0x1_0002);
    assert_eq!(deserialize::<i16>(&data), Ok(2));
    let data = signed_bytes(0x1_0000_0003);
    assert_eq!(deserialize::<i32>(&data), Ok(3));
}

#[test]
fn single_byte_and_bool() {
    let mut ser = JaguarSerializer::new();
    ser.write_u8(0xAB).unwrap();
    ser.write_bool(true).unwrap();
    ser.write_bool(false).unwrap();
    assert_eq!(ser.data(), &[0xAB, 0x01, 0x00]);
    let data = ser.finish();

    let mut de = JaguarDeserializer::new(&data);
    assert_eq!(de.read_u8(), Ok(0xAB));
    assert_eq!(de.read_bool(), Ok(true));
    assert_eq!(de.read_bool(), Ok(false));
    assert_eq!(de.read_bool(), Err(SerError::BufferTooSmall));
    assert_eq!(de.read_u8(), Err(SerError::BufferTooSmall));
}

#[test]
fn any_nonzero_byte_is_true() {
    let data = [2u8, 255, 0];
    let mut de = JaguarDeserializer::new(&data);
    assert_eq!(de.read_bool(), Ok(true));
    assert_eq!(de.read_bool(), Ok(true));
    assert_eq!(de.read_bool(), Ok(false));
    assert_eq!(deserialize::<bool>(&[7]), Ok(true));
    assert_eq!(serialize(&true).unwrap(), vec![1]);
    assert_eq!(serialize(&false).unwrap(), vec![0]);
}

#[test]
fn double_marker_table() {
    let mut ser = JaguarSerializer::new();
    ser.write_f64(Double::from_bits(0.0f64.to_bits())).unwrap();
    ser.write_f64(Double::from_bits(1.0f64.to_bits())).unwrap();
    ser.write_f64(Double::from_bits((-1.0f64).to_bits())).unwrap();
    ser.write_f64(Double::from_bits(2.5f64.to_bits())).unwrap();
    let data = ser.finish();

    let raw = 2.5f64.to_bits().to_le_bytes();
    let mut expected = vec![0x00, 0x01, 0x02, 0xFF];
    expected.extend_from_slice(&raw);
    assert_eq!(data, expected);
    assert_eq!(&data[4..], &[0, 0, 0, 0, 0, 0, 0x04, 0x40]);

    let mut de = JaguarDeserializer::new(&data);
    assert_eq!(f64::from_bits(de.read_f64().unwrap().to_bits()), 0.0);
    assert_eq!(f64::from_bits(de.read_f64().unwrap().to_bits()), 1.0);
    assert_eq!(f64::from_bits(de.read_f64().unwrap().to_bits()), -1.0);
    assert_eq!(f64::from_bits(de.read_f64().unwrap().to_bits()), 2.5);
}

#[test]
fn minus_zero_comes_back_as_zero() {
    let mut ser = JaguarSerializer::new();
    ser.write_f32(Single::from_bits((-0.0f32).to_bits())).unwrap();
    ser.write_f64(Double::from_bits((-0.0f64).to_bits())).unwrap();
    let data = ser.finish();
    assert_eq!(data, vec![0x00, 0x00]);

    let mut de = JaguarDeserializer::new(&data);
    assert_eq!(de.read_f32(), Ok(Single::from_bits(0)));
    assert_eq!(de.read_f64(), Ok(Double::from_bits(0)));
}

#[test]
fn nan_keeps_its_bits() {
    let single = Single::from_bits(f32::NAN.to_bits() | 0x1234);
    let double = Double::from_bits(f64::NAN.to_bits() | 0x5678);
    let mut ser = JaguarSerializer::new();
    ser.write_f32(single).unwrap();
    ser.write_f64(double).unwrap();
    let data = ser.finish();
    assert_eq!(data.len(), 5 + 9);
    assert_eq!(data[0], 0xFF);
    assert_eq!(data[5], 0xFF);

    let mut de = JaguarDeserializer::new(&data);
    let back = de.read_f32().unwrap();
    assert_eq!(back, single);
    assert!(f32::from_bits(back.to_bits()).is_nan());
    let back = de.read_f64().unwrap();
    assert_eq!(back, double);
    assert!(f64::from_bits(back.to_bits()).is_nan());
}

#[test]
fn unknown_float_marker_is_invalid() {
    for marker in [3u8, 4, 100, 254] {
        let data = [marker, 0, 0, 0, 0, 0, 0, 0, 0];
        assert_eq!(JaguarDeserializer::new(&data).read_f32(), Err(SerError::InvalidData));
        assert_eq!(JaguarDeserializer::new(&data).read_f64(), Err(SerError::InvalidData));
    }
}

#[test]
fn short_float_body_is_too_short() {
    assert_eq!(JaguarDeserializer::new(&[]).read_f32(), Err(SerError::BufferTooSmall));
    assert_eq!(JaguarDeserializer::new(&[255, 1, 2, 3]).read_f32(), Err(SerError::BufferTooSmall));
    assert_eq!(JaguarDeserializer::new(&[]).read_f64(), Err(SerError::BufferTooSmall));
    assert_eq!(
        JaguarDeserializer::new(&[255, 1, 2, 3, 4, 5, 6, 7]).read_f64(),
        Err(SerError::BufferTooSmall)
    );
}

#[test]
fn long_form_is_accepted_for_short_values() {
    let mut data = vec![0xFF];
    data.extend_from_slice(&1.0f32.to_bits().to_le_bytes());
    assert_eq!(
        JaguarDeserializer::new(&data).read_f32(),
        Ok(Single::from_bits(1.0f32.to_bits()))
    );
    let mut data = vec![0xFF];
    data.extend_from_slice(&(-0.0f64).to_bits().to_le_bytes());
    assert_eq!(
        JaguarDeserializer::new(&data).read_f64(),
        Ok(Double::from_bits((-0.0f64).to_bits()))
    );
}

#[test]
fn float_values_through_the_traits() {
    let single = Single { bits: 3.5f32.to_bits() };
    let data = serialize(&single).unwrap();
    assert_eq!(data.len(), 5);
    assert_eq!(deserialize::<Single>(&data), Ok(single));

    let double = Double { bits: (-1.0f64).to_bits() };
    let data = serialize(&double).unwrap();
    assert_eq!(data, vec![0x02]);
    assert_eq!(deserialize::<Double>(&data), Ok(double));

    let minus_zero = Single { bits: (-0.0f32).to_bits() };
    let data = serialize(&minus_zero).unwrap();
    assert_eq!(deserialize::<Single>(&data), Ok(Single { bits: 0 }));
}

#[test]
fn bytes_are_length_then_payload() {
    let payload = [9u8, 8, 7];
    let mut ser = JaguarSerializer::new();
    ser.write_bytes(&payload).unwrap();
    ser.write_u8_slice(&payload).unwrap();
    ser.write_bytes(&[]).unwrap();
    let data = ser.finish();
    assert_eq!(data, vec![3, 9, 8, 7, 3, 9, 8, 7, 0]);

    let mut de = JaguarDeserializer::new(&data);
    assert_eq!(de.read_bytes().unwrap(), &payload);
    assert_eq!(de.read_u8_vec().unwrap(), payload.to_vec());
    assert_eq!(de.read_bytes().unwrap(), &[] as &[u8]);
    assert!(!de.has_data());
}

#[test]
fn long_payload_has_a_longer_prefix() {
    let payload = vec![0x5Au8; 300];
    let mut ser = JaguarSerializer::new();
    ser.write_bytes(&payload).unwrap();
    let data = ser.finish();
    assert_eq!(data.len(), 302);
    assert_eq!(&data[..2], &[0xAC, 0x02]);
    assert_eq!(JaguarDeserializer::new(&data).read_u8_vec().unwrap(), payload);
}

#[test]
fn payload_must_be_present() {
    let data = [5u8, 1, 2, 3];
    assert_eq!(JaguarDeserializer::new(&data).read_bytes(), Err(SerError::BufferTooSmall));
    assert_eq!(JaguarDeserializer::new(&data).read_u8_vec(), Err(SerError::BufferTooSmall));
    assert_eq!(JaguarDeserializer::new(&data).read_str(), Err(SerError::BufferTooSmall));
    let huge = [0xFFu8, 0xFF, 0xFF, 0xFF, 0xFF, 0xFF, 0xFF, 0xFF, 0xFF, 0x01, 1];
    assert_eq!(JaguarDeserializer::new(&huge).read_bytes(), Err(SerError::BufferTooSmall));
}

#[test]
fn text_must_be_utf8() {
    let data = [2u8, 0xC3, 0x28];
    assert_eq!(JaguarDeserializer::new(&data).read_str(), Err(SerError::InvalidData));
    let data = [1u8, 0xFF];
    assert_eq!(JaguarDeserializer::new(&data).read_str(), Err(SerError::InvalidData));
    assert_eq!(deserialize::<String>(&data), Err(SerError::InvalidData));
    let data = [3u8, 0xED, 0xA0, 0x80];
    assert_eq!(JaguarDeserializer::new(&data).read_str(), Err(SerError::InvalidData));
    let data = [2u8, 0xC3, 0xA9];
    assert_eq!(JaguarDeserializer::new(&data).read_str(), Ok("é"));
    assert_eq!(JaguarDeserializer::new(&data).read_bytes().unwrap(), &[0xC3, 0xA9]);
}

#[test]
fn text_length_counts_bytes() {
    let mut ser = JaguarSerializer::new();
    ser.write_str("héé").unwrap();
    let data = ser.finish();
    assert_eq!(data, vec![5, b'h', 0xC3, 0xA9, 0xC3, 0xA9]);

    let owned = String::from("héé");
    assert_eq!(serialize(&owned).unwrap(), data);
    assert_eq!(deserialize::<String>(&data), Ok(owned));
    assert_eq!(serialize(&StrRef("héé")).unwrap(), data);
    assert_eq!(deserialize::<StrRef>(&data), Ok(StrRef("héé")));
}

#[test]
fn word_slice_is_raw() {
    let words = [1u32, 0x0102_0304, u32::MAX];
    let mut ser = JaguarSerializer::new();
    ser.write_u32_slice(&words).unwrap();
    let data = ser.finish();
    assert_eq!(data, vec![3, 1, 0, 0, 0, 4, 3, 2, 1, 0xFF, 0xFF, 0xFF, 0xFF]);

    let mut de = JaguarDeserializer::new(&data);
    assert_eq!(de.read_u32_vec().unwrap(), words.to_vec());
    assert_eq!(de.position(), 13);

    assert_ne!(serialize(&words.to_vec()).unwrap(), data);
}

#[test]
fn word_slice_must_be_present() {
    let data = [2u8, 1, 0, 0, 0, 2, 0, 0];
    assert_eq!(JaguarDeserializer::new(&data).read_u32_vec(), Err(SerError::BufferTooSmall));
    let huge = [0xFFu8, 0xFF, 0xFF, 0xFF, 0xFF, 0xFF, 0xFF, 0xFF, 0xFF, 0x01, 1, 2, 3, 4];
    assert_eq!(JaguarDeserializer::new(&huge).read_u32_vec(), Err(SerError::BufferTooSmall));
    assert_eq!(JaguarDeserializer::new(&[0]).read_u32_vec(), Ok(vec![]));
}

#[test]
fn integer_slices() {
    let mut ser = JaguarSerializer::new();
    ser.write_u16_slice(&[1, 128, u16::MAX]).unwrap();
    ser.write_u64_slice(&[0, 300, u64::MAX]).unwrap();
    ser.write_i8_slice(&[-1, 0, i8::MIN]).unwrap();
    ser.write_i16_slice(&[1, -2, i16::MAX]).unwrap();
    ser.write_i64_slice(&[i64::MIN, 2]).unwrap();
    let data = ser.finish();
    assert_eq!(&data[..7], &[3, 1, 0x80, 0x01, 0xFF, 0xFF, 0x03]);

    let mut de = JaguarDeserializer::new(&data);
    assert_eq!(de.read_u16_vec().unwrap(), vec![1, 128, u16::MAX]);
    assert_eq!(de.read_u64_vec().unwrap(), vec![0, 300, u64::MAX]);
    assert_eq!(de.read_i8_vec().unwrap(), vec![-1, 0, i8::MIN]);
    assert_eq!(de.read_i16_vec().unwrap(), vec![1, -2, i16::MAX]);
    assert_eq!(de.read_i64_vec().unwrap(), vec![i64::MIN, 2]);
    assert!(!de.has_data());
}

#[test]
fn signed_slice_bytes() {
    let mut ser = JaguarSerializer::new();
    ser.write_i8_slice(&[-1, 1, -2]).unwrap();
    assert_eq!(ser.data(), &[3, 1, 2, 3]);
    ser.reset();
    ser.write_i16_slice(&[64]).unwrap();
    assert_eq!(ser.data(), &[1, 0x80, 0x01]);
    ser.reset();
    ser.write_i64_slice(&[]).unwrap();
    assert_eq!(ser.data(), &[0]);
}

#[test]
fn float_slices() {
    let singles: Vec<Single> =
        [0.0f32, 1.0, -1.0, 0.5].iter().map(|f| Single::from_bits(f.to_bits())).collect();
    let doubles: Vec<Double> =
        [0.25f64, -1.0].iter().map(|f| Double::from_bits(f.to_bits())).collect();
    let mut ser = JaguarSerializer::new();
    ser.write_f32_slice(&singles).unwrap();
    ser.write_f64_slice(&doubles).unwrap();
    let data = ser.finish();
    assert_eq!(&data[..9], &[4, 0, 1, 2, 0xFF, 0, 0, 0, 0x3F]);
    assert_eq!(data.len(), 9 + 1 + 9 + 1);

    let mut de = JaguarDeserializer::new(&data);
    assert_eq!(de.read_f32_vec().unwrap(), singles);
    assert_eq!(de.read_f64_vec().unwrap(), doubles);
}

#[test]
fn string_sequences() {
    let strings = vec![String::from("ab"), String::new(), String::from("é")];
    let mut ser = JaguarSerializer::new();
    ser.write_string_vec(&strings).unwrap();
    let data = ser.finish();
    assert_eq!(data, vec![3, 2, b'a', b'b', 0, 2, 0xC3, 0xA9]);
    assert_eq!(JaguarDeserializer::new(&data).read_string_vec().unwrap(), strings);
    assert_eq!(serialize(&strings).unwrap(), data);
    assert_eq!(deserialize::<Vec<String>>(&data), Ok(strings));
}

#[test]
fn a_failing_item_fails_the_sequence() {
    let data = [2u8, 1];
    assert_eq!(JaguarDeserializer::new(&data).read_u64_vec(), Err(SerError::BufferTooSmall));
    assert_eq!(JaguarDeserializer::new(&data).read_u16_vec(), Err(SerError::BufferTooSmall));
    assert_eq!(JaguarDeserializer::new(&data).read_i64_vec(), Err(SerError::BufferTooSmall));
    assert_eq!(JaguarDeserializer::new(&data).read_i8_vec(), Err(SerError::BufferTooSmall));
    assert_eq!(JaguarDeserializer::new(&data).read_i16_vec(), Err(SerError::BufferTooSmall));
    assert_eq!(JaguarDeserializer::new(&data).read_f64_vec(), Err(SerError::BufferTooSmall));
    assert_eq!(deserialize::<Vec<u64>>(&data), Err(SerError::BufferTooSmall));
    let data = [2u8, 0, 9];
    assert_eq!(JaguarDeserializer::new(&data).read_f32_vec(), Err(SerError::InvalidData));
    let data = [2u8, 1, b'a', 1, 0xFF];
    assert_eq!(JaguarDeserializer::new(&data).read_string_vec(), Err(SerError::InvalidData));
    let data = [0x80u8];
    assert_eq!(JaguarDeserializer::new(&data).read_u64_vec(), Err(SerError::BufferTooSmall));
}

#[test]
fn bool_sequence_sizes() {
    for n in [0usize, 1, 7, 8, 9, 15, 16, 17, 127, 128, 1000] {
        let bools: Vec<bool> = (0..n).map(|i| i % 3 == 1).collect();
        let mut ser = JaguarSerializer::new();
        ser.write_bool_slice(&bools).unwrap();
        let data = ser.finish();
        let prefix = if n < 128 { 1 } else { 2 };
        assert_eq!(data.len(), prefix + (n + 7) / 8);
        if n > 8 {
            assert!(data.len() < n);
        }
        let mut de = JaguarDeserializer::new(&data);
        assert_eq!(de.read_bool_vec().unwrap(), bools);
        assert_eq!(de.position(), data.len());
    }
}

#[test]
fn bool_sequence_bit_order() {
    let mut bools = vec![false; 12];
    bools[0] = true;
    bools[7] = true;
    bools[9] = true;
    let mut ser = JaguarSerializer::new();
    ser.write_bool_slice(&bools).unwrap();
    assert_eq!(ser.data(), &[12, 0x81, 0x02]);
}

#[test]
fn bool_sequence_must_be_present() {
    let data = [9u8, 0xFF];
    assert_eq!(JaguarDeserializer::new(&data).read_bool_vec(), Err(SerError::BufferTooSmall));
    let huge = [0xFFu8, 0xFF, 0xFF, 0xFF, 0xFF, 0xFF, 0xFF, 0xFF, 0xFF, 0x01, 1];
    assert_eq!(JaguarDeserializer::new(&huge).read_bool_vec(), Err(SerError::BufferTooSmall));
}

#[test]
fn bool_sequence_ignores_spare_bits() {
    let data = [3u8, 0xFF];
    assert_eq!(JaguarDeserializer::new(&data).read_bool_vec(), Ok(vec![true, true, true]));
}

#[test]
fn arrays_carry_their_length() {
    let ints: [u32; 4] = [1, 2, 3, 300];
    let data = serialize(&ints).unwrap();
    assert_eq!(data, vec![4, 1, 2, 3, 0xAC, 0x02]);
    assert_eq!(deserialize::<[u32; 4]>(&data), Ok(ints));

    let bools: [bool; 3] = [true, false, true];
    let data = serialize(&bools).unwrap();
    assert_eq!(data, vec![3, 1, 0, 1]);
    assert_eq!(deserialize::<[bool; 3]>(&data), Ok(bools));

    let signed: [i16; 2] = [-1, 64];
    let data = serialize(&signed).unwrap();
    assert_eq!(data, vec![2, 1, 0x80, 0x01]);
    assert_eq!(deserialize::<[i16; 2]>(&data), Ok(signed));

    let floats: [Single; 2] = [Single { bits: 0 }, Single { bits: 1.0f32.to_bits() }];
    let data = serialize(&floats).unwrap();
    assert_eq!(data, vec![2, 0, 1]);
    assert_eq!(deserialize::<[Single; 2]>(&data), Ok(floats));

    let empty: [u64; 0] = [];
    assert_eq!(serialize(&empty).unwrap(), vec![0]);
    assert_eq!(deserialize::<[u64; 0]>(&[0]), Ok(empty));
}

#[test]
fn other_array_item_kinds() {
    let a: [u16; 2] = [1, 2];
    assert_eq!(deserialize::<[u16; 2]>(&serialize(&a).unwrap()), Ok(a));
    let a: [u64; 2] = [u64::MAX, 2];
    assert_eq!(deserialize::<[u64; 2]>(&serialize(&a).unwrap()), Ok(a));
    let a: [i8; 2] = [-128, 127];
    assert_eq!(deserialize::<[i8; 2]>(&serialize(&a).unwrap()), Ok(a));
    let a: [i32; 2] = [i32::MIN, i32::MAX];
    assert_eq!(deserialize::<[i32; 2]>(&serialize(&a).unwrap()), Ok(a));
    let a: [i64; 2] = [i64::MIN, i64::MAX];
    assert_eq!(deserialize::<[i64; 2]>(&serialize(&a).unwrap()), Ok(a));
    let a: [Double; 1] = [Double { bits: 7.5f64.to_bits() }];
    assert_eq!(deserialize::<[Double; 1]>(&serialize(&a).unwrap()), Ok(a));
}

#[test]
fn wrong_array_length_stops_after_the_prefix() {
    let data = [3u8, 1, 2, 3, 4];
    let mut de = JaguarDeserializer::new(&data);
    assert_eq!(<[u32; 4]>::deserialize(&mut de), Err(SerError::InvalidLength));
    assert_eq!(de.position(), 1);

    let data = [0xACu8, 0x02, 1, 2];
    let mut de = JaguarDeserializer::new(&data);
    assert_eq!(<[bool; 2]>::deserialize(&mut de), Err(SerError::InvalidLength));
    assert_eq!(de.position(), 2);

    let mut de = JaguarDeserializer::new(&[5, 1]);
    assert_eq!(<[u16; 4]>::deserialize(&mut de), Err(SerError::InvalidLength));
}

#[test]
fn array_items_must_be_present() {
    let data = [4u8, 1, 2];
    assert_eq!(deserialize::<[u32; 4]>(&data), Err(SerError::BufferTooSmall));
    assert_eq!(deserialize::<[u32; 4]>(&[]), Err(SerError::BufferTooSmall));
}

#[test]
fn raw_byte_arrays() {
    let data = [1u8, 2, 3, 4, 5];
    let mut de = JaguarDeserializer::new(&data);
    assert_eq!(de.read_fixed_array::<2>(), Ok([1, 2]));
    assert_eq!(de.position(), 2);
    assert_eq!(de.read_fixed_array::<0>(), Ok([]));
    assert_eq!(de.read_fixed_array::<4>(), Err(SerError::BufferTooSmall));
    assert_eq!(de.read_fixed_array::<3>(), Ok([3, 4, 5]));
    assert_eq!(deserialize::<[u8; 6]>(&data), Err(SerError::BufferTooSmall));

    let mut ser = JaguarSerializer::new();
    ser.write_raw(&[7, 8]).unwrap();
    [9u8, 10].serialize(&mut ser).unwrap();
    assert_eq!(ser.data(), &[7, 8, 9, 10]);
}

#[test]
fn vectors_and_pairs() {
    let v: Vec<(u8, i32)> = vec![(1, -1), (2, 64)];
    let data = serialize(&v).unwrap();
    assert_eq!(data, vec![2, 1, 1, 2, 0x80, 0x01]);
    assert_eq!(deserialize::<Vec<(u8, i32)>>(&data), Ok(v));

    let nested: Vec<Vec<u8>> = vec![vec![], vec![5, 6]];
    let data = serialize(&nested).unwrap();
    assert_eq!(data, vec![2, 0, 2, 5, 6]);
    assert_eq!(deserialize::<Vec<Vec<u8>>>(&data), Ok(nested));

    let pair = (String::from("k"), 300u64);
    let data = serialize(&pair).unwrap();
    assert_eq!(data, vec![1, b'k', 0xAC, 0x02]);
    assert_eq!(deserialize::<(String, u64)>(&data), Ok(pair));
}

#[test]
fn pair_fails_with_its_first_failing_field() {
    assert_eq!(deserialize::<(u8, u8)>(&[1]), Err(SerError::BufferTooSmall));
    assert_eq!(deserialize::<(Single, u8)>(&[9, 1]), Err(SerError::InvalidData));
    assert_eq!(deserialize::<(u8, Single)>(&[9, 9]), Err(SerError::InvalidData));
    assert_eq!(deserialize::<(u8, [u16; 1])>(&[9, 2, 1, 1]), Err(SerError::InvalidLength));
}

#[test]
fn decoding_leaves_the_rest_alone() {
    let data = [5u8, 6, 7];
    assert_eq!(deserialize::<u8>(&data), Ok(5));
    let mut de = JaguarDeserializer::new(&data);
    assert!(de.has_data());
    assert_eq!(de.position(), 0);
    assert_eq!(u8::deserialize(&mut de), Ok(5));
    assert_eq!(de.position(), 1);
    assert_eq!(<(u8, u8)>::deserialize(&mut de), Ok((6, 7)));
    assert_eq!(de.position(), 3);
    assert!(!de.has_data());
}

#[test]
fn two_readers_share_a_region() {
    let data = [1u8, 2];
    let mut first = JaguarDeserializer::new(&data);
    let mut second = JaguarDeserializer::new(&data);
    assert_eq!(first.read_u8(), Ok(1));
    assert_eq!(second.read_u8(), Ok(1));
    assert_eq!(first.read_u8(), Ok(2));
    assert_eq!(second.position(), 1);
}

#[test]
fn malformed_utf8_is_rejected() {
    let overlong = [2u8, 0xC0, 0x80];
    assert_eq!(JaguarDeserializer::new(&overlong).read_str(), Err(SerError::InvalidData));
    let too_large = [4u8, 0xF4, 0x90, 0x80, 0x80];
    assert_eq!(JaguarDeserializer::new(&too_large).read_str(), Err(SerError::InvalidData));
    let cut_short = [2u8, 0xE2, 0x82];
    assert_eq!(JaguarDeserializer::new(&cut_short).read_str(), Err(SerError::InvalidData));
    let stray = [1u8, 0x80];
    assert_eq!(JaguarDeserializer::new(&stray).read_str(), Err(SerError::InvalidData));
    let largest = [4u8, 0xF4, 0x8F, 0xBF, 0xBF];
    assert_eq!(JaguarDeserializer::new(&largest).read_str(), Ok("\u{10FFFF}"));
    let empty = [0u8];
    assert_eq!(JaguarDeserializer::new(&empty).read_str(), Ok(""));
}

#[test]
fn packing_one_byte() {
    assert_eq!(jaguar::bools::pack_byte(&[true, false, true], 0), 0b101);
    assert_eq!(jaguar::bools::pack_byte(&[true; 9], 0), 0xFF);
    assert_eq!(jaguar::bools::pack_byte(&[true; 9], 8), 0x01);
    assert_eq!(
        jaguar::bools::pack_byte(&[false, false, false, false, false, false, false, true], 0),
        0x80,
    );
    assert_eq!(jaguar::bools::pack_byte(&[false, true, true], 1), 0b11);
}

#[test]
fn generic_item_helpers() {
    let mut ser = JaguarSerializer::new();
    jaguar::codec::write_items(&[1u16, 128], &mut ser).unwrap();
    assert_eq!(ser.data(), &[1, 0x80, 0x01]);
    let data = ser.finish();
    let mut de = JaguarDeserializer::new(&data);
    assert_eq!(jaguar::codec::read_items::<u16>(&mut de, 2), Ok(vec![1, 128]));
    let mut de = JaguarDeserializer::new(&data);
    assert_eq!(jaguar::codec::read_items::<u16>(&mut de, 3), Err(SerError::BufferTooSmall));
    let mut de = JaguarDeserializer::new(&data);
    assert_eq!(jaguar::codec::read_items::<u16>(&mut de, 0), Ok(vec![]));
    assert_eq!(de.position(), 0);
}
