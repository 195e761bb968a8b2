use jaguar::{JaguarSerialize, JaguarSerializer, Single};

#[test]
fn new_writer_is_empty() {
    let ser = JaguarSerializer::new();
    assert_eq!(ser.len(), 0);
    assert_eq!(ser.data(), &[] as &[u8]);
    assert_eq!(ser.finish(), Vec::<u8>::new());

    let ser = JaguarSerializer::with_capacity(0);
    assert_eq!(ser.finish(), Vec::<u8>::new());
}

#[test]
fn data_shows_what_was_written() {
    let mut ser = JaguarSerializer::with_capacity(4);
    ser.write_u8(1).unwrap();
    assert_eq!(ser.data(), &[1]);
    ser.write_varint(300).unwrap();
    assert_eq!(ser.data(), &[1, 0xAC, 0x02]);
    assert_eq!(ser.len(), 3);
    assert_eq!(ser.finish(), vec![1, 0xAC, 0x02]);
}

#[test]
fn reset_starts_over() {
    let mut ser = JaguarSerializer::new();
    ser.write_bytes(&[1, 2, 3, 4, 5, 6, 7, 8]).unwrap();
    ser.reset();
    assert_eq!(ser.len(), 0);
    assert_eq!(ser.data(), &[] as &[u8]);
    ser.write_u8(9).unwrap();
    assert_eq!(ser.data(), &[9]);
    ser.write_str("ab").unwrap();
    assert_eq!(ser.finish(), vec![9, 2, b'a', b'b']);
}

#[test]
fn rewind_takes_back_the_tail() {
    let mut ser = JaguarSerializer::new();
    ser.write_u8(1).unwrap();
    let mark = ser.len();
    ser.write_u64_slice(&[5, 6, 7]).unwrap();
    ser.rewind(mark);
    assert_eq!(ser.data(), &[1]);
    ser.rewind(10);
    assert_eq!(ser.data(), &[1]);
    ser.write_u8(2).unwrap();
    assert_eq!(ser.finish(), vec![1, 2]);
}

#[test]
fn buffer_grows_as_needed() {
    let mut ser = JaguarSerializer::with_capacity(1);
    let mut expected = Vec::new();
    for i in 0..5000u32 {
        ser.write_u8(i as u8).unwrap();
        expected.push(i as u8);
    }
    let big = vec![0xEEu8; 100_000];
    ser.write_raw(&big).unwrap();
    expected.extend_from_slice(&big);
    assert_eq!(ser.len(), expected.len());
    assert_eq!(ser.finish(), expected);
}

#[test]
fn stale_bytes_do_not_come_back() {
    let mut ser = JaguarSerializer::new();
    ser.write_raw(&[0xAA; 64]).unwrap();
    ser.reset();
    ser.write_bool_slice(&[false; 16]).unwrap();
    ser.write_f32(Single::from_bits(0)).unwrap();
    ser.write_varint(0).unwrap();
    0u128.serialize(&mut ser).unwrap();
    assert_eq!(ser.finish(), vec![16, 0, 0, 0, 0, 0, 0]);
}

#[test]
fn room_does_not_change_what_is_written() {
    for capacity in [0usize, 1, 3, 1024, 5000] {
        let mut ser = JaguarSerializer::with_capacity(capacity);
        assert_eq!(ser.len(), 0);
        assert_eq!(ser.data(), &[] as &[u8]);
        ser.write_bytes(&[1, 2, 3, 4]).unwrap();
        ser.write_varint(300).unwrap();
        assert_eq!(ser.len(), 7);
        assert_eq!(ser.finish(), vec![4, 1, 2, 3, 4, 0xAC, 0x02]);
    }
}
