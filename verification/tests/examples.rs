use jaguar::{
    deserialize, serialize, JaguarDeserialize, JaguarDeserializer, JaguarSerialize,
    JaguarSerializer, SerError, Single,
};

#[test]
fn string_is_length_then_utf8_bytes() {
    let input = "Hello, world! 🚀";
    assert_eq!(input.len(), 18);

    let mut ser = JaguarSerializer::new();
    ser.write_str(input).unwrap();
    let data = ser.finish();

    assert_eq!(data.len(), 19);
    assert_eq!(data[0], 0x12);
    assert_eq!(&data[1..], input.as_bytes());

    let mut de = JaguarDeserializer::new(&data);
    assert_eq!(de.read_str().unwrap(), input);
    assert_eq!(de.position(), 19);
    assert!(!de.has_data());
}

#[test]
fn float_marker_table() {
    let mut ser = JaguarSerializer::new();
    ser.write_f32(Single::from_bits(0.0f32.to_bits())).unwrap();
    ser.write_f32(Single::from_bits(1.0f32.to_bits())).unwrap();
    ser.write_f32(Single::from_bits((-1.0f32).to_bits())).unwrap();
    ser.write_f32(Single::from_bits(3.14159f32.to_bits())).unwrap();
    let data = ser.finish();

    let raw = 3.14159f32.to_bits().to_le_bytes();
    assert_eq!(data, vec![0x00, 0x01, 0x02, 0xFF, raw[0], raw[1], raw[2], raw[3]]);
    assert_eq!(data, vec![0x00, 0x01, 0x02, 0xFF, 0xD0, 0x0F, 0x49, 0x40]);

    let mut de = JaguarDeserializer::new(&data);
    assert_eq!(f32::from_bits(de.read_f32().unwrap().to_bits()), 0.0);
    assert_eq!(f32::from_bits(de.read_f32().unwrap().to_bits()), 1.0);
    assert_eq!(f32::from_bits(de.read_f32().unwrap().to_bits()), -1.0);
    assert_eq!(f32::from_bits(de.read_f32().unwrap().to_bits()), 3.14159);
    assert!(!de.has_data());
}

#[test]
fn u128_max_is_two_full_varints() {
    let value = u128::MAX;
    let data = serialize(&value).unwrap();

    let full = [0xFF, 0xFF, 0xFF, 0xFF, 0xFF, 0xFF, 0xFF, 0xFF, 0xFF, 0x01];
    assert_eq!(data.len(), 20);
    assert_eq!(&data[..10], &full);
    assert_eq!(&data[10..], &full);

    let decoded: u128 = deserialize(&data).unwrap();
    assert_eq!(decoded, value);
}

#[test]
fn u128_high_half_comes_first() {
    let value: u128 = (5u128 << 64) | 300;
    let data = serialize(&value).unwrap();
    assert_eq!(data, vec![0x05, 0xAC, 0x02]);
    let decoded: u128 = deserialize(&data).unwrap();
    assert_eq!(decoded, value);
}

#[test]
fn byte_array_has_no_length_prefix() {
    let input = [1u8; 32];
    let data = serialize(&input).unwrap();
    assert_eq!(data.len(), 32);
    assert!(data.iter().all(|&b| b == 0x01));

    let decoded: [u8; 32] = deserialize(&data).unwrap();
    assert_eq!(decoded, input);
}

#[derive(Debug, Clone, PartialEq)]
struct Record {
    a: u8,
    b: String,
    c: (u16, u32),
    d: [u8; 2],
}

impl JaguarSerialize for Record {
    fn serialize(&self, ser: &mut JaguarSerializer) -> Result<(), SerError> {
        self.a.serialize(ser)?;
        self.b.serialize(ser)?;
        self.c.serialize(ser)?;
        self.d.serialize(ser)?;
        Ok(())
    }
}

impl<'a> JaguarDeserialize<'a> for Record {
    fn deserialize(de: &mut JaguarDeserializer<'a>) -> Result<Self, SerError> {
        let a = <u8 as JaguarDeserialize>::deserialize(de)?;
        let b = <String as JaguarDeserialize>::deserialize(de)?;
        let c = <(u16, u32) as JaguarDeserialize>::deserialize(de)?;
        let d = <[u8; 2] as JaguarDeserialize>::deserialize(de)?;
        Ok(Self { a, b, c, d })
    }
}

#[test]
fn record_is_its_fields_in_declared_order() {
    let record = Record { a: 0x2A, b: String::from("x"), c: (128, 25600), d: [9, 9] };
    let data = serialize(&record).unwrap();
    assert_eq!(data, vec![0x2A, 0x01, b'x', 0x80, 0x01, 0x80, 0xC8, 0x01, 0x09, 0x09]);

    let decoded: Record = deserialize(&data).unwrap();
    assert_eq!(decoded, record);
}

#[derive(Debug, PartialEq)]
struct Unit;

impl JaguarSerialize for Unit {
    fn serialize(&self, _ser: &mut JaguarSerializer) -> Result<(), SerError> {
        Ok(())
    }
}

impl<'a> JaguarDeserialize<'a> for Unit {
    fn deserialize(_de: &mut JaguarDeserializer<'a>) -> Result<Self, SerError> {
        Ok(Unit)
    }
}

#[test]
fn unit_record_is_empty() {
    let data = serialize(&Unit).unwrap();
    assert!(data.is_empty());
    let decoded: Unit = deserialize(&data).unwrap();
    assert_eq!(decoded, Unit);
}

#[test]
fn ten_alternating_booleans() {
    let bools: Vec<bool> = (0..10).map(|i| i % 2 == 0).collect();
    let mut ser = JaguarSerializer::new();
    ser.write_bool_slice(&bools).unwrap();
    let data = ser.finish();
    assert_eq!(data, vec![0x0A, 0x55, 0x01]);

    let mut de = JaguarDeserializer::new(&data);
    assert_eq!(de.read_bool_vec().unwrap(), bools);
    assert_eq!(de.position(), 3);
}
