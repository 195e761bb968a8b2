//! The two traits by which a type takes part in the codec, and their
//! implementations for the primitive kinds and for aggregates of them.
//!
//! An aggregate is encoded as its fields' encodings in declared order, with
//! nothing between them, and decoded by decoding the fields in that order.

use vstd::prelude::*;
use crate::bools::{bool_byte, parse_bool};
use crate::error::{Parsed, SerError};
use crate::floats::{
    float32, float64, normalized32, normalized64, parse_float32, parse_float64, Double, Single,
};
use crate::items::{
    after, joined, lemma_after_nothing, lemma_after_push, lemma_joined_step, lemma_repeat_len,
    repeat,
};
use crate::payload::{parse_raw, parse_text, parse_u8, text};
use crate::reader::JaguarDeserializer;
use crate::varint::{parse_u16, parse_u32, parse_varint, parse_wide, varint, wide};
use crate::writer::{JaguarSerializer, LIMIT};
use crate::zigzag::{parse_i16, parse_i32, parse_i8, parse_signed_varint, signed_varint};

verus! {

/// What a value means to the format, whatever its Rust type: the stream
/// carries no types, so a decoder can be held to no more than this.
pub enum Value {
    /// An integer of any width, or the bit pattern of a float, with minus
    /// zero taken for zero.
    Int(int),
    /// A boolean.
    Bool(bool),
    /// A text.
    Text(Seq<char>),
    /// A sequence, a tuple or a record: the values of its items or fields
    /// in order.
    List(Seq<Value>),
}

/// A type that can be encoded.
pub trait JaguarSerialize {
    /// The bytes that encode this value. A type that does not say is
    /// encoded by unspecified bytes.
    open spec fn wire(&self) -> Seq<u8> {
        arbitrary()
    }

    /// Whether `serialize` fails for this type only when the output would
    /// outgrow the writer's limit, and then writes nothing. A type that does
    /// not say promises only what a successful call has written.
    open spec fn exact() -> bool {
        false
    }

    /// Appends the encoding of this value to what `ser` has written.
    fn serialize(&self, ser: &mut JaguarSerializer) -> (r: Result<(), SerError>)
        ensures
            r is Ok ==> final(ser)@ == old(ser)@ + self.wire(),
            Self::exact() ==> old(ser).appends(final(ser), self.wire(), r),
    ;
}

/// A type that can be decoded.
pub trait JaguarDeserialize<'a>: Sized {
    /// What this value means to the format.
    open spec fn model(&self) -> Value {
        arbitrary()
    }

    /// What decoding this type makes of `bytes`: the meaning of the decoded
    /// value and the number of bytes taken, or the error.
    open spec fn parse(bytes: Seq<u8>) -> Parsed<Value> {
        arbitrary()
    }

    /// Decodes a value from where `de` stands.
    fn deserialize(de: &mut JaguarDeserializer<'a>) -> (r: Result<Self, SerError>)
        ensures
            old(de).reads(
                final(de),
                (match r {
                    Ok(v) => Ok::<Value, SerError>(v.model()),
                    Err(e) => Err(e),
                }),
                Self::parse(old(de).remaining()),
            ),
    ;
}

/// The meaning of a decoded value, or the error.
pub open spec fn modeled<'a, T: JaguarDeserialize<'a>>(r: Result<T, SerError>) -> Result<
    Value,
    SerError,
> {
    match r {
        Ok(v) => Ok(v.model()),
        Err(e) => Err(e),
    }
}

/// A parse result with its value turned into the integer it means.
pub open spec fn as_int<T: Integer>(p: Parsed<T>) -> Parsed<Value> {
    match p {
        Ok((v, n)) => Ok((Value::Int(v as int), n)),
        Err(e) => Err(e),
    }
}

impl JaguarSerialize for u8 {
    open spec fn wire(&self) -> Seq<u8> {
        seq![*self]
    }

    open spec fn exact() -> bool {
        true
    }

    fn serialize(&self, ser: &mut JaguarSerializer) -> (r: Result<(), SerError>) {
        ser.write_u8(*self)
    }
}

impl<'a> JaguarDeserialize<'a> for u8 {
    open spec fn model(&self) -> Value {
        Value::Int(*self as int)
    }

    open spec fn parse(bytes: Seq<u8>) -> Parsed<Value> {
        as_int(parse_u8(bytes))
    }

    fn deserialize(de: &mut JaguarDeserializer<'a>) -> (r: Result<Self, SerError>) {
        de.read_u8()
    }
}

impl JaguarSerialize for u16 {
    open spec fn wire(&self) -> Seq<u8> {
        varint(*self as u64)
    }

    open spec fn exact() -> bool {
        true
    }

    fn serialize(&self, ser: &mut JaguarSerializer) -> (r: Result<(), SerError>) {
        ser.write_varint(*self as u64)
    }
}

impl<'a> JaguarDeserialize<'a> for u16 {
    open spec fn model(&self) -> Value {
        Value::Int(*self as int)
    }

    open spec fn parse(bytes: Seq<u8>) -> Parsed<Value> {
        as_int(parse_u16(bytes))
    }

    fn deserialize(de: &mut JaguarDeserializer<'a>) -> (r: Result<Self, SerError>) {
        let v: u64 = de.read_varint()?;
        Ok(#[verifier::truncate] (v as u16))
    }
}

impl JaguarSerialize for u32 {
    open spec fn wire(&self) -> Seq<u8> {
        varint(*self as u64)
    }

    open spec fn exact() -> bool {
        true
    }

    fn serialize(&self, ser: &mut JaguarSerializer) -> (r: Result<(), SerError>) {
        ser.write_varint(*self as u64)
    }
}

impl<'a> JaguarDeserialize<'a> for u32 {
    open spec fn model(&self) -> Value {
        Value::Int(*self as int)
    }

    open spec fn parse(bytes: Seq<u8>) -> Parsed<Value> {
        as_int(parse_u32(bytes))
    }

    fn deserialize(de: &mut JaguarDeserializer<'a>) -> (r: Result<Self, SerError>) {
        let v: u64 = de.read_varint()?;
        Ok(#[verifier::truncate] (v as u32))
    }
}

impl JaguarSerialize for u64 {
    open spec fn wire(&self) -> Seq<u8> {
        varint(*self)
    }

    open spec fn exact() -> bool {
        true
    }

    fn serialize(&self, ser: &mut JaguarSerializer) -> (r: Result<(), SerError>) {
        ser.write_varint(*self)
    }
}

impl<'a> JaguarDeserialize<'a> for u64 {
    open spec fn model(&self) -> Value {
        Value::Int(*self as int)
    }

    open spec fn parse(bytes: Seq<u8>) -> Parsed<Value> {
        as_int(parse_varint(bytes))
    }

    fn deserialize(de: &mut JaguarDeserializer<'a>) -> (r: Result<Self, SerError>) {
        de.read_varint()
    }
}

impl JaguarSerialize for i8 {
    open spec fn wire(&self) -> Seq<u8> {
        signed_varint(*self as i64)
    }

    open spec fn exact() -> bool {
        true
    }

    fn serialize(&self, ser: &mut JaguarSerializer) -> (r: Result<(), SerError>) {
        ser.write_signed_varint(*self as i64)
    }
}

impl<'a> JaguarDeserialize<'a> for i8 {
    open spec fn model(&self) -> Value {
        Value::Int(*self as int)
    }

    open spec fn parse(bytes: Seq<u8>) -> Parsed<Value> {
        as_int(parse_i8(bytes))
    }

    fn deserialize(de: &mut JaguarDeserializer<'a>) -> (r: Result<Self, SerError>) {
        let v: i64 = de.read_signed_varint()?;
        Ok(#[verifier::truncate] (v as i8))
    }
}

impl JaguarSerialize for i16 {
    open spec fn wire(&self) -> Seq<u8> {
        signed_varint(*self as i64)
    }

    open spec fn exact() -> bool {
        true
    }

    fn serialize(&self, ser: &mut JaguarSerializer) -> (r: Result<(), SerError>) {
        ser.write_signed_varint(*self as i64)
    }
}

impl<'a> JaguarDeserialize<'a> for i16 {
    open spec fn model(&self) -> Value {
        Value::Int(*self as int)
    }

    open spec fn parse(bytes: Seq<u8>) -> Parsed<Value> {
        as_int(parse_i16(bytes))
    }

    fn deserialize(de: &mut JaguarDeserializer<'a>) -> (r: Result<Self, SerError>) {
        let v: i64 = de.read_signed_varint()?;
        Ok(#[verifier::truncate] (v as i16))
    }
}

impl JaguarSerialize for i32 {
    open spec fn wire(&self) -> Seq<u8> {
        signed_varint(*self as i64)
    }

    open spec fn exact() -> bool {
        true
    }

    fn serialize(&self, ser: &mut JaguarSerializer) -> (r: Result<(), SerError>) {
        ser.write_signed_varint(*self as i64)
    }
}

impl<'a> JaguarDeserialize<'a> for i32 {
    open spec fn model(&self) -> Value {
        Value::Int(*self as int)
    }

    open spec fn parse(bytes: Seq<u8>) -> Parsed<Value> {
        as_int(parse_i32(bytes))
    }

    fn deserialize(de: &mut JaguarDeserializer<'a>) -> (r: Result<Self, SerError>) {
        let v: i64 = de.read_signed_varint()?;
        Ok(#[verifier::truncate] (v as i32))
    }
}

impl JaguarSerialize for i64 {
    open spec fn wire(&self) -> Seq<u8> {
        signed_varint(*self)
    }

    open spec fn exact() -> bool {
        true
    }

    fn serialize(&self, ser: &mut JaguarSerializer) -> (r: Result<(), SerError>) {
        ser.write_signed_varint(*self)
    }
}

impl<'a> JaguarDeserialize<'a> for i64 {
    open spec fn model(&self) -> Value {
        Value::Int(*self as int)
    }

    open spec fn parse(bytes: Seq<u8>) -> Parsed<Value> {
        as_int(parse_signed_varint(bytes))
    }

    fn deserialize(de: &mut JaguarDeserializer<'a>) -> (r: Result<Self, SerError>) {
        de.read_signed_varint()
    }
}

impl JaguarSerialize for bool {
    open spec fn wire(&self) -> Seq<u8> {
        bool_byte(*self)
    }

    open spec fn exact() -> bool {
        true
    }

    fn serialize(&self, ser: &mut JaguarSerializer) -> (r: Result<(), SerError>) {
        ser.write_bool(*self)
    }
}

impl<'a> JaguarDeserialize<'a> for bool {
    open spec fn model(&self) -> Value {
        Value::Bool(*self)
    }

    open spec fn parse(bytes: Seq<u8>) -> Parsed<Value> {
        match parse_bool(bytes) {
            Ok((b, n)) => Ok((Value::Bool(b), n)),
            Err(e) => Err(e),
        }
    }

    fn deserialize(de: &mut JaguarDeserializer<'a>) -> (r: Result<Self, SerError>) {
        de.read_bool()
    }
}

impl JaguarSerialize for u128 {
    open spec fn wire(&self) -> Seq<u8> {
        wide(*self)
    }

    open spec fn exact() -> bool {
        true
    }

    fn serialize(&self, ser: &mut JaguarSerializer) -> (r: Result<(), SerError>) {
        let high: u64 = (*self / 0x1_0000_0000_0000_0000) as u64;
        let low: u64 = (*self % 0x1_0000_0000_0000_0000) as u64;
        let mark: usize = ser.len();
        ser.write_varint(high)?;
        if ser.write_varint(low).is_err() {
            ser.rewind(mark);
            assert(ser@ =~= old(ser)@);
            return Err(SerError::BufferTooSmall);
        }
        assert(ser@ =~= old(ser)@ + wide(*self));
        Ok(())
    }
}

impl<'a> JaguarDeserialize<'a> for u128 {
    open spec fn model(&self) -> Value {
        Value::Int(*self as int)
    }

    open spec fn parse(bytes: Seq<u8>) -> Parsed<Value> {
        as_int(parse_wide(bytes))
    }

    fn deserialize(de: &mut JaguarDeserializer<'a>) -> (r: Result<Self, SerError>) {
        let high: u64 = de.read_varint()?;
        let ghost mid = de.remaining();
        let ghost n = (de.spec_position() - old(de).spec_position()) as int;
        assert(mid =~= old(de).remaining().skip(n));
        let low: u64 = de.read_varint()?;
        Ok(high as u128 * 0x1_0000_0000_0000_0000 + low as u128)
    }
}

impl JaguarSerialize for Single {
    open spec fn wire(&self) -> Seq<u8> {
        float32(*self)
    }

    open spec fn exact() -> bool {
        true
    }

    fn serialize(&self, ser: &mut JaguarSerializer) -> (r: Result<(), SerError>) {
        ser.write_f32(*self)
    }
}

impl<'a> JaguarDeserialize<'a> for Single {
    open spec fn model(&self) -> Value {
        Value::Int(normalized32(*self).bits as int)
    }

    open spec fn parse(bytes: Seq<u8>) -> Parsed<Value> {
        match parse_float32(bytes) {
            Ok((value, n)) => Ok((Value::Int(normalized32(value).bits as int), n)),
            Err(e) => Err(e),
        }
    }

    fn deserialize(de: &mut JaguarDeserializer<'a>) -> (r: Result<Self, SerError>)
        ensures
            r matches Ok(v) ==> parse_float32(old(de).remaining()) matches Ok((value, _)) && v
                == value,
    {
        de.read_f32()
    }
}

impl JaguarSerialize for Double {
    open spec fn wire(&self) -> Seq<u8> {
        float64(*self)
    }

    open spec fn exact() -> bool {
        true
    }

    fn serialize(&self, ser: &mut JaguarSerializer) -> (r: Result<(), SerError>) {
        ser.write_f64(*self)
    }
}

impl<'a> JaguarDeserialize<'a> for Double {
    open spec fn model(&self) -> Value {
        Value::Int(normalized64(*self).bits as int)
    }

    open spec fn parse(bytes: Seq<u8>) -> Parsed<Value> {
        match parse_float64(bytes) {
            Ok((value, n)) => Ok((Value::Int(normalized64(value).bits as int), n)),
            Err(e) => Err(e),
        }
    }

    fn deserialize(de: &mut JaguarDeserializer<'a>) -> (r: Result<Self, SerError>)
        ensures
            r matches Ok(v) ==> parse_float64(old(de).remaining()) matches Ok((value, _)) && v
                == value,
    {
        de.read_f64()
    }
}

/// A parse result with its value turned into the text it means.
pub open spec fn as_text(p: Parsed<Seq<char>>) -> Parsed<Value> {
    match p {
        Ok((chars, n)) => Ok((Value::Text(chars), n)),
        Err(e) => Err(e),
    }
}

impl JaguarSerialize for String {
    open spec fn wire(&self) -> Seq<u8> {
        text(self@)
    }

    open spec fn exact() -> bool {
        true
    }

    fn serialize(&self, ser: &mut JaguarSerializer) -> (r: Result<(), SerError>) {
        ser.write_str(self.as_str())
    }
}

impl<'a> JaguarDeserialize<'a> for String {
    open spec fn model(&self) -> Value {
        Value::Text(self@)
    }

    open spec fn parse(bytes: Seq<u8>) -> Parsed<Value> {
        as_text(parse_text(bytes))
    }

    fn deserialize(de: &mut JaguarDeserializer<'a>) -> (r: Result<Self, SerError>) {
        let s: &'a str = de.read_str()?;
        Ok(s.to_owned())
    }
}

/// A text that is written from, and read into, a borrowed string slice.
#[derive(Debug, Clone, Copy, PartialEq)]
pub struct StrRef<'a>(pub &'a str);

impl<'a> JaguarSerialize for StrRef<'a> {
    open spec fn wire(&self) -> Seq<u8> {
        text(self.0@)
    }

    open spec fn exact() -> bool {
        true
    }

    fn serialize(&self, ser: &mut JaguarSerializer) -> (r: Result<(), SerError>) {
        ser.write_str(self.0)
    }
}

impl<'a> JaguarDeserialize<'a> for StrRef<'a> {
    open spec fn model(&self) -> Value {
        Value::Text(self.0@)
    }

    open spec fn parse(bytes: Seq<u8>) -> Parsed<Value> {
        as_text(parse_text(bytes))
    }

    fn deserialize(de: &mut JaguarDeserializer<'a>) -> (r: Result<Self, SerError>) {
        let s: &'a str = de.read_str()?;
        Ok(StrRef(s))
    }
}

/// The encodings of `items`, one after the other.
pub open spec fn wires<T: JaguarSerialize>(items: Seq<T>) -> Seq<u8> {
    joined(items, |x: T| x.wire())
}

/// What the items of a sequence mean to the format.
pub open spec fn models<'a, T: JaguarDeserialize<'a>>(items: Seq<T>) -> Seq<Value> {
    items.map_values(|x: T| x.model())
}

/// What decoding `count` values of type `T` in a row makes of `bytes`.
pub open spec fn parse_items<'a, T: JaguarDeserialize<'a>>(bytes: Seq<u8>, count: nat) -> Parsed<
    Seq<Value>,
> {
    repeat(|b: Seq<u8>| T::parse(b), bytes, count)
}

/// Encodes `items` one after the other. If an item fails, what was written
/// for the items before it is taken back.
pub fn write_items<T: JaguarSerialize>(items: &[T], ser: &mut JaguarSerializer) -> (r: Result<
    (),
    SerError,
>)
    ensures
        r is Ok ==> final(ser)@ == old(ser)@ + wires(items@),
        T::exact() ==> old(ser).appends(final(ser), wires(items@), r),
{
    let n: usize = items.len();
    let mark: usize = ser.len();
    let mut i: usize = 0;
    assert(ser@ =~= old(ser)@ + wires(items@.take(0)));
    while i < n
        invariant
            i <= n,
            n == items@.len(),
            mark == old(ser)@.len(),
            ser@ == old(ser)@ + wires(items@.take(i as int)),
            T::exact() ==> ser@.len() <= LIMIT,
            T::exact() ==> ser.physical_len() >= old(ser).physical_len(),
            T::exact() && old(ser)@.len() + wires(items@).len() <= old(ser).physical_len()
                ==> ser.physical_len() == old(ser).physical_len(),
        decreases n - i,
    {
        proof {
            lemma_joined_step(items@, |x: T| x.wire(), i as int);
        }
        match items[i].serialize(ser) {
            Ok(()) => {
                assert(ser@ =~= old(ser)@ + wires(items@.take(i + 1)));
            },
            Err(e) => {
                ser.rewind(mark);
                proof {
                    if T::exact() {
                        assert(ser@ =~= old(ser)@);
                    }
                }
                return Err(e);
            },
        }
        i = i + 1;
    }
    proof {
        assert(items@.take(n as int) =~= items@);
    }
    Ok(())
}

/// Decodes `count` values of type `T`, each from where the one before it
/// ended. The first failure ends the decoding.
pub fn read_items<'a, T: JaguarDeserialize<'a>>(de: &mut JaguarDeserializer<'a>, count: u64) -> (r:
    Result<Vec<T>, SerError>)
    ensures
        old(de).reads(
            final(de),
            (match r {
                Ok(v) => Ok::<Seq<Value>, SerError>(models(v@)),
                Err(e) => Err(e),
            }),
            parse_items::<T>(old(de).remaining(), count as nat),
        ),
{
    let ghost payload = de.remaining();
    let start: usize = de.position();
    let mut vec: Vec<T> = Vec::new();
    let mut i: u64 = 0;
    proof {
        assert(models(vec@) =~= Seq::empty());
        lemma_after_nothing(parse_items::<T>(payload, count as nat));
    }
    while i < count
        invariant
            i <= count,
            de.input() == old(de).input(),
            start == old(de).spec_position(),
            payload == old(de).remaining(),
            start <= de.spec_position() <= de.input().len(),
            parse_items::<T>(payload, count as nat) == after(
                models(vec@),
                (de.spec_position() - start) as nat,
                parse_items::<T>(de.remaining(), (count - i) as nat),
            ),
        decreases count - i,
    {
        let ghost rest = de.remaining();
        let ghost used = (de.spec_position() - start) as nat;
        let ghost before = models(vec@);
        match T::deserialize(de) {
            Ok(item) => {
                proof {
                    let n = (de.spec_position() - start - used) as nat;
                    assert(de.remaining() =~= rest.skip(n as int));
                    lemma_after_push(
                        before,
                        used,
                        item.model(),
                        n,
                        parse_items::<T>(de.remaining(), (count - i - 1) as nat),
                    );
                }
                vec.push(item);
                assert(models(vec@) =~= before.push(item.model()));
            },
            Err(e) => {
                return Err(e);
            },
        }
        i = i + 1;
    }
    proof {
        assert(models(vec@) + Seq::empty() =~= models(vec@));
    }
    Ok(vec)
}

impl<T: JaguarSerialize> JaguarSerialize for Vec<T> {
    open spec fn wire(&self) -> Seq<u8> {
        varint(self@.len() as u64) + wires(self@)
    }

    open spec fn exact() -> bool {
        T::exact()
    }

    fn serialize(&self, ser: &mut JaguarSerializer) -> (r: Result<(), SerError>) {
        let mark: usize = ser.len();
        ser.write_varint(self.len() as u64)?;
        match write_items(self.as_slice(), ser) {
            Ok(()) => {
                assert(ser@ =~= old(ser)@ + self.wire());
                Ok(())
            },
            Err(e) => {
                ser.rewind(mark);
                proof {
                    if T::exact() {
                        assert(ser@ =~= old(ser)@);
                    }
                }
                Err(e)
            },
        }
    }
}

impl<'a, T: JaguarDeserialize<'a>> JaguarDeserialize<'a> for Vec<T> {
    open spec fn model(&self) -> Value {
        Value::List(models(self@))
    }

    open spec fn parse(bytes: Seq<u8>) -> Parsed<Value> {
        match parse_varint(bytes) {
            Ok((count, n)) => match parse_items::<T>(bytes.skip(n as int), count as nat) {
                Ok((items, m)) => Ok((Value::List(items), n + m)),
                Err(e) => Err(e),
            },
            Err(e) => Err(e),
        }
    }

    fn deserialize(de: &mut JaguarDeserializer<'a>) -> (r: Result<Self, SerError>) {
        let count: u64 = de.read_varint()?;
        proof {
            let n = (de.spec_position() - old(de).spec_position()) as int;
            assert(de.remaining() =~= old(de).remaining().skip(n));
        }
        let items: Vec<T> = read_items(de, count)?;
        Ok(items)
    }
}

impl<A: JaguarSerialize, B: JaguarSerialize> JaguarSerialize for (A, B) {
    open spec fn wire(&self) -> Seq<u8> {
        self.0.wire() + self.1.wire()
    }

    open spec fn exact() -> bool {
        A::exact() && B::exact()
    }

    fn serialize(&self, ser: &mut JaguarSerializer) -> (r: Result<(), SerError>) {
        let mark: usize = ser.len();
        self.0.serialize(ser)?;
        match self.1.serialize(ser) {
            Ok(()) => {
                assert(ser@ =~= old(ser)@ + self.wire());
                Ok(())
            },
            Err(e) => {
                ser.rewind(mark);
                proof {
                    if A::exact() && B::exact() {
                        assert(ser@ =~= old(ser)@);
                    }
                }
                Err(e)
            },
        }
    }
}

impl<'a, A: JaguarDeserialize<'a>, B: JaguarDeserialize<'a>> JaguarDeserialize<'a> for (A, B) {
    open spec fn model(&self) -> Value {
        Value::List(seq![self.0.model(), self.1.model()])
    }

    open spec fn parse(bytes: Seq<u8>) -> Parsed<Value> {
        match A::parse(bytes) {
            Ok((a, n)) => match B::parse(bytes.skip(n as int)) {
                Ok((b, m)) => Ok((Value::List(seq![a, b]), n + m)),
                Err(e) => Err(e),
            },
            Err(e) => Err(e),
        }
    }

    fn deserialize(de: &mut JaguarDeserializer<'a>) -> (r: Result<Self, SerError>) {
        let a: A = A::deserialize(de)?;
        proof {
            let n = (de.spec_position() - old(de).spec_position()) as int;
            assert(de.remaining() =~= old(de).remaining().skip(n));
        }
        let b: B = B::deserialize(de)?;
        Ok((a, b))
    }
}

impl<const N: usize> JaguarSerialize for [u8; N] {
    open spec fn wire(&self) -> Seq<u8> {
        self@
    }

    open spec fn exact() -> bool {
        true
    }

    fn serialize(&self, ser: &mut JaguarSerializer) -> (r: Result<(), SerError>) {
        ser.write_raw(self.as_slice())
    }
}

impl<'a, const N: usize> JaguarDeserialize<'a> for [u8; N] {
    open spec fn model(&self) -> Value {
        Value::List(models(self@))
    }

    open spec fn parse(bytes: Seq<u8>) -> Parsed<Value> {
        match parse_raw(bytes, N as nat) {
            Ok((raw, n)) => Ok((Value::List(models(raw)), n)),
            Err(e) => Err(e),
        }
    }

    fn deserialize(de: &mut JaguarDeserializer<'a>) -> (r: Result<Self, SerError>) {
        de.read_fixed_array::<N>()
    }
}

/// A type whose fixed-size arrays are encoded like its sequences: the number
/// of items as a varint, then the items. (Arrays of bytes are not: they are
/// written raw.)
pub trait ArrayItem {

}

impl ArrayItem for u16 {

}

impl ArrayItem for u32 {

}

impl ArrayItem for u64 {

}

impl ArrayItem for i8 {

}

impl ArrayItem for i16 {

}

impl ArrayItem for i32 {

}

impl ArrayItem for i64 {

}

impl ArrayItem for Single {

}

impl ArrayItem for Double {

}

impl ArrayItem for bool {

}

/// Turns a vector into an array with `<[T; N]>::try_from`, which succeeds
/// exactly if the vector holds `N` items; the array then holds the same
/// items in the same order.
#[verifier::external_body]
fn array_from_vec<T, const N: usize>(v: Vec<T>) -> (r: Option<[T; N]>)
    ensures
        r is Some <==> v@.len() == N,
        r matches Some(a) ==> a@ == v@,
{
    <[T; N]>::try_from(v).ok()
}

impl<T: JaguarSerialize + ArrayItem, const N: usize> JaguarSerialize for [T; N] {
    open spec fn wire(&self) -> Seq<u8> {
        varint(N as u64) + wires(self@)
    }

    open spec fn exact() -> bool {
        T::exact()
    }

    fn serialize(&self, ser: &mut JaguarSerializer) -> (r: Result<(), SerError>) {
        let mark: usize = ser.len();
        ser.write_varint(N as u64)?;
        match write_items(self.as_slice(), ser) {
            Ok(()) => {
                assert(ser@ =~= old(ser)@ + self.wire());
                Ok(())
            },
            Err(e) => {
                ser.rewind(mark);
                proof {
                    if T::exact() {
                        assert(ser@ =~= old(ser)@);
                    }
                }
                Err(e)
            },
        }
    }
}

impl<'a, T: JaguarDeserialize<'a> + ArrayItem, const N: usize> JaguarDeserialize<'a> for [T; N] {
    open spec fn model(&self) -> Value {
        Value::List(models(self@))
    }

    open spec fn parse(bytes: Seq<u8>) -> Parsed<Value> {
        match parse_varint(bytes) {
            Ok((count, n)) => if count != N {
                Err(SerError::InvalidLength)
            } else {
                match parse_items::<T>(bytes.skip(n as int), N as nat) {
                    Ok((items, m)) => Ok((Value::List(items), n + m)),
                    Err(e) => Err(e),
                }
            },
            Err(e) => Err(e),
        }
    }

    fn deserialize(de: &mut JaguarDeserializer<'a>) -> (r: Result<Self, SerError>)
        ensures
            (match parse_varint(old(de).remaining()) {
                Ok((count, n)) => count != N ==> r == Err::<Self, SerError>(SerError::InvalidLength)
                    && final(de).spec_position() == old(de).spec_position() + n,
                Err(_) => true,
            }),
    {
        let count: u64 = de.read_varint()?;
        if count != N as u64 {
            return Err(SerError::InvalidLength);
        }
        proof {
            let n = (de.spec_position() - old(de).spec_position()) as int;
            assert(de.remaining() =~= old(de).remaining().skip(n));
        }
        let ghost payload = de.remaining();
        let items: Vec<T> = read_items(de, count)?;
        proof {
            lemma_repeat_len(|b: Seq<u8>| T::parse(b), payload, count as nat);
            assert(models(items@).len() == items@.len());
        }
        match array_from_vec::<T, N>(items) {
            Some(array) => Ok(array),
            None => Err(SerError::InvalidLength),
        }
    }
}

/// Encodes `value` into a fresh vector of bytes.
pub fn serialize<T: JaguarSerialize>(value: &T) -> (r: Result<Vec<u8>, SerError>)
    ensures
        r matches Ok(bytes) ==> bytes@ == value.wire(),
        T::exact() ==> if value.wire().len() <= LIMIT {
            r is Ok
        } else {
            r == Err::<Vec<u8>, SerError>(SerError::BufferTooSmall)
        },
{
    let mut ser = JaguarSerializer::new();
    match value.serialize(&mut ser) {
        Ok(()) => {
            assert(Seq::<u8>::empty() + value.wire() =~= value.wire());
            Ok(ser.finish())
        },
        Err(e) => Err(e),
    }
}

/// Decodes a value from the start of `data`. Bytes that follow the value
/// are left alone.
pub fn deserialize<'a, T: JaguarDeserialize<'a>>(data: &'a [u8]) -> (r: Result<T, SerError>)
    ensures
        match T::parse(data@) {
            Ok((value, n)) => modeled(r) == Ok::<Value, SerError>(value),
            Err(e) => r == Err::<T, SerError>(e),
        },
{
    let mut de = JaguarDeserializer::new(data);
    assert(de.remaining() =~= data@);
    T::deserialize(&mut de)
}

} // verus!
