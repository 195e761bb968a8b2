//! Sequences by the kind of their items. Each is its length as a varint
//! and then its items, every item encoded as it would be alone. (Bytes,
//! 32-bit words and booleans have denser forms of their own.)

use vstd::prelude::*;
use vstd::utf8::encode_utf8;
use crate::error::{Parsed, SerError};
use crate::floats::{
    float32, float64, lemma_float32_round_trip, lemma_float64_round_trip, normalized32,
    normalized64, parse_float32, parse_float64, Double, Single,
};
use crate::items::{counted, lemma_counted_round_trip, parse_counted};
use crate::payload::{lemma_text_round_trip, parse_text, text};
use crate::varint::{lemma_u16_round_trip, lemma_varint_round_trip, parse_u16, parse_varint, varint};
use crate::zigzag::{
    lemma_i16_round_trip, lemma_i8_round_trip, lemma_signed_varint_round_trip, parse_i16,
    parse_i8, parse_signed_varint, signed_varint,
};

verus! {

/// The encoding of a sequence of 16-bit integers: its length, then
/// a varint per integer.
pub open spec fn u16_slice(items: Seq<u16>) -> Seq<u8> {
    counted(items, |v: u16| varint(v as u64))
}

/// What the decoder of a sequence of 16-bit integers makes of `s`.
pub open spec fn parse_u16_slice(s: Seq<u8>) -> Parsed<Seq<u16>> {
    parse_counted(|b: Seq<u8>| parse_u16(b), s)
}

/// The encoding of a sequence of 64-bit integers: its length, then
/// a varint per integer.
pub open spec fn u64_slice(items: Seq<u64>) -> Seq<u8> {
    counted(items, |v: u64| varint(v))
}

/// What the decoder of a sequence of 64-bit integers makes of `s`.
pub open spec fn parse_u64_slice(s: Seq<u8>) -> Parsed<Seq<u64>> {
    parse_counted(|b: Seq<u8>| parse_varint(b), s)
}

/// The encoding of a sequence of signed 8-bit integers: its length, then
/// a signed varint per integer.
pub open spec fn i8_slice(items: Seq<i8>) -> Seq<u8> {
    counted(items, |v: i8| signed_varint(v as i64))
}

/// What the decoder of a sequence of signed 8-bit integers makes of `s`.
pub open spec fn parse_i8_slice(s: Seq<u8>) -> Parsed<Seq<i8>> {
    parse_counted(|b: Seq<u8>| parse_i8(b), s)
}

/// The encoding of a sequence of signed 16-bit integers: its length, then
/// a signed varint per integer.
pub open spec fn i16_slice(items: Seq<i16>) -> Seq<u8> {
    counted(items, |v: i16| signed_varint(v as i64))
}

/// What the decoder of a sequence of signed 16-bit integers makes of `s`.
pub open spec fn parse_i16_slice(s: Seq<u8>) -> Parsed<Seq<i16>> {
    parse_counted(|b: Seq<u8>| parse_i16(b), s)
}

/// The encoding of a sequence of signed 64-bit integers: its length, then
/// a signed varint per integer.
pub open spec fn i64_slice(items: Seq<i64>) -> Seq<u8> {
    counted(items, |v: i64| signed_varint(v))
}

/// What the decoder of a sequence of signed 64-bit integers makes of `s`.
pub open spec fn parse_i64_slice(s: Seq<u8>) -> Parsed<Seq<i64>> {
    parse_counted(|b: Seq<u8>| parse_signed_varint(b), s)
}

/// The encoding of a sequence of single-precision floats: its length, then
/// each float with the shortcut.
pub open spec fn f32_slice(items: Seq<Single>) -> Seq<u8> {
    counted(items, |x: Single| float32(x))
}

/// What the decoder of a sequence of single-precision floats makes of `s`.
pub open spec fn parse_f32_slice(s: Seq<u8>) -> Parsed<Seq<Single>> {
    parse_counted(|b: Seq<u8>| parse_float32(b), s)
}

/// The encoding of a sequence of double-precision floats: its length, then
/// each float with the shortcut.
pub open spec fn f64_slice(items: Seq<Double>) -> Seq<u8> {
    counted(items, |x: Double| float64(x))
}

/// What the decoder of a sequence of double-precision floats makes of `s`.
pub open spec fn parse_f64_slice(s: Seq<u8>) -> Parsed<Seq<Double>> {
    parse_counted(|b: Seq<u8>| parse_float64(b), s)
}

/// The encoding of a sequence of texts: its length, then
/// each text with its own length prefix.
pub open spec fn string_vec(items: Seq<String>) -> Seq<u8> {
    counted(items, |s: String| text(s@))
}

/// What the decoder of a sequence of texts makes of `s`.
pub open spec fn parse_string_vec(s: Seq<u8>) -> Parsed<Seq<Seq<char>>> {
    parse_counted(|b: Seq<u8>| parse_text(b), s)
}

/// A sequence of 16-bit integers round-trips.
pub proof fn lemma_u16_slice_round_trip(items: Seq<u16>, rest: Seq<u8>)
    requires
        items.len() <= u64::MAX,
    ensures
        parse_u16_slice(u16_slice(items) + rest) == Ok::<(Seq<u16>, nat), SerError>(
            (items, u16_slice(items).len()),
        ),
{
    let enc = |v: u16| varint(v as u64);
    let p = |b: Seq<u8>| parse_u16(b);
    let norm = |v: u16| v;
    assert forall|i: int, tail: Seq<u8>| 0 <= i < items.len() implies #[trigger] p(
        enc(items[i]) + tail,
    ) == Ok::<(u16, nat), SerError>((norm(items[i]), enc(items[i]).len())) by {
        lemma_u16_round_trip(items[i], tail);
    }
    lemma_counted_round_trip(items, enc, p, norm, rest);
    assert(items.map_values(|v: u16| v) =~= items);
}

/// A sequence of 64-bit integers round-trips.
pub proof fn lemma_u64_slice_round_trip(items: Seq<u64>, rest: Seq<u8>)
    requires
        items.len() <= u64::MAX,
    ensures
        parse_u64_slice(u64_slice(items) + rest) == Ok::<(Seq<u64>, nat), SerError>(
            (items, u64_slice(items).len()),
        ),
{
    let enc = |v: u64| varint(v);
    let p = |b: Seq<u8>| parse_varint(b);
    let norm = |v: u64| v;
    assert forall|i: int, tail: Seq<u8>| 0 <= i < items.len() implies #[trigger] p(
        enc(items[i]) + tail,
    ) == Ok::<(u64, nat), SerError>((norm(items[i]), enc(items[i]).len())) by {
        lemma_varint_round_trip(items[i], tail);
    }
    lemma_counted_round_trip(items, enc, p, norm, rest);
    assert(items.map_values(|v: u64| v) =~= items);
}

/// A sequence of signed 8-bit integers round-trips.
pub proof fn lemma_i8_slice_round_trip(items: Seq<i8>, rest: Seq<u8>)
    requires
        items.len() <= u64::MAX,
    ensures
        parse_i8_slice(i8_slice(items) + rest) == Ok::<(Seq<i8>, nat), SerError>(
            (items, i8_slice(items).len()),
        ),
{
    let enc = |v: i8| signed_varint(v as i64);
    let p = |b: Seq<u8>| parse_i8(b);
    let norm = |v: i8| v;
    assert forall|i: int, tail: Seq<u8>| 0 <= i < items.len() implies #[trigger] p(
        enc(items[i]) + tail,
    ) == Ok::<(i8, nat), SerError>((norm(items[i]), enc(items[i]).len())) by {
        lemma_i8_round_trip(items[i], tail);
    }
    lemma_counted_round_trip(items, enc, p, norm, rest);
    assert(items.map_values(|v: i8| v) =~= items);
}

/// A sequence of signed 16-bit integers round-trips.
pub proof fn lemma_i16_slice_round_trip(items: Seq<i16>, rest: Seq<u8>)
    requires
        items.len() <= u64::MAX,
    ensures
        parse_i16_slice(i16_slice(items) + rest) == Ok::<(Seq<i16>, nat), SerError>(
            (items, i16_slice(items).len()),
        ),
{
    let enc = |v: i16| signed_varint(v as i64);
    let p = |b: Seq<u8>| parse_i16(b);
    let norm = |v: i16| v;
    assert forall|i: int, tail: Seq<u8>| 0 <= i < items.len() implies #[trigger] p(
        enc(items[i]) + tail,
    ) == Ok::<(i16, nat), SerError>((norm(items[i]), enc(items[i]).len())) by {
        lemma_i16_round_trip(items[i], tail);
    }
    lemma_counted_round_trip(items, enc, p, norm, rest);
    assert(items.map_values(|v: i16| v) =~= items);
}

/// A sequence of signed 64-bit integers round-trips.
pub proof fn lemma_i64_slice_round_trip(items: Seq<i64>, rest: Seq<u8>)
    requires
        items.len() <= u64::MAX,
    ensures
        parse_i64_slice(i64_slice(items) + rest) == Ok::<(Seq<i64>, nat), SerError>(
            (items, i64_slice(items).len()),
        ),
{
    let enc = |v: i64| signed_varint(v);
    let p = |b: Seq<u8>| parse_signed_varint(b);
    let norm = |v: i64| v;
    assert forall|i: int, tail: Seq<u8>| 0 <= i < items.len() implies #[trigger] p(
        enc(items[i]) + tail,
    ) == Ok::<(i64, nat), SerError>((norm(items[i]), enc(items[i]).len())) by {
        lemma_signed_varint_round_trip(items[i], tail);
    }
    lemma_counted_round_trip(items, enc, p, norm, rest);
    assert(items.map_values(|v: i64| v) =~= items);
}

/// A sequence of single-precision floats round-trips, every minus zero as
/// zero.
pub proof fn lemma_f32_slice_round_trip(items: Seq<Single>, rest: Seq<u8>)
    requires
        items.len() <= u64::MAX,
    ensures
        parse_f32_slice(f32_slice(items) + rest) == Ok::<(Seq<Single>, nat), SerError>(
            (items.map_values(|x: Single| normalized32(x)), f32_slice(items).len()),
        ),
{
    let enc = |x: Single| float32(x);
    let p = |b: Seq<u8>| parse_float32(b);
    let norm = |x: Single| normalized32(x);
    assert forall|i: int, tail: Seq<u8>| 0 <= i < items.len() implies #[trigger] p(
        enc(items[i]) + tail,
    ) == Ok::<(Single, nat), SerError>((norm(items[i]), enc(items[i]).len())) by {
        lemma_float32_round_trip(items[i], tail);
    }
    lemma_counted_round_trip(items, enc, p, norm, rest);
}

/// A sequence of double-precision floats round-trips, every minus zero as
/// zero.
pub proof fn lemma_f64_slice_round_trip(items: Seq<Double>, rest: Seq<u8>)
    requires
        items.len() <= u64::MAX,
    ensures
        parse_f64_slice(f64_slice(items) + rest) == Ok::<(Seq<Double>, nat), SerError>(
            (items.map_values(|x: Double| normalized64(x)), f64_slice(items).len()),
        ),
{
    let enc = |x: Double| float64(x);
    let p = |b: Seq<u8>| parse_float64(b);
    let norm = |x: Double| normalized64(x);
    assert forall|i: int, tail: Seq<u8>| 0 <= i < items.len() implies #[trigger] p(
        enc(items[i]) + tail,
    ) == Ok::<(Double, nat), SerError>((norm(items[i]), enc(items[i]).len())) by {
        lemma_float64_round_trip(items[i], tail);
    }
    lemma_counted_round_trip(items, enc, p, norm, rest);
}

/// A sequence of texts round-trips as the texts that
/// the strings hold.
pub proof fn lemma_string_vec_round_trip(items: Seq<String>, rest: Seq<u8>)
    requires
        items.len() <= u64::MAX,
        forall|i: int| 0 <= i < items.len() ==> encode_utf8(#[trigger] items[i]@).len() <= u64::MAX,
    ensures
        parse_string_vec(string_vec(items) + rest) == Ok::<(Seq<Seq<char>>, nat), SerError>(
            (items.map_values(|s: String| s@), string_vec(items).len()),
        ),
{
    let enc = |s: String| text(s@);
    let p = |b: Seq<u8>| parse_text(b);
    let norm = |s: String| s@;
    assert forall|i: int, tail: Seq<u8>| 0 <= i < items.len() implies #[trigger] p(
        enc(items[i]) + tail,
    ) == Ok::<(Seq<char>, nat), SerError>((norm(items[i]), enc(items[i]).len())) by {
        lemma_text_round_trip(items[i]@, tail);
    }
    lemma_counted_round_trip(items, enc, p, norm, rest);
}

} // verus!
