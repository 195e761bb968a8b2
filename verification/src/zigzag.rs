//! Signed integers: zigzag onto the unsigned ones, so that values of small
//! magnitude get short varints whatever their sign.

use vstd::prelude::*;
use crate::error::{Parsed, SerError};
use crate::varint::{lemma_varint_len, lemma_varint_round_trip, parse_varint, varint};

verus! {

/// The unsigned stand-in of `v`: 0, -1, 1, -2, 2, ... become 0, 1, 2, 3, 4, ...
pub open spec fn zigzag(v: i64) -> u64 {
    if v >= 0 {
        (2 * v) as u64
    } else {
        (-2 * v - 1) as u64
    }
}

/// The signed value that `u` stands for.
pub open spec fn unzigzag(u: u64) -> i64 {
    if u % 2 == 0 {
        (u / 2) as i64
    } else {
        (-(u / 2) - 1) as i64
    }
}

/// The encoding of a signed integer: the varint of its zigzag form.
pub open spec fn signed_varint(v: i64) -> Seq<u8> {
    varint(zigzag(v))
}

/// What the signed varint decoder makes of `s`.
pub open spec fn parse_signed_varint(s: Seq<u8>) -> Parsed<i64> {
    match parse_varint(s) {
        Ok((u, n)) => Ok((unzigzag(u), n)),
        Err(e) => Err(e),
    }
}

/// What decoding a signed varint and keeping its low 8 bits makes of `s`.
pub open spec fn parse_i8(s: Seq<u8>) -> Parsed<i8> {
    match parse_signed_varint(s) {
        Ok((v, n)) => Ok((v as i8, n)),
        Err(e) => Err(e),
    }
}

/// What decoding a signed varint and keeping its low 16 bits makes of `s`.
pub open spec fn parse_i16(s: Seq<u8>) -> Parsed<i16> {
    match parse_signed_varint(s) {
        Ok((v, n)) => Ok((v as i16, n)),
        Err(e) => Err(e),
    }
}

/// What decoding a signed varint and keeping its low 32 bits makes of `s`.
pub open spec fn parse_i32(s: Seq<u8>) -> Parsed<i32> {
    match parse_signed_varint(s) {
        Ok((v, n)) => Ok((v as i32, n)),
        Err(e) => Err(e),
    }
}

/// Computes the zigzag form of `value`.
pub fn zigzag_encode(value: i64) -> (u: u64)
    ensures
        u == zigzag(value),
{
    assert(((value << 1u32) ^ (value >> 63u32)) as u64 == if value >= 0 {
        (2 * value) as u64
    } else {
        (-2 * value - 1) as u64
    }) by (bit_vector);
    ((value << 1u32) ^ (value >> 63u32)) as u64
}

/// Computes the signed value that `encoded` stands for.
pub fn zigzag_decode(encoded: u64) -> (v: i64)
    ensures
        v == unzigzag(encoded),
{
    assert((((encoded >> 1u32) as i64) ^ ((0 - (encoded & 1) as i64) as i64)) == if encoded % 2
        == 0 {
        (encoded / 2) as i64
    } else {
        (-(encoded / 2) - 1) as i64
    }) by (bit_vector);
    assert(encoded & 1 <= 1) by (bit_vector);
    ((encoded >> 1u32) as i64) ^ (-((encoded & 1) as i64))
}

/// Zigzag loses nothing: every signed value comes back.
pub proof fn lemma_zigzag_symmetry(v: i64)
    ensures
        unzigzag(zigzag(v)) == v,
{
}

/// Every unsigned value stands for a signed one, and for one only.
pub proof fn lemma_unzigzag_symmetry(u: u64)
    ensures
        zigzag(unzigzag(u)) == u,
{
}

/// Decoding a signed varint inverts encoding, whatever bytes follow.
pub proof fn lemma_signed_varint_round_trip(v: i64, rest: Seq<u8>)
    ensures
        parse_signed_varint(signed_varint(v) + rest) == Ok::<(i64, nat), SerError>(
            (v, signed_varint(v).len()),
        ),
{
    lemma_varint_round_trip(zigzag(v), rest);
    lemma_zigzag_symmetry(v);
}

/// Values of small magnitude take few bytes: one byte from -64 to 63, and
/// never more than five bytes for a 32-bit value.
pub proof fn lemma_signed_varint_len(v: i64)
    ensures
        1 <= signed_varint(v).len() <= 10,
        -64 <= v < 64 <==> signed_varint(v).len() == 1,
        -0x8000_0000 <= v < 0x8000_0000 ==> signed_varint(v).len() <= 5,
{
    lemma_varint_len(zigzag(v));
}

/// A signed 8-bit integer written as a signed varint comes back.
pub proof fn lemma_i8_round_trip(v: i8, rest: Seq<u8>)
    ensures
        parse_i8(signed_varint(v as i64) + rest) == Ok::<(i8, nat), SerError>(
            (v, signed_varint(v as i64).len()),
        ),
{
    lemma_signed_varint_round_trip(v as i64, rest);
}

/// A signed 16-bit integer written as a signed varint comes back.
pub proof fn lemma_i16_round_trip(v: i16, rest: Seq<u8>)
    ensures
        parse_i16(signed_varint(v as i64) + rest) == Ok::<(i16, nat), SerError>(
            (v, signed_varint(v as i64).len()),
        ),
{
    lemma_signed_varint_round_trip(v as i64, rest);
}

/// A signed 32-bit integer written as a signed varint comes back.
pub proof fn lemma_i32_round_trip(v: i32, rest: Seq<u8>)
    ensures
        parse_i32(signed_varint(v as i64) + rest) == Ok::<(i32, nat), SerError>(
            (v, signed_varint(v as i64).len()),
        ),
{
    lemma_signed_varint_round_trip(v as i64, rest);
}

} // verus!
