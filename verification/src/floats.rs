//! The float shortcut. A float is handled by its IEEE-754 bit pattern, held
//! in an unsigned integer of the same width: which floats are equal to zero,
//! one or minus one can be told from the pattern. These three values take
//! one marker byte; every other value takes the marker 255 and then its bit
//! pattern, least significant byte first.

use vstd::prelude::*;
use crate::error::{Parsed, SerError};

verus! {

/// The marker byte of positive and negative zero.
pub const MARKER_ZERO: u8 = 0;

/// The marker byte of one.
pub const MARKER_ONE: u8 = 1;

/// The marker byte of minus one.
pub const MARKER_MINUS_ONE: u8 = 2;

/// The marker byte that announces a full bit pattern.
pub const MARKER_RAW: u8 = 255;

/// The bit pattern of the single-precision value minus zero.
pub const SINGLE_MINUS_ZERO: u32 = 0x8000_0000;

/// The bit pattern of the single-precision value one.
pub const SINGLE_ONE: u32 = 0x3F80_0000;

/// The bit pattern of the single-precision value minus one.
pub const SINGLE_MINUS_ONE: u32 = 0xBF80_0000;

/// The bit pattern of the double-precision value minus zero.
pub const DOUBLE_MINUS_ZERO: u64 = 0x8000_0000_0000_0000;

/// The bit pattern of the double-precision value one.
pub const DOUBLE_ONE: u64 = 0x3FF0_0000_0000_0000;

/// The bit pattern of the double-precision value minus one.
pub const DOUBLE_MINUS_ONE: u64 = 0xBFF0_0000_0000_0000;

/// A single-precision float, held as its IEEE-754 bit pattern. Two values
/// are equal if their bit patterns are.
#[derive(Clone, Copy, Debug, PartialEq, Eq, Structural)]
pub struct Single {
    pub bits: u32,
}

/// A double-precision float, held as its IEEE-754 bit pattern. Two values
/// are equal if their bit patterns are.
#[derive(Clone, Copy, Debug, PartialEq, Eq, Structural)]
pub struct Double {
    pub bits: u64,
}

impl Single {
    /// The float with the given bit pattern.
    pub fn from_bits(bits: u32) -> (value: Self)
        ensures
            value.bits == bits,
    {
        Single { bits }
    }

    /// The bit pattern of the float.
    pub fn to_bits(self) -> (bits: u32)
        ensures
            bits == self.bits,
    {
        self.bits
    }
}

impl Double {
    /// The float with the given bit pattern.
    pub fn from_bits(bits: u64) -> (value: Self)
        ensures
            value.bits == bits,
    {
        Double { bits }
    }

    /// The bit pattern of the float.
    pub fn to_bits(self) -> (bits: u64)
        ensures
            bits == self.bits,
    {
        self.bits
    }
}

/// The four bytes of `x`, least significant first.
pub open spec fn le_bytes32(x: u32) -> Seq<u8> {
    seq![
        (x % 0x100) as u8,
        (x / 0x100 % 0x100) as u8,
        (x / 0x1_0000 % 0x100) as u8,
        (x / 0x100_0000 % 0x100) as u8,
    ]
}

/// The number whose four bytes, least significant first, start `s`.
pub open spec fn from_le_bytes32(s: Seq<u8>) -> u32 {
    (s[0] + 0x100 * s[1] + 0x1_0000 * s[2] + 0x100_0000 * s[3]) as u32
}

/// The eight bytes of `x`, least significant first.
pub open spec fn le_bytes64(x: u64) -> Seq<u8> {
    seq![
        (x % 0x100) as u8,
        (x / 0x100 % 0x100) as u8,
        (x / 0x1_0000 % 0x100) as u8,
        (x / 0x100_0000 % 0x100) as u8,
        (x / 0x1_0000_0000 % 0x100) as u8,
        (x / 0x100_0000_0000 % 0x100) as u8,
        (x / 0x1_0000_0000_0000 % 0x100) as u8,
        (x / 0x100_0000_0000_0000 % 0x100) as u8,
    ]
}

/// The number whose eight bytes, least significant first, start `s`.
pub open spec fn from_le_bytes64(s: Seq<u8>) -> u64 {
    (s[0] + 0x100 * s[1] + 0x1_0000 * s[2] + 0x100_0000 * s[3] + 0x1_0000_0000 * s[4]
        + 0x100_0000_0000 * s[5] + 0x1_0000_0000_0000 * s[6] + 0x100_0000_0000_0000 * s[7]) as u64
}

/// The encoding of a single-precision float.
///
/// Both zeros compare equal to zero and share its marker. A NaN equals
/// nothing and is written in full.
pub open spec fn float32(value: Single) -> Seq<u8> {
    if value.bits == 0 || value.bits == SINGLE_MINUS_ZERO {
        seq![MARKER_ZERO]
    } else if value.bits == SINGLE_ONE {
        seq![MARKER_ONE]
    } else if value.bits == SINGLE_MINUS_ONE {
        seq![MARKER_MINUS_ONE]
    } else {
        seq![MARKER_RAW] + le_bytes32(value.bits)
    }
}

/// The encoding of a double-precision float.
pub open spec fn float64(value: Double) -> Seq<u8> {
    if value.bits == 0 || value.bits == DOUBLE_MINUS_ZERO {
        seq![MARKER_ZERO]
    } else if value.bits == DOUBLE_ONE {
        seq![MARKER_ONE]
    } else if value.bits == DOUBLE_MINUS_ONE {
        seq![MARKER_MINUS_ONE]
    } else {
        seq![MARKER_RAW] + le_bytes64(value.bits)
    }
}

/// What a single-precision float decodes to after it was encoded: minus
/// zero comes back as zero, every other value as itself.
pub open spec fn normalized32(value: Single) -> Single {
    if value.bits == SINGLE_MINUS_ZERO {
        Single { bits: 0 }
    } else {
        value
    }
}

/// What a double-precision float decodes to after it was encoded.
pub open spec fn normalized64(value: Double) -> Double {
    if value.bits == DOUBLE_MINUS_ZERO {
        Double { bits: 0 }
    } else {
        value
    }
}

/// What the single-precision decoder makes of `s`. A marker other than 0,
/// 1, 2 and 255 is malformed.
pub open spec fn parse_float32(s: Seq<u8>) -> Parsed<Single> {
    if s.len() == 0 {
        Err(SerError::BufferTooSmall)
    } else if s[0] == MARKER_ZERO {
        Ok((Single { bits: 0 }, 1))
    } else if s[0] == MARKER_ONE {
        Ok((Single { bits: SINGLE_ONE }, 1))
    } else if s[0] == MARKER_MINUS_ONE {
        Ok((Single { bits: SINGLE_MINUS_ONE }, 1))
    } else if s[0] == MARKER_RAW {
        if s.len() < 5 {
            Err(SerError::BufferTooSmall)
        } else {
            Ok((Single { bits: from_le_bytes32(s.skip(1)) }, 5))
        }
    } else {
        Err(SerError::InvalidData)
    }
}

/// What the double-precision decoder makes of `s`.
pub open spec fn parse_float64(s: Seq<u8>) -> Parsed<Double> {
    if s.len() == 0 {
        Err(SerError::BufferTooSmall)
    } else if s[0] == MARKER_ZERO {
        Ok((Double { bits: 0 }, 1))
    } else if s[0] == MARKER_ONE {
        Ok((Double { bits: DOUBLE_ONE }, 1))
    } else if s[0] == MARKER_MINUS_ONE {
        Ok((Double { bits: DOUBLE_MINUS_ONE }, 1))
    } else if s[0] == MARKER_RAW {
        if s.len() < 9 {
            Err(SerError::BufferTooSmall)
        } else {
            Ok((Double { bits: from_le_bytes64(s.skip(1)) }, 9))
        }
    } else {
        Err(SerError::InvalidData)
    }
}

/// Four bytes hold a 32-bit number, least significant byte first, and give
/// it back.
pub proof fn lemma_le_bytes32(x: u32, rest: Seq<u8>)
    ensures
        le_bytes32(x).len() == 4,
        from_le_bytes32(le_bytes32(x) + rest) == x,
{
}

/// Eight bytes hold a 64-bit number, least significant byte first, and give
/// it back.
pub proof fn lemma_le_bytes64(x: u64, rest: Seq<u8>)
    ensures
        le_bytes64(x).len() == 8,
        from_le_bytes64(le_bytes64(x) + rest) == x,
{
    assert(x == (x % 0x100) + 0x100 * (x / 0x100 % 0x100) + 0x1_0000 * (x / 0x1_0000 % 0x100)
        + 0x100_0000 * (x / 0x100_0000 % 0x100) + 0x1_0000_0000 * (x / 0x1_0000_0000 % 0x100)
        + 0x100_0000_0000 * (x / 0x100_0000_0000 % 0x100) + 0x1_0000_0000_0000 * (x
        / 0x1_0000_0000_0000 % 0x100) + 0x100_0000_0000_0000 * (x / 0x100_0000_0000_0000 % 0x100))
        by (bit_vector);
}

/// A single-precision float takes one byte if it is zero, one or minus one,
/// and five bytes otherwise; decoding gives it back, with minus zero turned
/// into zero.
pub proof fn lemma_float32_round_trip(value: Single, rest: Seq<u8>)
    ensures
        float32(value).len() == 1 || float32(value).len() == 5,
        parse_float32(float32(value) + rest) == Ok::<(Single, nat), SerError>(
            (normalized32(value), float32(value).len()),
        ),
{
    let s = float32(value) + rest;
    if float32(value).len() != 1 {
        assert(s.skip(1) =~= le_bytes32(value.bits) + rest);
        lemma_le_bytes32(value.bits, rest);
    }
}

/// A double-precision float takes one byte if it is zero, one or minus one,
/// and nine bytes otherwise; decoding gives it back, with minus zero turned
/// into zero.
pub proof fn lemma_float64_round_trip(value: Double, rest: Seq<u8>)
    ensures
        float64(value).len() == 1 || float64(value).len() == 9,
        parse_float64(float64(value) + rest) == Ok::<(Double, nat), SerError>(
            (normalized64(value), float64(value).len()),
        ),
{
    let s = float64(value) + rest;
    if float64(value).len() != 1 {
        assert(s.skip(1) =~= le_bytes64(value.bits) + rest);
        lemma_le_bytes64(value.bits, rest);
    }
}

} // verus!
