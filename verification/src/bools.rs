//! Bit-packed boolean sequences: eight booleans to a byte, the first in the
//! least significant bit.

use vstd::prelude::*;
use crate::error::{Parsed, SerError};
use crate::varint::{lemma_varint_len, lemma_varint_round_trip, parse_varint, varint};

verus! {

/// The encoding of a single boolean: a byte that is 1 for true and 0 for
/// false.
pub open spec fn bool_byte(b: bool) -> Seq<u8> {
    seq![if b {
        1u8
    } else {
        0u8
    }]
}

/// What the decoder of a single boolean makes of `s`: any byte but zero is
/// true.
pub open spec fn parse_bool(s: Seq<u8>) -> Parsed<bool> {
    if s.len() == 0 {
        Err(SerError::BufferTooSmall)
    } else {
        Ok((s[0] != 0, 1))
    }
}

/// The byte with only bit `i` set if `bits` has a true value at index `k`,
/// and zero otherwise (also where `k` is past the end).
pub open spec fn bit_mask(bits: Seq<bool>, k: int, i: u8) -> u8 {
    if 0 <= k < bits.len() && bits[k] {
        1u8 << i
    } else {
        0
    }
}

/// The byte that packs the eight booleans starting at index `start`: bit `i`
/// holds the one at `start + i`. Bits past the end of `bits` are zero.
pub open spec fn packed_byte(bits: Seq<bool>, start: int) -> u8 {
    bit_mask(bits, start, 0) | bit_mask(bits, start + 1, 1) | bit_mask(bits, start + 2, 2)
        | bit_mask(bits, start + 3, 3) | bit_mask(bits, start + 4, 4) | bit_mask(
        bits,
        start + 5,
        5,
    ) | bit_mask(bits, start + 6, 6) | bit_mask(bits, start + 7, 7)
}

/// The number of bytes that `n` packed booleans take: `n / 8`, rounded up.
pub open spec fn packed_len(n: nat) -> nat {
    (n + 7) / 8
}

/// The packed form of `bits`.
pub open spec fn packed_bools(bits: Seq<bool>) -> Seq<u8> {
    Seq::new(packed_len(bits.len()), |j: int| packed_byte(bits, 8 * j))
}

/// The encoding of a boolean sequence: its length as a varint, then its
/// packed form.
pub open spec fn bool_slice(bits: Seq<bool>) -> Seq<u8> {
    varint(bits.len() as u64) + packed_bools(bits)
}

/// Whether bit `i` of `byte` is set, bit 0 being the least significant.
pub open spec fn bit_is_set(byte: u8, i: u8) -> bool {
    byte & (1u8 << i) != 0
}

/// The first `n` booleans packed in `bytes`.
pub open spec fn unpacked_bools(bytes: Seq<u8>, n: nat) -> Seq<bool> {
    Seq::new(n, |k: int| bit_is_set(bytes[k / 8], (k % 8) as u8))
}

/// What the decoder of a boolean sequence makes of `s`: a varint count, then
/// the packed bytes, all of which must be present.
pub open spec fn parse_bool_seq(s: Seq<u8>) -> Parsed<Seq<bool>> {
    match parse_varint(s) {
        Err(e) => Err(e),
        Ok((n, k)) => if s.len() - k < packed_len(n as nat) {
            Err(SerError::BufferTooSmall)
        } else {
            Ok((unpacked_bools(s.skip(k as int), n as nat), k + packed_len(n as nat)))
        },
    }
}

/// The byte that packs the eight booleans of `bits` from index `start` on.
pub fn pack_byte(bits: &[bool], start: usize) -> (byte: u8)
    requires
        start < bits@.len(),
    ensures
        byte == packed_byte(bits@, start as int),
{
    let n: usize = bits.len();
    let avail: usize = n - start;
    let b0: u8 = if bits[start] { 1u8 << 0u8 } else { 0 };
    let b1: u8 = if avail > 1 && bits[start + 1] { 1u8 << 1u8 } else { 0 };
    let b2: u8 = if avail > 2 && bits[start + 2] { 1u8 << 2u8 } else { 0 };
    let b3: u8 = if avail > 3 && bits[start + 3] { 1u8 << 3u8 } else { 0 };
    let b4: u8 = if avail > 4 && bits[start + 4] { 1u8 << 4u8 } else { 0 };
    let b5: u8 = if avail > 5 && bits[start + 5] { 1u8 << 5u8 } else { 0 };
    let b6: u8 = if avail > 6 && bits[start + 6] { 1u8 << 6u8 } else { 0 };
    let b7: u8 = if avail > 7 && bits[start + 7] { 1u8 << 7u8 } else { 0 };
    b0 | b1 | b2 | b3 | b4 | b5 | b6 | b7
}

/// In a byte made of one mask per bit, a bit is set exactly if its mask is
/// not zero.
proof fn lemma_masks_apart(m0: u8, m1: u8, m2: u8, m3: u8, m4: u8, m5: u8, m6: u8, m7: u8)
    by (bit_vector)
    requires
        m0 == 0 || m0 == 1u8 << 0u8,
        m1 == 0 || m1 == 1u8 << 1u8,
        m2 == 0 || m2 == 1u8 << 2u8,
        m3 == 0 || m3 == 1u8 << 3u8,
        m4 == 0 || m4 == 1u8 << 4u8,
        m5 == 0 || m5 == 1u8 << 5u8,
        m6 == 0 || m6 == 1u8 << 6u8,
        m7 == 0 || m7 == 1u8 << 7u8,
    ensures
        ((m0 | m1 | m2 | m3 | m4 | m5 | m6 | m7) & (1u8 << 0u8) != 0) == (m0 != 0),
        ((m0 | m1 | m2 | m3 | m4 | m5 | m6 | m7) & (1u8 << 1u8) != 0) == (m1 != 0),
        ((m0 | m1 | m2 | m3 | m4 | m5 | m6 | m7) & (1u8 << 2u8) != 0) == (m2 != 0),
        ((m0 | m1 | m2 | m3 | m4 | m5 | m6 | m7) & (1u8 << 3u8) != 0) == (m3 != 0),
        ((m0 | m1 | m2 | m3 | m4 | m5 | m6 | m7) & (1u8 << 4u8) != 0) == (m4 != 0),
        ((m0 | m1 | m2 | m3 | m4 | m5 | m6 | m7) & (1u8 << 5u8) != 0) == (m5 != 0),
        ((m0 | m1 | m2 | m3 | m4 | m5 | m6 | m7) & (1u8 << 6u8) != 0) == (m6 != 0),
        ((m0 | m1 | m2 | m3 | m4 | m5 | m6 | m7) & (1u8 << 7u8) != 0) == (m7 != 0),
        1u8 << 0u8 != 0,
        1u8 << 1u8 != 0,
        1u8 << 2u8 != 0,
        1u8 << 3u8 != 0,
        1u8 << 4u8 != 0,
        1u8 << 5u8 != 0,
        1u8 << 6u8 != 0,
        1u8 << 7u8 != 0,
{
}

/// Bit `i` of a packed byte is the boolean it was packed from.
pub proof fn lemma_packed_bit(bits: Seq<bool>, start: int, i: u8)
    requires
        i < 8,
    ensures
        bit_is_set(packed_byte(bits, start), i) == (0 <= start + i < bits.len() && bits[start + i]),
{
    lemma_masks_apart(
        bit_mask(bits, start, 0),
        bit_mask(bits, start + 1, 1),
        bit_mask(bits, start + 2, 2),
        bit_mask(bits, start + 3, 3),
        bit_mask(bits, start + 4, 4),
        bit_mask(bits, start + 5, 5),
        bit_mask(bits, start + 6, 6),
        bit_mask(bits, start + 7, 7),
    );
}

/// Unpacking inverts packing, whatever bytes follow the packed ones.
pub proof fn lemma_bools_round_trip(bits: Seq<bool>, rest: Seq<u8>)
    ensures
        unpacked_bools(packed_bools(bits) + rest, bits.len()) == bits,
{
    let bytes = packed_bools(bits) + rest;
    let out = unpacked_bools(bytes, bits.len());
    assert forall|k: int| 0 <= k < bits.len() implies out[k] == bits[k] by {
        assert(bytes[k / 8] == packed_byte(bits, 8 * (k / 8)));
        lemma_packed_bit(bits, 8 * (k / 8), (k % 8) as u8);
    }
    assert(out =~= bits);
}

/// Decoding a single boolean inverts encoding, whatever bytes follow.
pub proof fn lemma_bool_round_trip(b: bool, rest: Seq<u8>)
    ensures
        parse_bool(bool_byte(b) + rest) == Ok::<(bool, nat), SerError>((b, 1)),
        bool_byte(b).len() == 1,
{
}

/// A sequence of `n` booleans takes the bytes of the varint of `n` and one
/// byte for every eight booleans or part thereof, which is less than one
/// byte per boolean as soon as there are more than eight.
pub proof fn lemma_bool_slice_len(bits: Seq<bool>)
    requires
        bits.len() <= u64::MAX,
    ensures
        bool_slice(bits).len() == varint(bits.len() as u64).len() + packed_len(bits.len()),
        bits.len() > 8 ==> bool_slice(bits).len() < bits.len(),
{
    lemma_varint_len(bits.len() as u64);
}

/// Decoding a sequence of booleans inverts encoding, whatever bytes follow.
pub proof fn lemma_bool_slice_round_trip(bits: Seq<bool>, rest: Seq<u8>)
    requires
        bits.len() <= u64::MAX,
    ensures
        parse_bool_seq(bool_slice(bits) + rest) == Ok::<(Seq<bool>, nat), SerError>(
            (bits, bool_slice(bits).len()),
        ),
{
    let head = varint(bits.len() as u64);
    let s = bool_slice(bits) + rest;
    assert(s =~= head + (packed_bools(bits) + rest));
    lemma_varint_round_trip(bits.len() as u64, packed_bools(bits) + rest);
    assert(s.skip(head.len() as int) =~= packed_bools(bits) + rest);
    lemma_bools_round_trip(bits, rest);
}

} // verus!
