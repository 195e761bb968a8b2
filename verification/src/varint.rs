//! Variable-length unsigned integers: little-endian base 128, one to ten
//! bytes, with the high bit of every byte but the last set.

use vstd::prelude::*;
use crate::error::{Parsed, SerError};

verus! {

/// The encoding of `v`: seven bits per byte, least significant group first,
/// the high bit set on every byte except the last.
pub open spec fn varint(v: u64) -> Seq<u8>
    decreases v,
{
    if v < 128 {
        seq![v as u8]
    } else {
        seq![(v % 128 + 128) as u8] + varint(v / 128)
    }
}

/// How many bytes at the start of `s` have their high bit set.
pub open spec fn continuation_run(s: Seq<u8>) -> nat
    decreases s.len(),
{
    if s.len() > 0 && s[0] >= 128 {
        1 + continuation_run(s.skip(1))
    } else {
        0
    }
}

/// The number whose base-128 digits, least significant first, are the low
/// seven bits of the bytes of `s`.
pub open spec fn base128(s: Seq<u8>) -> nat
    decreases s.len(),
{
    if s.len() == 0 {
        0
    } else {
        (s[0] % 128) as nat + 128 * base128(s.skip(1))
    }
}

/// What the varint decoder makes of `s`.
///
/// The decoder takes bytes up to and including the first one whose high bit
/// is clear. Ten bytes with the high bit set are malformed, and so are ten
/// bytes whose digits spell a number that does not fit in 64 bits; running
/// out of input before the closing byte is a short buffer.
pub open spec fn parse_varint(s: Seq<u8>) -> Parsed<u64> {
    let k = continuation_run(s) as int;
    if k >= 10 {
        Err(SerError::InvalidData)
    } else if k >= s.len() {
        Err(SerError::BufferTooSmall)
    } else if base128(s.take(k + 1)) > u64::MAX {
        Err(SerError::InvalidData)
    } else {
        Ok((base128(s.take(k + 1)) as u64, (k + 1) as nat))
    }
}

/// What decoding a varint and keeping its low 16 bits makes of `s`.
pub open spec fn parse_u16(s: Seq<u8>) -> Parsed<u16> {
    match parse_varint(s) {
        Ok((v, n)) => Ok((v as u16, n)),
        Err(e) => Err(e),
    }
}

/// What decoding a varint and keeping its low 32 bits makes of `s`.
pub open spec fn parse_u32(s: Seq<u8>) -> Parsed<u32> {
    match parse_varint(s) {
        Ok((v, n)) => Ok((v as u32, n)),
        Err(e) => Err(e),
    }
}

/// The high 64 bits of `v`.
pub open spec fn high64(v: u128) -> u64 {
    (v / 0x1_0000_0000_0000_0000) as u64
}

/// The low 64 bits of `v`.
pub open spec fn low64(v: u128) -> u64 {
    (v % 0x1_0000_0000_0000_0000) as u64
}

/// The encoding of a 128-bit integer: the varint of its high half, then
/// the varint of its low half.
pub open spec fn wide(v: u128) -> Seq<u8> {
    varint(high64(v)) + varint(low64(v))
}

/// What the decoder of a 128-bit integer makes of `s`: two varints, the
/// high half first.
pub open spec fn parse_wide(s: Seq<u8>) -> Parsed<u128> {
    match parse_varint(s) {
        Ok((high, n)) => match parse_varint(s.skip(n as int)) {
            Ok((low, m)) => Ok(((high * 0x1_0000_0000_0000_0000 + low) as u128, n + m)),
            Err(e) => Err(e),
        },
        Err(e) => Err(e),
    }
}

/// A varint is at least one byte long, and `k` bytes suffice for values
/// below 128 to the `k`.
pub proof fn lemma_varint_len(v: u64)
    ensures
        1 <= varint(v).len() <= 10,
        v < 0x80 <==> varint(v).len() == 1,
        v < 0x4000 <==> varint(v).len() <= 2,
        v < 0x20_0000 <==> varint(v).len() <= 3,
        v < 0x1000_0000 <==> varint(v).len() <= 4,
        v < 0x8_0000_0000 <==> varint(v).len() <= 5,
        v < 0x400_0000_0000 <==> varint(v).len() <= 6,
        v < 0x2_0000_0000_0000 <==> varint(v).len() <= 7,
        v < 0x100_0000_0000_0000 <==> varint(v).len() <= 8,
        v < 0x8000_0000_0000_0000 <==> varint(v).len() <= 9,
    decreases v,
{
    if v >= 128 {
        lemma_varint_len(v / 128);
    }
}

/// The number of bytes that the encoding of `value` takes.
pub fn varint_size(value: u64) -> (n: usize)
    ensures
        n == varint(value).len(),
        1 <= n <= 10,
{
    let mut n: usize = 1;
    let mut v: u64 = value;
    proof {
        lemma_varint_len(value);
    }
    while v >= 0x80
        invariant
            1 <= n,
            n + varint(v).len() == varint(value).len() + 1,
            varint(v).len() <= 10,
            varint(value).len() <= 10,
        decreases v,
    {
        proof {
            lemma_varint_len(v / 128);
        }
        v = v / 128;
        n = n + 1;
    }
    n
}

/// Every byte of a varint but the last has its high bit set, the last has it
/// clear, and the digits spell the value.
pub proof fn lemma_varint_shape(v: u64)
    ensures
        continuation_run(varint(v)) == varint(v).len() - 1,
        base128(varint(v)) == v,
    decreases v,
{
    let s = varint(v);
    if v >= 128 {
        lemma_varint_shape(v / 128);
        assert(s.skip(1) =~= varint(v / 128));
    } else {
        assert(s.skip(1).len() == 0);
        assert(base128(s.skip(1)) == 0);
    }
}

/// What follows the closing byte does not change the count of leading
/// continuation bytes.
pub proof fn lemma_run_ignores_tail(s: Seq<u8>, rest: Seq<u8>)
    requires
        continuation_run(s) < s.len(),
    ensures
        continuation_run(s + rest) == continuation_run(s),
    decreases s.len(),
{
    if s[0] >= 128 {
        assert((s + rest).skip(1) =~= s.skip(1) + rest);
        lemma_run_ignores_tail(s.skip(1), rest);
    }
}

/// Decoding inverts encoding, whatever bytes follow.
pub proof fn lemma_varint_round_trip(v: u64, rest: Seq<u8>)
    ensures
        parse_varint(varint(v) + rest) == Ok::<(u64, nat), SerError>((v, varint(v).len())),
{
    let s = varint(v);
    lemma_varint_len(v);
    lemma_varint_shape(v);
    lemma_run_ignores_tail(s, rest);
    assert((s + rest).take(s.len() as int) =~= s);
}

/// 128 to the `k`.
pub open spec fn scale(k: nat) -> nat
    decreases k,
{
    if k == 0 {
        1
    } else {
        128 * scale((k - 1) as nat)
    }
}

/// The powers of 128 that a decoder meets.
pub proof fn lemma_scale_values()
    ensures
        scale(0) == 1,
        scale(1) == 0x80,
        scale(2) == 0x4000,
        scale(3) == 0x20_0000,
        scale(4) == 0x1000_0000,
        scale(5) == 0x8_0000_0000,
        scale(6) == 0x400_0000_0000,
        scale(7) == 0x2_0000_0000_0000,
        scale(8) == 0x100_0000_0000_0000,
        scale(9) == 0x8000_0000_0000_0000,
{
    reveal_with_fuel(scale, 11);
}

/// Up to the ninth, the powers of 128 stay below two to the sixty-fourth.
pub proof fn lemma_scale_bound(k: nat)
    requires
        k <= 9,
    ensures
        0 < scale(k) <= 0x8000_0000_0000_0000,
        scale(k + 1) == 128 * scale(k),
{
    lemma_scale_values();
    if k == 0 {
    } else if k == 1 {
    } else if k == 2 {
    } else if k == 3 {
    } else if k == 4 {
    } else if k == 5 {
    } else if k == 6 {
    } else if k == 7 {
    } else if k == 8 {
    } else {
    }
}

/// If the first `k` bytes of `s` have their high bit set, the run of
/// continuation bytes is at least `k` long, and exactly `k` long if `s` ends
/// there or the next byte has its high bit clear.
pub proof fn lemma_run_counts(s: Seq<u8>, k: nat)
    requires
        k <= s.len(),
        forall|j: int| 0 <= j < k ==> s[j] >= 128,
    ensures
        continuation_run(s) >= k,
        (k == s.len() || s[k as int] < 128) ==> continuation_run(s) == k,
    decreases k,
{
    if k > 0 {
        lemma_run_counts(s.skip(1), (k - 1) as nat);
    }
}

/// One more byte adds its low seven bits as the next base-128 digit.
pub proof fn lemma_base128_extend(s: Seq<u8>, k: int)
    requires
        0 <= k < s.len(),
    ensures
        base128(s.take(k)) < scale(k as nat),
        base128(s.take(k + 1)) == base128(s.take(k)) + (s[k] % 128) * scale(k as nat),
    decreases k,
{
    let digit = (s[k] % 128) as int;
    if k == 0 {
        assert(s.take(1).skip(1).len() == 0);
        assert(base128(s.take(1).skip(1)) == 0);
        assert(scale(0) == 1);
        assert(digit * scale(0) == digit);
    } else {
        let t = s.skip(1);
        lemma_base128_extend(t, k - 1);
        assert(s.take(k).skip(1) =~= t.take(k - 1));
        assert(s.take(k + 1).skip(1) =~= t.take(k));
        assert(t[k - 1] == s[k]);
        assert(128 * (digit * scale((k - 1) as nat)) == digit * scale(k as nat))
            by (nonlinear_arith)
            requires
                scale(k as nat) == 128 * scale((k - 1) as nat),
        ;
    }
}

/// A 16-bit integer written as a varint comes back.
pub proof fn lemma_u16_round_trip(v: u16, rest: Seq<u8>)
    ensures
        parse_u16(varint(v as u64) + rest) == Ok::<(u16, nat), SerError>(
            (v, varint(v as u64).len()),
        ),
        varint(v as u64).len() <= 3,
{
    lemma_varint_round_trip(v as u64, rest);
    lemma_varint_len(v as u64);
}

/// A 32-bit integer written as a varint comes back.
pub proof fn lemma_u32_round_trip(v: u32, rest: Seq<u8>)
    ensures
        parse_u32(varint(v as u64) + rest) == Ok::<(u32, nat), SerError>(
            (v, varint(v as u64).len()),
        ),
        varint(v as u64).len() <= 5,
{
    lemma_varint_round_trip(v as u64, rest);
    lemma_varint_len(v as u64);
}

/// Decoding a 128-bit integer inverts encoding, whatever bytes follow.
pub proof fn lemma_wide_round_trip(v: u128, rest: Seq<u8>)
    ensures
        parse_wide(wide(v) + rest) == Ok::<(u128, nat), SerError>((v, wide(v).len())),
        2 <= wide(v).len() <= 20,
{
    let high = varint(high64(v));
    let low = varint(low64(v));
    lemma_varint_len(high64(v));
    lemma_varint_len(low64(v));
    assert(wide(v) + rest =~= high + (low + rest));
    lemma_varint_round_trip(high64(v), low + rest);
    assert((high + (low + rest)).skip(high.len() as int) =~= low + rest);
    lemma_varint_round_trip(low64(v), rest);
}

/// Ten bytes in a row with the high bit set are no varint, whatever
/// follows them.
pub proof fn lemma_varint_too_long(s: Seq<u8>)
    requires
        s.len() >= 10,
        forall|j: int| 0 <= j < 10 ==> s[j] >= 128,
    ensures
        parse_varint(s) == Err::<(u64, nat), SerError>(SerError::InvalidData),
{
    lemma_run_counts(s, 10);
}

/// A tenth digit above one lifts the number past 64 bits.
pub proof fn lemma_digit_overflows(digit: int)
    requires
        digit >= 2,
    ensures
        digit * scale(9) > u64::MAX,
{
    lemma_scale_values();
    let unit = scale(9) as int;
    assert(digit * unit >= 2 * unit) by (nonlinear_arith)
        requires
            digit >= 2,
            unit > 0,
    ;
}

/// A number that does not fit in 64 bits is no varint: the tenth byte can
/// hold but the highest bit.
pub proof fn lemma_varint_overflow(s: Seq<u8>)
    requires
        s.len() >= 10,
        forall|j: int| 0 <= j < 9 ==> s[j] >= 128,
        s[9] >= 2,
    ensures
        parse_varint(s) == Err::<(u64, nat), SerError>(SerError::InvalidData),
{
    lemma_run_counts(s, 9);
    if s[9] < 128 {
        lemma_base128_extend(s, 9);
        lemma_scale_values();
        lemma_digit_overflows((s[9] % 128) as int);
    } else {
        lemma_run_counts(s, 10);
    }
}

/// A successful decoding takes at least one byte and at most ten, all of
/// them from the input.
pub proof fn lemma_varint_consumes(s: Seq<u8>)
    ensures
        parse_varint(s) matches Ok((_, n)) ==> 1 <= n <= 10 && n <= s.len(),
{
}

/// Input that ends before the closing byte of a varint is too short.
pub proof fn lemma_varint_cut_short(s: Seq<u8>)
    requires
        s.len() < 10,
        forall|j: int| 0 <= j < s.len() ==> s[j] >= 128,
    ensures
        parse_varint(s) == Err::<(u64, nat), SerError>(SerError::BufferTooSmall),
{
    lemma_run_counts(s, s.len());
}

} // verus!
