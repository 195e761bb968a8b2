//! The reader: a borrowed byte region and a cursor that walks it.

use vstd::prelude::*;
use vstd::slice::slice_subrange;
use vstd::string::StringSliceAdditionalSpecFns;
use vstd::utf8::valid_utf8;
use crate::bools::{packed_len, parse_bool, parse_bool_seq, unpacked_bools};
use crate::error::{Parsed, SerError};
use crate::floats::{
    from_le_bytes32, from_le_bytes64, parse_float32, parse_float64, Double, Single,
    DOUBLE_MINUS_ONE, DOUBLE_ONE, MARKER_MINUS_ONE, MARKER_ONE, MARKER_RAW, MARKER_ZERO,
    SINGLE_MINUS_ONE, SINGLE_ONE,
};
use crate::items::{after, lemma_after_nothing, lemma_after_push, parse_counted, repeat};
use crate::slices::{
    parse_f32_slice, parse_f64_slice, parse_i16_slice, parse_i64_slice, parse_i8_slice,
    parse_string_vec, parse_u16_slice, parse_u64_slice,
};
use crate::payload::{
    parse_prefixed, parse_raw, parse_text, parse_u32_slice, parse_u8, words_of,
};
use crate::varint::{
    base128, lemma_base128_extend, lemma_digit_overflows, lemma_run_counts, lemma_scale_bound,
    lemma_scale_values, parse_u16, parse_varint, scale,
};
use crate::zigzag::{parse_i16, parse_i8, parse_signed_varint, zigzag_decode};

verus! {

/// Decodes values from a byte region, one after the other.
pub struct JaguarDeserializer<'a> {
    data: &'a [u8],
    pos: usize,
}

/// The view of a result that holds a container: the container's view, or
/// the error.
pub open spec fn viewed<T: View>(r: Result<T, SerError>) -> Result<T::V, SerError> {
    match r {
        Ok(v) => Ok(v@),
        Err(e) => Err(e),
    }
}

/// The deep view of a result that holds a container of containers, or the
/// error.
pub open spec fn deep_viewed<T: DeepView>(r: Result<T, SerError>) -> Result<T::V, SerError> {
    match r {
        Ok(v) => Ok(v.deep_view()),
        Err(e) => Err(e),
    }
}

/// Validates UTF-8 with `core::str::from_utf8`, which gives the text that
/// the bytes spell exactly if they are valid UTF-8; the text then has these
/// very bytes.
#[verifier::external_body]
fn utf8_text<'a>(bytes: &'a [u8]) -> (r: Option<&'a str>)
    ensures
        r is Some <==> valid_utf8(bytes@),
        r matches Some(s) ==> s.spec_bytes() == bytes@,
{
    core::str::from_utf8(bytes).ok()
}

impl<'a> JaguarDeserializer<'a> {
    /// The cursor stays within the region.
    #[verifier::type_invariant]
    spec fn cursor_in_region(self) -> bool {
        self.pos <= self.data@.len()
    }

    /// The whole byte region that the reader walks.
    pub closed spec fn input(&self) -> Seq<u8> {
        self.data@
    }

    /// The number of bytes consumed so far.
    pub closed spec fn spec_position(&self) -> usize {
        self.pos
    }

    /// The bytes that have not been consumed yet.
    pub open spec fn remaining(&self) -> Seq<u8> {
        self.input().skip(self.spec_position() as int)
    }

    /// The outcome of a decode that takes the reader from `self` to `after`
    /// and returns `r`, where `parsed` is what the format makes of the bytes
    /// that remained.
    ///
    /// On success the value is the parsed one and the cursor has advanced by
    /// exactly the bytes consumed. On failure the error is the parsed one
    /// and the cursor has not moved back nor left the region. The region
    /// itself never changes.
    pub open spec fn reads<T>(
        &self,
        after: &Self,
        r: Result<T, SerError>,
        parsed: Parsed<T>,
    ) -> bool {
        &&& after.input() == self.input()
        &&& self.spec_position() <= after.spec_position() <= self.input().len()
        &&& match parsed {
            Ok((v, n)) => r == Ok::<T, SerError>(v) && after.spec_position() == self.spec_position()
                + n,
            Err(e) => r == Err::<T, SerError>(e),
        }
    }

    /// Creates a reader at the start of `data`.
    pub fn new(data: &'a [u8]) -> (d: Self)
        ensures
            d.input() == data@,
            d.spec_position() == 0,
    {
        Self { data, pos: 0 }
    }

    /// Whether any byte is left to read.
    pub fn has_data(&self) -> (b: bool)
        ensures
            b == (self.remaining().len() > 0),
    {
        proof {
            use_type_invariant(self);
        }
        self.pos < self.data.len()
    }

    /// The number of bytes consumed so far.
    #[verifier::when_used_as_spec(spec_position)]
    pub fn position(&self) -> (p: usize)
        ensures
            p == self.spec_position(),
            p <= self.input().len(),
    {
        proof {
            use_type_invariant(self);
        }
        self.pos
    }

    /// Reads a single byte.
    pub fn read_u8(&mut self) -> (r: Result<u8, SerError>)
        ensures
            old(self).reads(final(self), r, parse_u8(old(self).remaining())),
    {
        proof {
            use_type_invariant(&*self);
        }
        if self.pos >= self.data.len() {
            return Err(SerError::BufferTooSmall);
        }
        let value: u8 = self.data[self.pos];
        self.pos = self.pos + 1;
        Ok(value)
    }

    /// Reads a boolean: one byte, true unless it is zero.
    pub fn read_bool(&mut self) -> (r: Result<bool, SerError>)
        ensures
            old(self).reads(final(self), r, parse_bool(old(self).remaining())),
    {
        let byte: u8 = self.read_u8()?;
        Ok(byte != 0)
    }

    /// Reads a varint.
    pub fn read_varint(&mut self) -> (r: Result<u64, SerError>)
        ensures
            old(self).reads(final(self), r, parse_varint(old(self).remaining())),
    {
        proof {
            use_type_invariant(&*self);
            lemma_scale_values();
        }
        let ghost rest = self.remaining();
        let mut result: u64 = 0;
        let mut shift: u32 = 0;
        let mut count: usize = 0;
        loop
            invariant
                self.data == old(self).data,
                self.pos == old(self).pos + count,
                self.pos <= self.data@.len(),
                rest == old(self).remaining(),
                count <= 9,
                shift == 7 * count,
                forall|j: int| 0 <= j < count ==> rest[j] >= 128,
                result == base128(rest.take(count as int)),
            decreases 10 - count,
        {
            if self.pos >= self.data.len() {
                proof {
                    lemma_run_counts(rest, count as nat);
                }
                return Err(SerError::BufferTooSmall);
            }
            let byte: u8 = self.data[self.pos];
            self.pos = self.pos + 1;
            let digit: u64 = (byte & 0x7F) as u64;
            proof {
                assert(byte == rest[count as int]);
                assert(byte & 0x7F == byte % 128) by (bit_vector);
                assert((byte & 0x80 == 0) <==> byte < 128) by (bit_vector);
                lemma_base128_extend(rest, count as int);
                lemma_scale_bound(count as nat);
            }
            if shift == 63 && digit > 1 {
                proof {
                    if byte < 128 {
                        lemma_run_counts(rest, count as nat);
                        lemma_digit_overflows(digit as int);
                    } else {
                        lemma_run_counts(rest, (count + 1) as nat);
                    }
                }
                return Err(SerError::InvalidData);
            }
            let ghost before = result;
            result = result | (digit << shift);
            proof {
                lemma_accumulate(before, digit, shift);
                let unit = scale(count as nat) as int;
                assert(shift / 7 == count);
                assert(before + digit * unit < 128 * unit) by (nonlinear_arith)
                    requires
                        before < unit,
                        digit < 128,
                ;
            }
            if byte & 0x80 == 0 {
                proof {
                    lemma_run_counts(rest, count as nat);
                }
                return Ok(result);
            }
            shift = shift + 7;
            count = count + 1;
            if shift >= 64 || count > 9 {
                proof {
                    lemma_run_counts(rest, count as nat);
                }
                return Err(SerError::InvalidData);
            }
            proof {
                lemma_scale_bound(count as nat);
                assert(result == base128(rest.take(count as int)));
            }
        }
    }

    /// Reads a signed integer: a varint that holds its zigzag form.
    pub fn read_signed_varint(&mut self) -> (r: Result<i64, SerError>)
        ensures
            old(self).reads(final(self), r, parse_signed_varint(old(self).remaining())),
    {
        let encoded: u64 = self.read_varint()?;
        Ok(zigzag_decode(encoded))
    }

    /// Takes the four bytes at the cursor as a number, least significant
    /// byte first.
    fn take_word(&mut self) -> (w: u32)
        requires
            old(self).pos + 4 <= old(self).data@.len(),
        ensures
            final(self).data == old(self).data,
            final(self).pos == old(self).pos + 4,
            w == from_le_bytes32(old(self).remaining()),
    {
        let b0: u32 = self.data[self.pos] as u32;
        let b1: u32 = self.data[self.pos + 1] as u32;
        let b2: u32 = self.data[self.pos + 2] as u32;
        let b3: u32 = self.data[self.pos + 3] as u32;
        self.pos = self.pos + 4;
        b0 + 0x100 * b1 + 0x1_0000 * b2 + 0x100_0000 * b3
    }

    /// Takes the eight bytes at the cursor as a number, least significant
    /// byte first.
    fn take_double_word(&mut self) -> (w: u64)
        requires
            old(self).pos + 8 <= old(self).data@.len(),
        ensures
            final(self).data == old(self).data,
            final(self).pos == old(self).pos + 8,
            w == from_le_bytes64(old(self).remaining()),
    {
        let b0: u64 = self.data[self.pos] as u64;
        let b1: u64 = self.data[self.pos + 1] as u64;
        let b2: u64 = self.data[self.pos + 2] as u64;
        let b3: u64 = self.data[self.pos + 3] as u64;
        let b4: u64 = self.data[self.pos + 4] as u64;
        let b5: u64 = self.data[self.pos + 5] as u64;
        let b6: u64 = self.data[self.pos + 6] as u64;
        let b7: u64 = self.data[self.pos + 7] as u64;
        self.pos = self.pos + 8;
        b0 + 0x100 * b1 + 0x1_0000 * b2 + 0x100_0000 * b3 + 0x1_0000_0000 * b4 + 0x100_0000_0000
            * b5 + 0x1_0000_0000_0000 * b6 + 0x100_0000_0000_0000 * b7
    }

    /// Reads a single-precision float.
    pub fn read_f32(&mut self) -> (r: Result<Single, SerError>)
        ensures
            old(self).reads(final(self), r, parse_float32(old(self).remaining())),
    {
        let marker: u8 = self.read_u8()?;
        proof {
            use_type_invariant(&*self);
        }
        if marker == MARKER_ZERO {
            Ok(Single { bits: 0 })
        } else if marker == MARKER_ONE {
            Ok(Single { bits: SINGLE_ONE })
        } else if marker == MARKER_MINUS_ONE {
            Ok(Single { bits: SINGLE_MINUS_ONE })
        } else if marker == MARKER_RAW {
            if self.data.len() - self.pos < 4 {
                return Err(SerError::BufferTooSmall);
            }
            assert(self.remaining() =~= old(self).remaining().skip(1));
            Ok(Single { bits: self.take_word() })
        } else {
            Err(SerError::InvalidData)
        }
    }

    /// Reads a double-precision float.
    pub fn read_f64(&mut self) -> (r: Result<Double, SerError>)
        ensures
            old(self).reads(final(self), r, parse_float64(old(self).remaining())),
    {
        let marker: u8 = self.read_u8()?;
        proof {
            use_type_invariant(&*self);
        }
        if marker == MARKER_ZERO {
            Ok(Double { bits: 0 })
        } else if marker == MARKER_ONE {
            Ok(Double { bits: DOUBLE_ONE })
        } else if marker == MARKER_MINUS_ONE {
            Ok(Double { bits: DOUBLE_MINUS_ONE })
        } else if marker == MARKER_RAW {
            if self.data.len() - self.pos < 8 {
                return Err(SerError::BufferTooSmall);
            }
            assert(self.remaining() =~= old(self).remaining().skip(1));
            Ok(Double { bits: self.take_double_word() })
        } else {
            Err(SerError::InvalidData)
        }
    }

    /// Reads a byte string and lends it out of the region: a varint length,
    /// then that many bytes.
    pub fn read_bytes(&mut self) -> (r: Result<&'a [u8], SerError>)
        ensures
            old(self).reads(final(self), viewed(r), parse_prefixed(old(self).remaining())),
    {
        let len: u64 = self.read_varint()?;
        proof {
            use_type_invariant(&*self);
        }
        let left: usize = self.data.len() - self.pos;
        if len > left as u64 {
            return Err(SerError::BufferTooSmall);
        }
        let start: usize = self.pos;
        let end: usize = start + len as usize;
        let slice: &'a [u8] = slice_subrange(self.data, start, end);
        self.pos = end;
        assert(slice@ =~= old(self).remaining().subrange(
            start - old(self).pos,
            start - old(self).pos + len,
        ));
        Ok(slice)
    }

    /// Reads a text and lends it out of the region: a byte string that must
    /// be valid UTF-8.
    pub fn read_str(&mut self) -> (r: Result<&'a str, SerError>)
        ensures
            old(self).reads(final(self), viewed(r), parse_text(old(self).remaining())),
    {
        let bytes: &'a [u8] = self.read_bytes()?;
        match utf8_text(bytes) {
            Some(s) => {
                proof {
                    vstd::utf8::encode_utf8_decode_utf8(s@);
                }
                Ok(s)
            },
            None => Err(SerError::InvalidData),
        }
    }

    /// Reads a sequence of bytes into a vector: a varint length, then that
    /// many bytes.
    pub fn read_u8_vec(&mut self) -> (r: Result<Vec<u8>, SerError>)
        ensures
            old(self).reads(final(self), viewed(r), parse_prefixed(old(self).remaining())),
    {
        let bytes: &'a [u8] = self.read_bytes()?;
        Ok(vstd::slice::slice_to_vec(bytes))
    }

    /// Reads exactly `N` raw bytes, with no length in front of them.
    pub fn read_fixed_array<const N: usize>(&mut self) -> (r: Result<[u8; N], SerError>)
        ensures
            old(self).reads(final(self), viewed(r), parse_raw(old(self).remaining(), N as nat)),
    {
        proof {
            use_type_invariant(&*self);
        }
        if self.data.len() - self.pos < N {
            return Err(SerError::BufferTooSmall);
        }
        let mut result: [u8; N] = [0u8; N];
        let mut i: usize = 0;
        assert(self.data@.len() == self.data.len());
        while i < N
            invariant
                i <= N,
                self.data == old(self).data,
                self.pos == old(self).pos,
                self.pos + N <= self.data@.len(),
                self.data@.len() <= usize::MAX,
                forall|j: int| 0 <= j < i ==> result@[j] == self.data@[self.pos + j],
            decreases N - i,
        {
            result[i] = self.data[self.pos + i];
            i = i + 1;
        }
        self.pos = self.pos + N;
        assert(result@ =~= old(self).remaining().take(N as int));
        Ok(result)
    }

    /// Reads a sequence of 32-bit integers: a varint count, then four bytes
    /// per integer, least significant first.
    pub fn read_u32_vec(&mut self) -> (r: Result<Vec<u32>, SerError>)
        ensures
            old(self).reads(final(self), viewed(r), parse_u32_slice(old(self).remaining())),
    {
        let count: u64 = self.read_varint()?;
        proof {
            use_type_invariant(&*self);
        }
        let left: usize = self.data.len() - self.pos;
        if count > (left / 4) as u64 {
            return Err(SerError::BufferTooSmall);
        }
        let ghost start = self.pos;
        let ghost payload = self.remaining();
        assert(payload =~= old(self).remaining().skip(start - old(self).pos));
        let mut vec: Vec<u32> = Vec::new();
        let mut i: u64 = 0;
        while i < count
            invariant
                i <= count,
                self.data == old(self).data,
                self.pos == start + 4 * i,
                start + 4 * count <= self.data@.len(),
                payload == self.data@.skip(start as int),
                vec@ == words_of(payload, i as nat),
            decreases count - i,
        {
            assert(self.remaining() =~= payload.skip(4 * i));
            let word: u32 = self.take_word();
            vec.push(word);
            assert(vec@ =~= words_of(payload, (i + 1) as nat));
            i = i + 1;
        }
        Ok(vec)
    }

    /// Reads a sequence of booleans: its length, then the booleans packed
    /// eight to a byte.
    pub fn read_bool_vec(&mut self) -> (r: Result<Vec<bool>, SerError>)
        ensures
            old(self).reads(final(self), viewed(r), parse_bool_seq(old(self).remaining())),
    {
        let len: u64 = self.read_varint()?;
        proof {
            use_type_invariant(&*self);
        }
        let left: usize = self.data.len() - self.pos;
        let packed: u64 = len / 8 + if len % 8 != 0 {
            1
        } else {
            0
        };
        assert(packed == packed_len(len as nat));
        if packed > left as u64 {
            return Err(SerError::BufferTooSmall);
        }
        let ghost start = self.pos;
        let ghost payload = self.remaining();
        assert(payload =~= old(self).remaining().skip(start - old(self).pos));
        let mut vec: Vec<bool> = Vec::new();
        let mut j: u64 = 0;
        while j < packed
            invariant
                j <= packed,
                packed == packed_len(len as nat),
                self.data == old(self).data,
                start + packed <= self.data@.len(),
                self.pos == start + j,
                payload == self.data@.skip(start as int),
                vec@ == unpacked_bools(
                    payload,
                    if 8 * j <= len { (8 * j) as nat } else { len as nat },
                ),
            decreases packed - j,
        {
            let byte: u8 = self.data[self.pos];
            self.pos = self.pos + 1;
            let done: u64 = j * 8;
            let width: u64 = if len - done < 8 {
                len - done
            } else {
                8
            };
            let mut i: u8 = 0;
            while (i as u64) < width
                invariant
                    i <= width <= 8,
                    done + width <= len,
                    done == 8 * j,
                    j < packed,
                    start + packed <= self.data@.len(),
                    payload == self.data@.skip(start as int),
                    byte == payload[j as int],
                    vec@ == unpacked_bools(payload, (done + i) as nat),
                decreases width - i,
            {
                vec.push(byte & (1u8 << i) != 0);
                assert(vec@ =~= unpacked_bools(payload, (done + i + 1) as nat));
                i = i + 1;
            }
            j = j + 1;
        }
        assert(vec@ == unpacked_bools(payload, len as nat));
        Ok(vec)
    }

    /// Reads a varint count and then that many items, each from where the
    /// one before it ended. The first failure ends the reading.
    fn read_counted<T: Item>(&mut self) -> (r: Result<Vec<T>, SerError>)
        ensures
            old(self).reads(
                final(self),
                viewed(r),
                parse_counted(|b: Seq<u8>| T::parse_item(b), old(self).remaining()),
            ),
    {
        let count: u64 = self.read_varint()?;
        proof {
            use_type_invariant(&*self);
        }
        let ghost start = self.pos;
        let ghost payload = self.remaining();
        let mut vec: Vec<T> = Vec::new();
        let mut i: u64 = 0;
        proof {
            assert(payload =~= old(self).remaining().skip(start - old(self).pos));
            assert(vec@ =~= Seq::empty());
            lemma_after_nothing(repeat(|b: Seq<u8>| T::parse_item(b), payload, count as nat));
        }
        while i < count
            invariant
                i <= count,
                self.data == old(self).data,
                old(self).pos <= start <= self.pos <= self.data@.len(),
                payload == old(self).remaining().skip(start - old(self).pos),
                parse_varint(old(self).remaining()) == Ok::<(u64, nat), SerError>(
                    (count, (start - old(self).pos) as nat),
                ),
                repeat(|b: Seq<u8>| T::parse_item(b), payload, count as nat) == after(
                    vec@,
                    (self.pos - start) as nat,
                    repeat(|b: Seq<u8>| T::parse_item(b), self.remaining(), (count - i) as nat),
                ),
            decreases count - i,
        {
            let ghost rest = self.remaining();
            let ghost used = (self.pos - start) as nat;
            match T::read_item(self) {
                Ok(item) => {
                    proof {
                        use_type_invariant(&*self);
                        let n = (self.pos - start - used) as nat;
                        assert(self.remaining() =~= rest.skip(n as int));
                        lemma_after_push(
                            vec@,
                            used,
                            item,
                            n,
                            repeat(
                                |b: Seq<u8>| T::parse_item(b),
                                self.remaining(),
                                (count - i - 1) as nat,
                            ),
                        );
                    }
                    vec.push(item);
                },
                Err(e) => {
                    proof {
                        use_type_invariant(&*self);
                    }
                    return Err(e);
                },
            }
            i = i + 1;
        }
        proof {
            assert(vec@ + Seq::empty() =~= vec@);
        }
        Ok(vec)
    }

    /// Reads a sequence of 16-bit integers: a varint count, then a varint per
    /// integer, of which the low 16 bits are kept.
    pub fn read_u16_vec(&mut self) -> (r: Result<Vec<u16>, SerError>)
        ensures
            old(self).reads(final(self), viewed(r), parse_u16_slice(old(self).remaining())),
    {
        proof {
            let own: spec_fn(Seq<u8>) -> Parsed<u16> = |b: Seq<u8>| <u16 as Item>::parse_item(b);
            let named: spec_fn(Seq<u8>) -> Parsed<u16> = |b: Seq<u8>| parse_u16(b);
            assert(own =~= named);
        }
        self.read_counted::<u16>()
    }

    /// Reads a sequence of 64-bit integers: a varint count, then a varint per
    /// integer.
    pub fn read_u64_vec(&mut self) -> (r: Result<Vec<u64>, SerError>)
        ensures
            old(self).reads(final(self), viewed(r), parse_u64_slice(old(self).remaining())),
    {
        proof {
            let own: spec_fn(Seq<u8>) -> Parsed<u64> = |b: Seq<u8>| <u64 as Item>::parse_item(b);
            let named: spec_fn(Seq<u8>) -> Parsed<u64> = |b: Seq<u8>| parse_varint(b);
            assert(own =~= named);
        }
        self.read_counted::<u64>()
    }

    /// Reads a sequence of signed 8-bit integers: a varint count, then a
    /// signed varint per integer, of which the low 8 bits are kept.
    pub fn read_i8_vec(&mut self) -> (r: Result<Vec<i8>, SerError>)
        ensures
            old(self).reads(final(self), viewed(r), parse_i8_slice(old(self).remaining())),
    {
        proof {
            let own: spec_fn(Seq<u8>) -> Parsed<i8> = |b: Seq<u8>| <i8 as Item>::parse_item(b);
            let named: spec_fn(Seq<u8>) -> Parsed<i8> = |b: Seq<u8>| parse_i8(b);
            assert(own =~= named);
        }
        self.read_counted::<i8>()
    }

    /// Reads a sequence of signed 16-bit integers: a varint count, then a
    /// signed varint per integer, of which the low 16 bits are kept.
    pub fn read_i16_vec(&mut self) -> (r: Result<Vec<i16>, SerError>)
        ensures
            old(self).reads(final(self), viewed(r), parse_i16_slice(old(self).remaining())),
    {
        proof {
            let own: spec_fn(Seq<u8>) -> Parsed<i16> = |b: Seq<u8>| <i16 as Item>::parse_item(b);
            let named: spec_fn(Seq<u8>) -> Parsed<i16> = |b: Seq<u8>| parse_i16(b);
            assert(own =~= named);
        }
        self.read_counted::<i16>()
    }

    /// Reads a sequence of signed 64-bit integers: a varint count, then a
    /// signed varint per integer.
    pub fn read_i64_vec(&mut self) -> (r: Result<Vec<i64>, SerError>)
        ensures
            old(self).reads(final(self), viewed(r), parse_i64_slice(old(self).remaining())),
    {
        proof {
            let own: spec_fn(Seq<u8>) -> Parsed<i64> = |b: Seq<u8>| <i64 as Item>::parse_item(b);
            let named: spec_fn(Seq<u8>) -> Parsed<i64> = |b: Seq<u8>| parse_signed_varint(b);
            assert(own =~= named);
        }
        self.read_counted::<i64>()
    }

    /// Reads a sequence of single-precision floats: a varint count, then
    /// each float with the shortcut.
    pub fn read_f32_vec(&mut self) -> (r: Result<Vec<Single>, SerError>)
        ensures
            old(self).reads(final(self), viewed(r), parse_f32_slice(old(self).remaining())),
    {
        proof {
            let own: spec_fn(Seq<u8>) -> Parsed<Single> = |b: Seq<u8>| <Single as Item>::parse_item(b);
            let named: spec_fn(Seq<u8>) -> Parsed<Single> = |b: Seq<u8>| parse_float32(b);
            assert(own =~= named);
        }
        self.read_counted::<Single>()
    }

    /// Reads a sequence of double-precision floats: a varint count, then
    /// each float with the shortcut.
    pub fn read_f64_vec(&mut self) -> (r: Result<Vec<Double>, SerError>)
        ensures
            old(self).reads(final(self), viewed(r), parse_f64_slice(old(self).remaining())),
    {
        proof {
            let own: spec_fn(Seq<u8>) -> Parsed<Double> = |b: Seq<u8>| <Double as Item>::parse_item(b);
            let named: spec_fn(Seq<u8>) -> Parsed<Double> = |b: Seq<u8>| parse_float64(b);
            assert(own =~= named);
        }
        self.read_counted::<Double>()
    }

    /// Reads a sequence of texts into owned strings: a varint count, then
    /// each text with its own length prefix.
    pub fn read_string_vec(&mut self) -> (r: Result<Vec<String>, SerError>)
        ensures
            old(self).reads(
                final(self),
                deep_viewed(r),
                parse_string_vec(old(self).remaining()),
            ),
    {
        let count: u64 = self.read_varint()?;
        proof {
            use_type_invariant(&*self);
        }
        let ghost start = self.pos;
        let ghost payload = self.remaining();
        let mut vec: Vec<String> = Vec::new();
        let mut i: u64 = 0;
        proof {
            assert(payload =~= old(self).remaining().skip(start - old(self).pos));
            assert(vec.deep_view() =~= Seq::empty());
            lemma_after_nothing(repeat(|b: Seq<u8>| parse_text(b), payload, count as nat));
        }
        while i < count
            invariant
                i <= count,
                self.data == old(self).data,
                old(self).pos <= start <= self.pos <= self.data@.len(),
                payload == old(self).remaining().skip(start - old(self).pos),
                parse_varint(old(self).remaining()) == Ok::<(u64, nat), SerError>(
                    (count, (start - old(self).pos) as nat),
                ),
                repeat(|b: Seq<u8>| parse_text(b), payload, count as nat) == after(
                    vec.deep_view(),
                    (self.pos - start) as nat,
                    repeat(|b: Seq<u8>| parse_text(b), self.remaining(), (count - i) as nat),
                ),
            decreases count - i,
        {
            let ghost rest = self.remaining();
            let ghost used = (self.pos - start) as nat;
            match self.read_str() {
                Ok(raw) => {
                    let item: String = raw.to_owned();
                    let ghost before_items = vec.deep_view();
                    proof {
                        use_type_invariant(&*self);
                        let n = (self.pos - start - used) as nat;
                        assert(self.remaining() =~= rest.skip(n as int));
                        lemma_after_push(
                            vec.deep_view(),
                            used,
                            item@,
                            n,
                            repeat(
                                |b: Seq<u8>| parse_text(b),
                                self.remaining(),
                                (count - i - 1) as nat,
                            ),
                        );
                    }
                    vec.push(item);
                    assert(vec.deep_view() =~= before_items.push(item@));
                },
                Err(e) => {
                    proof {
                        use_type_invariant(&*self);
                    }
                    return Err(e);
                },
            }
            i = i + 1;
        }
        proof {
            assert(vec.deep_view() + Seq::empty() =~= vec.deep_view());
        }
        Ok(vec)
    }
}

/// A kind of item of which sequences are read, one item after the other.
trait Item: Sized {
    /// What decoding one item makes of `s`.
    spec fn parse_item(s: Seq<u8>) -> Parsed<Self>;

    /// Reads one item from where `de` stands.
    fn read_item<'a>(de: &mut JaguarDeserializer<'a>) -> (r: Result<Self, SerError>)
        ensures
            old(de).reads(final(de), r, Self::parse_item(old(de).remaining())),
    ;
}

impl Item for u16 {
    spec fn parse_item(s: Seq<u8>) -> Parsed<Self> {
        parse_u16(s)
    }

    fn read_item<'a>(de: &mut JaguarDeserializer<'a>) -> (r: Result<Self, SerError>) {
        let raw: u64 = de.read_varint()?;
        Ok(#[verifier::truncate] (raw as u16))
    }
}

impl Item for u64 {
    spec fn parse_item(s: Seq<u8>) -> Parsed<Self> {
        parse_varint(s)
    }

    fn read_item<'a>(de: &mut JaguarDeserializer<'a>) -> (r: Result<Self, SerError>) {
        de.read_varint()
    }
}

impl Item for i8 {
    spec fn parse_item(s: Seq<u8>) -> Parsed<Self> {
        parse_i8(s)
    }

    fn read_item<'a>(de: &mut JaguarDeserializer<'a>) -> (r: Result<Self, SerError>) {
        let raw: i64 = de.read_signed_varint()?;
        Ok(#[verifier::truncate] (raw as i8))
    }
}

impl Item for i16 {
    spec fn parse_item(s: Seq<u8>) -> Parsed<Self> {
        parse_i16(s)
    }

    fn read_item<'a>(de: &mut JaguarDeserializer<'a>) -> (r: Result<Self, SerError>) {
        let raw: i64 = de.read_signed_varint()?;
        Ok(#[verifier::truncate] (raw as i16))
    }
}

impl Item for i64 {
    spec fn parse_item(s: Seq<u8>) -> Parsed<Self> {
        parse_signed_varint(s)
    }

    fn read_item<'a>(de: &mut JaguarDeserializer<'a>) -> (r: Result<Self, SerError>) {
        de.read_signed_varint()
    }
}

impl Item for Single {
    spec fn parse_item(s: Seq<u8>) -> Parsed<Self> {
        parse_float32(s)
    }

    fn read_item<'a>(de: &mut JaguarDeserializer<'a>) -> (r: Result<Self, SerError>) {
        de.read_f32()
    }
}

impl Item for Double {
    spec fn parse_item(s: Seq<u8>) -> Parsed<Self> {
        parse_float64(s)
    }

    fn read_item<'a>(de: &mut JaguarDeserializer<'a>) -> (r: Result<Self, SerError>) {
        de.read_f64()
    }
}

/// Placing a seven-bit digit above the bits gathered so far adds it at its
/// power of 128. Of a tenth digit only the lowest bit has a place.
proof fn lemma_accumulate(acc: u64, digit: u64, shift: u32)
    requires
        digit < 128,
        shift % 7 == 0,
        shift <= 63,
        shift == 63 ==> digit <= 1,
        acc < scale((shift / 7) as nat),
    ensures
        (acc | (digit << shift)) == acc + digit * scale((shift / 7) as nat),
{
    lemma_scale_values();
    let unit = scale((shift / 7) as nat) as int;
    if shift == 0 {
        assert(acc | (digit << 0u32) == digit) by (bit_vector)
            requires
                acc == 0,
        ;
        assert(digit * unit == digit) by (nonlinear_arith)
            requires
                unit == 1,
        ;
    } else if shift == 7 {
        assert(acc | (digit << 7u32) == acc + digit * 0x80) by (bit_vector)
            requires
                acc < 0x80,
                digit < 128,
        ;
        assert(digit * unit == digit * 0x80) by (nonlinear_arith)
            requires
                unit == 0x80,
        ;
    } else if shift == 14 {
        assert(acc | (digit << 14u32) == acc + digit * 0x4000) by (bit_vector)
            requires
                acc < 0x4000,
                digit < 128,
        ;
        assert(digit * unit == digit * 0x4000) by (nonlinear_arith)
            requires
                unit == 0x4000,
        ;
    } else if shift == 21 {
        assert(acc | (digit << 21u32) == acc + digit * 0x20_0000) by (bit_vector)
            requires
                acc < 0x20_0000,
                digit < 128,
        ;
        assert(digit * unit == digit * 0x20_0000) by (nonlinear_arith)
            requires
                unit == 0x20_0000,
        ;
    } else if shift == 28 {
        assert(acc | (digit << 28u32) == acc + digit * 0x1000_0000) by (bit_vector)
            requires
                acc < 0x1000_0000,
                digit < 128,
        ;
        assert(digit * unit == digit * 0x1000_0000) by (nonlinear_arith)
            requires
                unit == 0x1000_0000,
        ;
    } else if shift == 35 {
        assert(acc | (digit << 35u32) == acc + digit * 0x8_0000_0000) by (bit_vector)
            requires
                acc < 0x8_0000_0000,
                digit < 128,
        ;
        assert(digit * unit == digit * 0x8_0000_0000) by (nonlinear_arith)
            requires
                unit == 0x8_0000_0000,
        ;
    } else if shift == 42 {
        assert(acc | (digit << 42u32) == acc + digit * 0x400_0000_0000) by (bit_vector)
            requires
                acc < 0x400_0000_0000,
                digit < 128,
        ;
        assert(digit * unit == digit * 0x400_0000_0000) by (nonlinear_arith)
            requires
                unit == 0x400_0000_0000,
        ;
    } else if shift == 49 {
        assert(acc | (digit << 49u32) == acc + digit * 0x2_0000_0000_0000) by (bit_vector)
            requires
                acc < 0x2_0000_0000_0000,
                digit < 128,
        ;
        assert(digit * unit == digit * 0x2_0000_0000_0000) by (nonlinear_arith)
            requires
                unit == 0x2_0000_0000_0000,
        ;
    } else if shift == 56 {
        assert(acc | (digit << 56u32) == acc + digit * 0x100_0000_0000_0000) by (bit_vector)
            requires
                acc < 0x100_0000_0000_0000,
                digit < 128,
        ;
        assert(digit * unit == digit * 0x100_0000_0000_0000) by (nonlinear_arith)
            requires
                unit == 0x100_0000_0000_0000,
        ;
    } else {
        assert(shift == 63);
        assert(acc | (digit << 63u32) == acc + digit * 0x8000_0000_0000_0000) by (bit_vector)
            requires
                acc < 0x8000_0000_0000_0000,
                digit <= 1,
        ;
        assert(digit * unit == digit * 0x8000_0000_0000_0000) by (nonlinear_arith)
            requires
                unit == 0x8000_0000_0000_0000,
        ;
    }
}

} // verus!
