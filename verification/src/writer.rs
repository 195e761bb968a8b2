//! The writer: a growing byte buffer and a cursor that counts the bytes
//! written so far.

use vstd::prelude::*;
use vstd::slice::slice_subrange;
use crate::bools::{bool_byte, bool_slice, pack_byte, packed_bools, packed_len};
use crate::error::SerError;
use crate::floats::{
    float32, float64, le_bytes32, Double, Single, DOUBLE_MINUS_ONE, DOUBLE_MINUS_ZERO,
    DOUBLE_ONE, MARKER_MINUS_ONE, MARKER_ONE, MARKER_RAW, MARKER_ZERO, SINGLE_MINUS_ONE,
    SINGLE_MINUS_ZERO, SINGLE_ONE,
};
use crate::codec::{write_items, JaguarSerialize};
use crate::items::{counted, joined, lemma_joined_step};
use crate::payload::{lemma_words_len, prefixed, text, u32_slice};
use crate::slices::{
    f32_slice, f64_slice, i16_slice, i64_slice, i8_slice, string_vec, u16_slice, u64_slice,
};
use crate::varint::{varint, varint_size};
use crate::zigzag::{signed_varint, zigzag_encode};

verus! {

/// Accumulates encoded bytes.
///
/// The buffer may be physically longer than what has been written; bytes past
/// the cursor carry no meaning. The view of a writer is what has been
/// written: the bytes before the cursor.
pub struct JaguarSerializer {
    buffer: Vec<u8>,
    pos: usize,
}

impl View for JaguarSerializer {
    type V = Seq<u8>;

    closed spec fn view(&self) -> Seq<u8> {
        self.buffer@.subrange(0, self.pos as int)
    }
}

/// The most bytes that a writer can hold: half of what a `usize` can count,
/// which is the most that the machine lets one allocation take.
pub const LIMIT: usize = usize::MAX / 2;

/// The physical length a buffer of length `physical` takes when `required`
/// bytes must fit: unchanged if they already do, else the larger of
/// `required` and twice `physical`, as far as the limit allows.
pub open spec fn grown_len(physical: nat, required: nat) -> nat {
    if required <= physical {
        physical
    } else if 2 * physical <= required {
        required
    } else if 2 * physical <= LIMIT {
        2 * physical
    } else {
        LIMIT as nat
    }
}

impl JaguarSerializer {
    /// The cursor stays within the buffer, and the buffer within the limit.
    #[verifier::type_invariant]
    spec fn cursor_in_buffer(self) -> bool {
        self.pos <= self.buffer@.len() <= LIMIT
    }

    /// The physical length of the buffer: the room that the writer has, of
    /// which the bytes written take the front.
    pub closed spec fn physical_len(&self) -> nat {
        self.buffer@.len()
    }

    /// The outcome of a write of `bytes`, from the writer `self` to the
    /// writer `after`.
    ///
    /// The write succeeds if and only if the total stays within the limit.
    /// On success exactly `bytes` are appended. On failure the error is
    /// `BufferTooSmall` and nothing has been written. The buffer never
    /// shrinks, and it does not grow where it already has room for `bytes`.
    pub open spec fn appends(&self, after: &Self, bytes: Seq<u8>, r: Result<(), SerError>) -> bool {
        &&& after.physical_len() >= self.physical_len()
        &&& self@.len() + bytes.len() <= self.physical_len() ==> after.physical_len()
            == self.physical_len()
        &&& if self@.len() + bytes.len() <= LIMIT {
            r is Ok && after@ == self@ + bytes
        } else {
            r == Err::<(), SerError>(SerError::BufferTooSmall) && after@ == self@
        }
    }

    /// The outcome of a write of `bytes` for which room is made once, for
    /// all of them: what `appends` says, and on success the buffer has
    /// grown, if it had to, as `grown_len` says.
    pub open spec fn appends_at_once(
        &self,
        after: &Self,
        bytes: Seq<u8>,
        r: Result<(), SerError>,
    ) -> bool {
        &&& self.appends(after, bytes, r)
        &&& r is Ok ==> after.physical_len() == grown_len(
            self.physical_len(),
            self@.len() + bytes.len(),
        )
    }

    /// Creates an empty writer with room for 1024 bytes from the start.
    pub fn new() -> (s: Self)
        ensures
            s@ == Seq::<u8>::empty(),
            s.physical_len() == 1024,
    {
        Self::with_capacity(1024)
    }

    /// Creates an empty writer with room for `capacity` bytes from the start.
    pub fn with_capacity(capacity: usize) -> (s: Self)
        requires
            capacity <= LIMIT,
        ensures
            s@ == Seq::<u8>::empty(),
            s.physical_len() == capacity,
    {
        let mut buffer: Vec<u8> = Vec::with_capacity(capacity);
        buffer.resize(capacity, 0);
        let s = Self { buffer, pos: 0 };
        assert(s@ =~= Seq::<u8>::empty());
        s
    }

    /// Ends the writer and hands out exactly the bytes written.
    pub fn finish(self) -> (out: Vec<u8>)
        ensures
            out@ == self@,
    {
        proof {
            use_type_invariant(&self);
        }
        let mut buffer = self.buffer;
        buffer.truncate(self.pos);
        buffer
    }

    /// The bytes written so far.
    pub fn data(&self) -> (out: &[u8])
        ensures
            out@ == self@,
    {
        proof {
            use_type_invariant(self);
        }
        slice_subrange(self.buffer.as_slice(), 0, self.pos)
    }

    /// The number of bytes written so far.
    pub fn len(&self) -> (n: usize)
        ensures
            n == self@.len(),
            n <= LIMIT,
    {
        proof {
            use_type_invariant(self);
        }
        self.pos
    }

    /// Forgets what has been written and keeps the buffer for reuse.
    pub fn reset(&mut self)
        ensures
            final(self)@ == Seq::<u8>::empty(),
            final(self).physical_len() == old(self).physical_len(),
    {
        proof {
            use_type_invariant(&*self);
        }
        self.pos = 0;
        assert(self@ =~= Seq::<u8>::empty());
    }

    /// Forgets what was written after the first `mark` bytes, if anything
    /// was.
    pub fn rewind(&mut self, mark: usize)
        ensures
            final(self).physical_len() == old(self).physical_len(),
            final(self)@ == if mark <= old(self)@.len() {
                old(self)@.take(mark as int)
            } else {
                old(self)@
            },
    {
        proof {
            use_type_invariant(&*self);
        }
        if mark <= self.pos {
            self.pos = mark;
            assert(self@ =~= old(self)@.take(mark as int));
        }
    }

    /// Makes room for `needed` more bytes after the cursor, growing the
    /// buffer with zero bytes where it is too short. Reports whether the
    /// total stays within the limit; if not, nothing changes.
    fn ensure_space(&mut self, needed: usize) -> (ok: bool)
        ensures
            final(self)@ == old(self)@,
            final(self).pos == old(self).pos,
            ok <==> old(self)@.len() + needed <= LIMIT,
            ok ==> final(self).pos + needed <= final(self).buffer@.len(),
            ok ==> final(self).physical_len() == grown_len(
                old(self).physical_len(),
                old(self)@.len() + needed as nat,
            ),
            !ok ==> final(self).physical_len() == old(self).physical_len(),
            forall|i: int|
                old(self).buffer@.len() <= i < final(self).buffer@.len() ==> final(self).buffer@[i]
                    == 0,
    {
        proof {
            use_type_invariant(&*self);
        }
        if needed > LIMIT - self.pos {
            return false;
        }
        let required: usize = self.pos + needed;
        let len: usize = self.buffer.len();
        if len < required {
            let doubled: usize = if len <= LIMIT / 2 {
                len * 2
            } else {
                LIMIT
            };
            let target: usize = if required >= doubled {
                required
            } else {
                doubled
            };
            // The buffer is taken out while it grows, so that the cursor
            // never points past the buffer that the writer holds.
            let cursor: usize = self.pos;
            let mut buffer: Vec<u8> = Vec::new();
            self.pos = 0;
            core::mem::swap(&mut self.buffer, &mut buffer);
            buffer.resize(target, 0);
            core::mem::swap(&mut self.buffer, &mut buffer);
            self.pos = cursor;
            assert(self@ =~= old(self)@);
        }
        true
    }

    /// Stores `byte` at the cursor and moves the cursor past it.
    fn put(&mut self, byte: u8)
        requires
            old(self).pos < old(self).buffer@.len(),
        ensures
            final(self)@ == old(self)@.push(byte),
            final(self).pos == old(self).pos + 1,
            final(self).buffer@.len() == old(self).buffer@.len(),
    {
        proof {
            use_type_invariant(&*self);
        }
        self.buffer[self.pos] = byte;
        assert(self.buffer@.len() == self.buffer.len());
        self.pos = self.pos + 1;
        assert(self@ =~= old(self)@.push(byte));
    }

    /// Stores `bytes` at the cursor and moves the cursor past them.
    fn put_all(&mut self, bytes: &[u8])
        requires
            old(self).pos + bytes@.len() <= old(self).buffer@.len(),
        ensures
            final(self)@ == old(self)@ + bytes@,
            final(self).pos == old(self).pos + bytes@.len(),
            final(self).buffer@.len() == old(self).buffer@.len(),
    {
        let n: usize = bytes.len();
        let mut i: usize = 0;
        assert(self@ =~= old(self)@ + bytes@.take(0));
        while i < n
            invariant
                i <= n,
                n == bytes@.len(),
                self.pos == old(self).pos + i,
                self.buffer@.len() == old(self).buffer@.len(),
                old(self).pos + n <= old(self).buffer@.len(),
                self@ == old(self)@ + bytes@.take(i as int),
            decreases n - i,
        {
            self.put(bytes[i]);
            assert(bytes@.take(i + 1) =~= bytes@.take(i as int).push(bytes@[i as int]));
            assert(self@ =~= old(self)@ + bytes@.take(i + 1));
            i = i + 1;
        }
        assert(bytes@.take(n as int) =~= bytes@);
    }

    /// Stores the four bytes of `word` at the cursor, least significant
    /// first.
    fn put_word(&mut self, word: u32)
        requires
            old(self).pos + 4 <= old(self).buffer@.len(),
        ensures
            final(self)@ == old(self)@ + le_bytes32(word),
            final(self).pos == old(self).pos + 4,
            final(self).buffer@.len() == old(self).buffer@.len(),
    {
        self.put((word % 0x100) as u8);
        self.put((word / 0x100 % 0x100) as u8);
        self.put((word / 0x1_0000 % 0x100) as u8);
        self.put((word / 0x100_0000 % 0x100) as u8);
        assert(self@ =~= old(self)@ + le_bytes32(word));
    }

    /// Writes a single byte.
    pub fn write_u8(&mut self, value: u8) -> (r: Result<(), SerError>)
        ensures
            old(self).appends_at_once(final(self), seq![value], r),
    {
        if !self.ensure_space(1) {
            return Err(SerError::BufferTooSmall);
        }
        self.put(value);
        assert(old(self)@.push(value) =~= old(self)@ + seq![value]);
        Ok(())
    }

    /// Writes a boolean as one byte: 1 for true, 0 for false.
    pub fn write_bool(&mut self, value: bool) -> (r: Result<(), SerError>)
        ensures
            old(self).appends_at_once(final(self), bool_byte(value), r),
    {
        self.write_u8(if value {
            1
        } else {
            0
        })
    }

    /// Writes `value` as a varint: one byte for values below 128, up to ten
    /// for the largest.
    pub fn write_varint(&mut self, value: u64) -> (r: Result<(), SerError>)
        ensures
            old(self).appends_at_once(final(self), varint(value), r),
    {
        if value < 0x80 {
            return self.write_u8(value as u8);
        }
        let size: usize = varint_size(value);
        if !self.ensure_space(size) {
            return Err(SerError::BufferTooSmall);
        }
        let mut v: u64 = value;
        while v >= 0x80
            invariant
                self@ + varint(v) == old(self)@ + varint(value),
                self.pos + varint(v).len() <= self.buffer@.len(),
                self.buffer@.len() == grown_len(
                    old(self).buffer@.len(),
                    old(self)@.len() + varint(value).len(),
                ),
            decreases v,
        {
            let ghost before = self@;
            assert((v as u8) | 0x80u8 == (v % 128 + 128) as u8) by (bit_vector);
            assert(v >> 7 == v / 128) by (bit_vector);
            self.put(#[verifier::truncate] (v as u8) | 0x80);
            v = v >> 7;
            assert(self@ + varint(v) =~= before + (seq![(self@.last())] + varint(v)));
        }
        self.put(v as u8);
        assert(self@ =~= old(self)@ + varint(value));
        Ok(())
    }

    /// Writes a signed integer as the varint of its zigzag form.
    pub fn write_signed_varint(&mut self, value: i64) -> (r: Result<(), SerError>)
        ensures
            old(self).appends_at_once(final(self), signed_varint(value), r),
    {
        self.write_varint(zigzag_encode(value))
    }

    /// Writes a single-precision float: one marker byte for zero, one and
    /// minus one, else the marker 255 and the four bytes of the bit pattern.
    pub fn write_f32(&mut self, value: Single) -> (r: Result<(), SerError>)
        ensures
            old(self).appends_at_once(final(self), float32(value), r),
    {
        let bits: u32 = value.bits;
        if bits == 0 || bits == SINGLE_MINUS_ZERO {
            return self.write_u8(MARKER_ZERO);
        } else if bits == SINGLE_ONE {
            return self.write_u8(MARKER_ONE);
        } else if bits == SINGLE_MINUS_ONE {
            return self.write_u8(MARKER_MINUS_ONE);
        }
        if !self.ensure_space(5) {
            return Err(SerError::BufferTooSmall);
        }
        self.put(MARKER_RAW);
        self.put_word(bits);
        assert(self@ =~= old(self)@ + float32(value));
        Ok(())
    }

    /// Writes a double-precision float: one marker byte for zero, one and
    /// minus one, else the marker 255 and the eight bytes of the bit pattern.
    pub fn write_f64(&mut self, value: Double) -> (r: Result<(), SerError>)
        ensures
            old(self).appends_at_once(final(self), float64(value), r),
    {
        let bits: u64 = value.bits;
        if bits == 0 || bits == DOUBLE_MINUS_ZERO {
            return self.write_u8(MARKER_ZERO);
        } else if bits == DOUBLE_ONE {
            return self.write_u8(MARKER_ONE);
        } else if bits == DOUBLE_MINUS_ONE {
            return self.write_u8(MARKER_MINUS_ONE);
        }
        if !self.ensure_space(9) {
            return Err(SerError::BufferTooSmall);
        }
        self.put(MARKER_RAW);
        self.put((bits % 0x100) as u8);
        self.put((bits / 0x100 % 0x100) as u8);
        self.put((bits / 0x1_0000 % 0x100) as u8);
        self.put((bits / 0x100_0000 % 0x100) as u8);
        self.put((bits / 0x1_0000_0000 % 0x100) as u8);
        self.put((bits / 0x100_0000_0000 % 0x100) as u8);
        self.put((bits / 0x1_0000_0000_0000 % 0x100) as u8);
        self.put((bits / 0x100_0000_0000_0000 % 0x100) as u8);
        assert(self@ =~= old(self)@ + float64(value));
        Ok(())
    }

    /// Writes `bytes` as they are, with no length in front of them.
    pub fn write_raw(&mut self, bytes: &[u8]) -> (r: Result<(), SerError>)
        ensures
            old(self).appends_at_once(final(self), bytes@, r),
    {
        if !self.ensure_space(bytes.len()) {
            return Err(SerError::BufferTooSmall);
        }
        self.put_all(bytes);
        Ok(())
    }

    /// Writes `bytes` behind a varint that gives their number.
    fn write_prefixed(&mut self, bytes: &[u8]) -> (r: Result<(), SerError>)
        ensures
            old(self).appends_at_once(final(self), prefixed(bytes@), r),
    {
        proof {
            use_type_invariant(&*self);
        }
        let n: usize = bytes.len();
        let prefix: usize = varint_size(n as u64);
        if n > LIMIT - prefix {
            return Err(SerError::BufferTooSmall);
        }
        if !self.ensure_space(prefix + n) {
            return Err(SerError::BufferTooSmall);
        }
        self.write_varint(n as u64)?;
        proof {
            use_type_invariant(&*self);
            assert(self@.len() == self.pos);
            assert(old(self)@.len() == old(self).pos);
        }
        self.put_all(bytes);
        assert(self@ =~= old(self)@ + prefixed(bytes@));
        Ok(())
    }

    /// Writes a byte string: its length, then the bytes as they are.
    pub fn write_bytes(&mut self, bytes: &[u8]) -> (r: Result<(), SerError>)
        ensures
            old(self).appends_at_once(final(self), prefixed(bytes@), r),
    {
        self.write_prefixed(bytes)
    }

    /// Writes a text: the number of its UTF-8 bytes, then the bytes.
    pub fn write_str(&mut self, s: &str) -> (r: Result<(), SerError>)
        ensures
            old(self).appends_at_once(final(self), text(s@), r),
    {
        self.write_prefixed(s.as_bytes())
    }

    /// Writes a sequence of bytes: its length, then the bytes as they are.
    pub fn write_u8_slice(&mut self, slice: &[u8]) -> (r: Result<(), SerError>)
        ensures
            old(self).appends_at_once(final(self), prefixed(slice@), r),
    {
        self.write_prefixed(slice)
    }

    /// Writes a sequence of 32-bit integers: its length, then four bytes per
    /// integer, least significant first. This is not the encoding of the
    /// integers one by one, which are varints.
    pub fn write_u32_slice(&mut self, slice: &[u32]) -> (r: Result<(), SerError>)
        ensures
            old(self).appends_at_once(final(self), u32_slice(slice@), r),
    {
        proof {
            use_type_invariant(&*self);
            lemma_words_len(slice@);
        }
        let n: usize = slice.len();
        let prefix: usize = varint_size(n as u64);
        if n > (LIMIT - prefix) / 4 {
            return Err(SerError::BufferTooSmall);
        }
        if !self.ensure_space(prefix + n * 4) {
            return Err(SerError::BufferTooSmall);
        }
        self.write_varint(n as u64)?;
        proof {
            use_type_invariant(&*self);
            assert(self@.len() == self.pos);
            assert(old(self)@.len() == old(self).pos);
        }
        let mut i: usize = 0;
        assert(self@ =~= old(self)@ + varint(n as u64) + joined(
            slice@.take(0),
            |w: u32| le_bytes32(w),
        ));
        while i < n
            invariant
                i <= n,
                n == slice@.len(),
                self.pos + 4 * (n - i) <= self.buffer@.len(),
                self.buffer@.len() == grown_len(
                    old(self).buffer@.len(),
                    old(self)@.len() + u32_slice(slice@).len(),
                ),
                self@ == old(self)@ + varint(n as u64) + joined(
                    slice@.take(i as int),
                    |w: u32| le_bytes32(w),
                ),
            decreases n - i,
        {
            proof {
                lemma_joined_step(slice@, |w: u32| le_bytes32(w), i as int);
            }
            self.put_word(slice[i]);
            assert(self@ =~= old(self)@ + varint(n as u64) + joined(
                slice@.take(i + 1),
                |w: u32| le_bytes32(w),
            ));
            i = i + 1;
        }
        assert(slice@.take(n as int) =~= slice@);
        assert(self@ =~= old(self)@ + u32_slice(slice@));
        Ok(())
    }

    /// Writes a sequence of booleans: its length, then the booleans packed
    /// eight to a byte.
    pub fn write_bool_slice(&mut self, slice: &[bool]) -> (r: Result<(), SerError>)
        ensures
            old(self).appends_at_once(final(self), bool_slice(slice@), r),
    {
        proof {
            use_type_invariant(&*self);
        }
        let n: usize = slice.len();
        let packed: usize = n / 8 + if n % 8 != 0 {
            1
        } else {
            0
        };
        let prefix: usize = varint_size(n as u64);
        assert(packed == packed_len(n as nat));
        if packed > LIMIT - prefix {
            return Err(SerError::BufferTooSmall);
        }
        if !self.ensure_space(prefix + packed) {
            return Err(SerError::BufferTooSmall);
        }
        self.write_varint(n as u64)?;
        proof {
            use_type_invariant(&*self);
            assert(self@.len() == self.pos);
            assert(old(self)@.len() == old(self).pos);
        }
        let ghost body = packed_bools(slice@);
        let mut j: usize = 0;
        while j < packed
            invariant
                j <= packed,
                n == slice@.len(),
                packed == packed_len(n as nat),
                body == packed_bools(slice@),
                self.pos + (packed - j) <= self.buffer@.len(),
                self.buffer@.len() == grown_len(
                    old(self).buffer@.len(),
                    old(self)@.len() + bool_slice(slice@).len(),
                ),
                self@ == old(self)@ + varint(n as u64) + body.take(j as int),
            decreases packed - j,
        {
            let byte: u8 = pack_byte(slice, j * 8);
            self.put(byte);
            assert(body.take(j + 1) =~= body.take(j as int).push(byte));
            assert(self@ =~= old(self)@ + varint(n as u64) + body.take(j + 1));
            j = j + 1;
        }
        assert(body.take(packed as int) =~= body);
        assert(self@ =~= old(self)@ + bool_slice(slice@));
        Ok(())
    }

    /// Writes the number of `items` as a varint and then each item as it is
    /// encoded alone. If an item does not fit, nothing is written.
    fn write_counted<T: JaguarSerialize>(&mut self, items: &[T]) -> (r: Result<(), SerError>)
        requires
            T::exact(),
        ensures
            old(self).appends(final(self), counted(items@, |x: T| x.wire()), r),
    {
        let mark: usize = self.len();
        self.write_varint(items.len() as u64)?;
        if write_items(items, self).is_err() {
            self.rewind(mark);
            assert(self@ =~= old(self)@);
            return Err(SerError::BufferTooSmall);
        }
        assert(self@ =~= old(self)@ + counted(items@, |x: T| x.wire()));
        Ok(())
    }

    /// Writes a sequence of 16-bit integers: its length, then a varint per
    /// integer.
    pub fn write_u16_slice(&mut self, slice: &[u16]) -> (r: Result<(), SerError>)
        ensures
            old(self).appends(final(self), u16_slice(slice@), r),
    {
        proof {
            let own: spec_fn(u16) -> Seq<u8> = |x: u16| x.wire();
            let named: spec_fn(u16) -> Seq<u8> = |v: u16| varint(v as u64);
            assert(own =~= named);
        }
        self.write_counted(slice)
    }

    /// Writes a sequence of 64-bit integers: its length, then a varint per
    /// integer.
    pub fn write_u64_slice(&mut self, slice: &[u64]) -> (r: Result<(), SerError>)
        ensures
            old(self).appends(final(self), u64_slice(slice@), r),
    {
        proof {
            let own: spec_fn(u64) -> Seq<u8> = |x: u64| x.wire();
            let named: spec_fn(u64) -> Seq<u8> = |v: u64| varint(v);
            assert(own =~= named);
        }
        self.write_counted(slice)
    }

    /// Writes a sequence of signed 8-bit integers: its length, then a signed
    /// varint per integer.
    pub fn write_i8_slice(&mut self, slice: &[i8]) -> (r: Result<(), SerError>)
        ensures
            old(self).appends(final(self), i8_slice(slice@), r),
    {
        proof {
            let own: spec_fn(i8) -> Seq<u8> = |x: i8| x.wire();
            let named: spec_fn(i8) -> Seq<u8> = |v: i8| signed_varint(v as i64);
            assert(own =~= named);
        }
        self.write_counted(slice)
    }

    /// Writes a sequence of signed 16-bit integers: its length, then a signed
    /// varint per integer.
    pub fn write_i16_slice(&mut self, slice: &[i16]) -> (r: Result<(), SerError>)
        ensures
            old(self).appends(final(self), i16_slice(slice@), r),
    {
        proof {
            let own: spec_fn(i16) -> Seq<u8> = |x: i16| x.wire();
            let named: spec_fn(i16) -> Seq<u8> = |v: i16| signed_varint(v as i64);
            assert(own =~= named);
        }
        self.write_counted(slice)
    }

    /// Writes a sequence of signed 64-bit integers: its length, then a signed
    /// varint per integer.
    pub fn write_i64_slice(&mut self, slice: &[i64]) -> (r: Result<(), SerError>)
        ensures
            old(self).appends(final(self), i64_slice(slice@), r),
    {
        proof {
            let own: spec_fn(i64) -> Seq<u8> = |x: i64| x.wire();
            let named: spec_fn(i64) -> Seq<u8> = |v: i64| signed_varint(v);
            assert(own =~= named);
        }
        self.write_counted(slice)
    }

    /// Writes a sequence of single-precision floats: its length, then each
    /// float with the shortcut.
    pub fn write_f32_slice(&mut self, slice: &[Single]) -> (r: Result<(), SerError>)
        ensures
            old(self).appends(final(self), f32_slice(slice@), r),
    {
        proof {
            let own: spec_fn(Single) -> Seq<u8> = |x: Single| x.wire();
            let named: spec_fn(Single) -> Seq<u8> = |x: Single| float32(x);
            assert(own =~= named);
        }
        self.write_counted(slice)
    }

    /// Writes a sequence of double-precision floats: its length, then each
    /// float with the shortcut.
    pub fn write_f64_slice(&mut self, slice: &[Double]) -> (r: Result<(), SerError>)
        ensures
            old(self).appends(final(self), f64_slice(slice@), r),
    {
        proof {
            let own: spec_fn(Double) -> Seq<u8> = |x: Double| x.wire();
            let named: spec_fn(Double) -> Seq<u8> = |x: Double| float64(x);
            assert(own =~= named);
        }
        self.write_counted(slice)
    }

    /// Writes a sequence of texts: its length, then each text with its own
    /// length prefix.
    pub fn write_string_vec(&mut self, vec: &[String]) -> (r: Result<(), SerError>)
        ensures
            old(self).appends(final(self), string_vec(vec@), r),
    {
        proof {
            let own: spec_fn(String) -> Seq<u8> = |x: String| x.wire();
            let named: spec_fn(String) -> Seq<u8> = |s: String| text(s@);
            assert(own =~= named);
        }
        self.write_counted(vec)
    }
}

} // verus!
