//! What holds of encoding followed by decoding, for every type that the
//! codec knows and for every aggregate of such types.

use vstd::prelude::*;
use vstd::utf8::encode_utf8;
use crate::bools::lemma_bool_round_trip;
use crate::codec::{
    models, parse_items, wires, ArrayItem, JaguarDeserialize, JaguarSerialize, StrRef, Value,
};
use crate::error::SerError;
use crate::floats::{lemma_float32_round_trip, lemma_float64_round_trip, Double, Single};
use crate::items::lemma_repeat_joined;
use crate::payload::{lemma_raw_round_trip, lemma_text_round_trip};
use crate::varint::{
    lemma_u16_round_trip, lemma_u32_round_trip, lemma_varint_round_trip, lemma_wide_round_trip,
    varint,
};
use crate::zigzag::{
    lemma_i16_round_trip, lemma_i32_round_trip, lemma_i8_round_trip,
    lemma_signed_varint_round_trip,
};

verus! {

/// Whether decoding gives `x` back from its encoding, whatever bytes follow
/// it: the decoded value means what `x` means, and exactly the bytes of the
/// encoding are consumed.
pub open spec fn round_trips<'a, T: JaguarSerialize + JaguarDeserialize<'a>>(x: T) -> bool {
    forall|rest: Seq<u8>| #[trigger]
        T::parse(x.wire() + rest) == Ok::<(Value, nat), SerError>((x.model(), x.wire().len()))
}

/// Every byte round-trips.
pub proof fn lemma_u8_round_trips(x: u8)
    ensures
        round_trips(x),
{
}

/// Every 16-bit integer round-trips.
pub proof fn lemma_u16_round_trips(x: u16)
    ensures
        round_trips(x),
{
    assert forall|rest: Seq<u8>| #[trigger]
        u16::parse(x.wire() + rest) == Ok::<(Value, nat), SerError>(
            (x.model(), x.wire().len()),
        ) by {
        lemma_u16_round_trip(x, rest);
    }
}

/// Every 32-bit integer round-trips.
pub proof fn lemma_u32_round_trips(x: u32)
    ensures
        round_trips(x),
{
    assert forall|rest: Seq<u8>| #[trigger]
        u32::parse(x.wire() + rest) == Ok::<(Value, nat), SerError>(
            (x.model(), x.wire().len()),
        ) by {
        lemma_u32_round_trip(x, rest);
    }
}

/// Every 64-bit integer round-trips.
pub proof fn lemma_u64_round_trips(x: u64)
    ensures
        round_trips(x),
{
    assert forall|rest: Seq<u8>| #[trigger]
        u64::parse(x.wire() + rest) == Ok::<(Value, nat), SerError>(
            (x.model(), x.wire().len()),
        ) by {
        lemma_varint_round_trip(x, rest);
    }
}

/// Every 128-bit integer round-trips.
pub proof fn lemma_u128_round_trips(x: u128)
    ensures
        round_trips(x),
{
    assert forall|rest: Seq<u8>| #[trigger]
        u128::parse(x.wire() + rest) == Ok::<(Value, nat), SerError>(
            (x.model(), x.wire().len()),
        ) by {
        lemma_wide_round_trip(x, rest);
    }
}

/// Every signed 8-bit integer round-trips.
pub proof fn lemma_i8_round_trips(x: i8)
    ensures
        round_trips(x),
{
    assert forall|rest: Seq<u8>| #[trigger]
        i8::parse(x.wire() + rest) == Ok::<(Value, nat), SerError>(
            (x.model(), x.wire().len()),
        ) by {
        lemma_i8_round_trip(x, rest);
    }
}

/// Every signed 16-bit integer round-trips.
pub proof fn lemma_i16_round_trips(x: i16)
    ensures
        round_trips(x),
{
    assert forall|rest: Seq<u8>| #[trigger]
        i16::parse(x.wire() + rest) == Ok::<(Value, nat), SerError>(
            (x.model(), x.wire().len()),
        ) by {
        lemma_i16_round_trip(x, rest);
    }
}

/// Every signed 32-bit integer round-trips.
pub proof fn lemma_i32_round_trips(x: i32)
    ensures
        round_trips(x),
{
    assert forall|rest: Seq<u8>| #[trigger]
        i32::parse(x.wire() + rest) == Ok::<(Value, nat), SerError>(
            (x.model(), x.wire().len()),
        ) by {
        lemma_i32_round_trip(x, rest);
    }
}

/// Every signed 64-bit integer round-trips.
pub proof fn lemma_i64_round_trips(x: i64)
    ensures
        round_trips(x),
{
    assert forall|rest: Seq<u8>| #[trigger]
        i64::parse(x.wire() + rest) == Ok::<(Value, nat), SerError>(
            (x.model(), x.wire().len()),
        ) by {
        lemma_signed_varint_round_trip(x, rest);
    }
}

/// Both booleans round-trip.
pub proof fn lemma_bool_round_trips(x: bool)
    ensures
        round_trips(x),
{
    assert forall|rest: Seq<u8>| #[trigger]
        bool::parse(x.wire() + rest) == Ok::<(Value, nat), SerError>(
            (x.model(), x.wire().len()),
        ) by {
        lemma_bool_round_trip(x, rest);
    }
}

/// Every single-precision float round-trips, minus zero as zero and a NaN
/// with its bit pattern.
pub proof fn lemma_single_round_trips(x: Single)
    ensures
        round_trips(x),
{
    assert forall|rest: Seq<u8>| #[trigger]
        Single::parse(x.wire() + rest) == Ok::<(Value, nat), SerError>(
            (x.model(), x.wire().len()),
        ) by {
        lemma_float32_round_trip(x, rest);
    }
}

/// Every double-precision float round-trips, minus zero as zero and a NaN
/// with its bit pattern.
pub proof fn lemma_double_round_trips(x: Double)
    ensures
        round_trips(x),
{
    assert forall|rest: Seq<u8>| #[trigger]
        Double::parse(x.wire() + rest) == Ok::<(Value, nat), SerError>(
            (x.model(), x.wire().len()),
        ) by {
        lemma_float64_round_trip(x, rest);
    }
}

/// Every string whose UTF-8 length a varint can hold round-trips.
pub proof fn lemma_string_round_trips(x: String)
    requires
        encode_utf8(x@).len() <= u64::MAX,
    ensures
        round_trips(x),
{
    assert forall|rest: Seq<u8>| #[trigger]
        String::parse(x.wire() + rest) == Ok::<(Value, nat), SerError>(
            (x.model(), x.wire().len()),
        ) by {
        lemma_text_round_trip(x@, rest);
    }
}

/// Every borrowed text whose UTF-8 length a varint can hold round-trips.
pub proof fn lemma_str_ref_round_trips<'a>(x: StrRef<'a>)
    requires
        encode_utf8(x.0@).len() <= u64::MAX,
    ensures
        round_trips(x),
{
    assert forall|rest: Seq<u8>| #[trigger]
        StrRef::parse(x.wire() + rest) == Ok::<(Value, nat), SerError>(
            (x.model(), x.wire().len()),
        ) by {
        lemma_text_round_trip(x.0@, rest);
    }
}

/// Every array of bytes round-trips.
pub proof fn lemma_byte_array_round_trips<const N: usize>(x: [u8; N])
    ensures
        round_trips(x),
{
    assert forall|rest: Seq<u8>| #[trigger]
        <[u8; N]>::parse(x.wire() + rest) == Ok::<(Value, nat), SerError>(
            (x.model(), x.wire().len()),
        ) by {
        lemma_raw_round_trip(x@, rest);
    }
}

/// Items that round-trip one by one round-trip in a row.
pub proof fn lemma_items_round_trip<'a, T: JaguarSerialize + JaguarDeserialize<'a>>(
    items: Seq<T>,
    rest: Seq<u8>,
)
    requires
        forall|i: int| 0 <= i < items.len() ==> round_trips(#[trigger] items[i]),
    ensures
        parse_items::<T>(wires(items) + rest, items.len()) == Ok::<(Seq<Value>, nat), SerError>(
            (models(items), wires(items).len()),
        ),
{
    let enc = |x: T| x.wire();
    let p = |b: Seq<u8>| T::parse(b);
    let norm = |x: T| x.model();
    assert forall|i: int, tail: Seq<u8>| 0 <= i < items.len() implies #[trigger] p(
        enc(items[i]) + tail,
    ) == Ok::<(Value, nat), SerError>((norm(items[i]), enc(items[i]).len())) by {
        assert(round_trips(items[i]));
        assert(T::parse(items[i].wire() + tail) == Ok::<(Value, nat), SerError>(
            (items[i].model(), items[i].wire().len()),
        ));
    }
    lemma_repeat_joined(items, enc, p, norm, rest);
}

/// A pair round-trips if both of its fields do: encoding is the fields'
/// encodings in order, and decoding reads the fields in the same order.
pub proof fn lemma_pair_round_trips<
    'a,
    A: JaguarSerialize + JaguarDeserialize<'a>,
    B: JaguarSerialize + JaguarDeserialize<'a>,
>(x: (A, B))
    requires
        round_trips(x.0),
        round_trips(x.1),
    ensures
        round_trips(x),
{
    assert forall|rest: Seq<u8>| #[trigger]
        <(A, B)>::parse(x.wire() + rest) == Ok::<(Value, nat), SerError>(
            (x.model(), x.wire().len()),
        ) by {
        let first = x.0.wire();
        let second = x.1.wire();
        assert(x.wire() + rest =~= first + (second + rest));
        assert(A::parse(first + (second + rest)) == Ok::<(Value, nat), SerError>(
            (x.0.model(), first.len()),
        ));
        assert((first + (second + rest)).skip(first.len() as int) =~= second + rest);
        assert(B::parse(second + rest) == Ok::<(Value, nat), SerError>(
            (x.1.model(), second.len()),
        ));
    }
}

/// A vector round-trips if each of its items does.
pub proof fn lemma_vec_round_trips<'a, T: JaguarSerialize + JaguarDeserialize<'a>>(x: Vec<T>)
    requires
        x@.len() <= u64::MAX,
        forall|i: int| 0 <= i < x@.len() ==> round_trips(#[trigger] x@[i]),
    ensures
        round_trips(x),
{
    assert forall|rest: Seq<u8>| #[trigger]
        <Vec<T>>::parse(x.wire() + rest) == Ok::<(Value, nat), SerError>(
            (x.model(), x.wire().len()),
        ) by {
        let head = varint(x@.len() as u64);
        let body = wires(x@);
        assert(x.wire() + rest =~= head + (body + rest));
        lemma_varint_round_trip(x@.len() as u64, body + rest);
        assert((head + (body + rest)).skip(head.len() as int) =~= body + rest);
        lemma_items_round_trip::<T>(x@, rest);
    }
}

/// A fixed-size array round-trips if each of its items does.
pub proof fn lemma_array_round_trips<
    'a,
    T: JaguarSerialize + JaguarDeserialize<'a> + ArrayItem,
    const N: usize,
>(x: [T; N])
    requires
        forall|i: int| 0 <= i < N ==> round_trips(#[trigger] x@[i]),
    ensures
        round_trips(x),
{
    assert forall|rest: Seq<u8>| #[trigger]
        <[T; N]>::parse(x.wire() + rest) == Ok::<(Value, nat), SerError>(
            (x.model(), x.wire().len()),
        ) by {
        let head = varint(N as u64);
        let body = wires(x@);
        assert(x.wire() + rest =~= head + (body + rest));
        lemma_varint_round_trip(N as u64, body + rest);
        assert((head + (body + rest)).skip(head.len() as int) =~= body + rest);
        lemma_items_round_trip::<T>(x@, rest);
    }
}

} // verus!
