//! Homogeneous sequences: an encoder or a decoder applied to one item after
//! the other.

use vstd::prelude::*;
use crate::error::{Parsed, SerError};
use crate::varint::{lemma_varint_round_trip, parse_varint, varint};

verus! {

/// The encodings of `items` under `enc`, one after the other.
pub open spec fn joined<T>(items: Seq<T>, enc: spec_fn(T) -> Seq<u8>) -> Seq<u8>
    decreases items.len(),
{
    if items.len() == 0 {
        Seq::empty()
    } else {
        joined(items.drop_last(), enc) + enc(items.last())
    }
}

/// A parse result with `acc` put in front of its items and `used` added to
/// the bytes it consumed.
pub open spec fn after<T>(acc: Seq<T>, used: nat, tail: Parsed<Seq<T>>) -> Parsed<Seq<T>> {
    match tail {
        Ok((items, n)) => Ok((acc + items, used + n)),
        Err(e) => Err(e),
    }
}

/// What decoding `count` items in a row with `p` makes of `s`: each item is
/// decoded from where the one before it ended, and the first failure is the
/// failure of the whole.
pub open spec fn repeat<T>(p: spec_fn(Seq<u8>) -> Parsed<T>, s: Seq<u8>, count: nat) -> Parsed<
    Seq<T>,
>
    decreases count,
{
    if count == 0 {
        Ok((Seq::empty(), 0))
    } else {
        match p(s) {
            Ok((v, n)) => after(seq![v], n, repeat(p, s.skip(n as int), (count - 1) as nat)),
            Err(e) => Err(e),
        }
    }
}

/// A successful decoding of `count` items gives `count` items.
pub proof fn lemma_repeat_len<T>(p: spec_fn(Seq<u8>) -> Parsed<T>, s: Seq<u8>, count: nat)
    ensures
        repeat(p, s, count) matches Ok((items, _)) ==> items.len() == count,
    decreases count,
{
    if count > 0 {
        if let Ok((v, n)) = p(s) {
            lemma_repeat_len(p, s.skip(n as int), (count - 1) as nat);
        }
    }
}

/// Putting `acc` and then one more item in front is putting `acc` with that
/// item in front.
pub proof fn lemma_after_push<T>(acc: Seq<T>, used: nat, v: T, n: nat, tail: Parsed<Seq<T>>)
    ensures
        after(acc, used, after(seq![v], n, tail)) == after(acc.push(v), used + n, tail),
{
    if let Ok((items, m)) = tail {
        assert(acc + (seq![v] + items) =~= acc.push(v) + items);
    }
}

/// Putting nothing in front changes nothing.
pub proof fn lemma_after_nothing<T>(tail: Parsed<Seq<T>>)
    ensures
        after(Seq::empty(), 0, tail) == tail,
{
    if let Ok((items, m)) = tail {
        assert(Seq::<T>::empty() + items =~= items);
    }
}

/// The encoding of a counted sequence: the number of items as a varint,
/// then the items' encodings.
pub open spec fn counted<T>(items: Seq<T>, enc: spec_fn(T) -> Seq<u8>) -> Seq<u8> {
    varint(items.len() as u64) + joined(items, enc)
}

/// What the decoder of a counted sequence makes of `s`: a varint count, then
/// that many items.
pub open spec fn parse_counted<T>(p: spec_fn(Seq<u8>) -> Parsed<T>, s: Seq<u8>) -> Parsed<Seq<T>> {
    match parse_varint(s) {
        Ok((count, n)) => match repeat(p, s.skip(n as int), count as nat) {
            Ok((items, m)) => Ok((items, n + m)),
            Err(e) => Err(e),
        },
        Err(e) => Err(e),
    }
}

/// The encodings of the first `k` items are the start of the encodings of
/// all of them.
pub proof fn lemma_joined_prefix<T>(items: Seq<T>, enc: spec_fn(T) -> Seq<u8>, k: int)
    requires
        0 <= k <= items.len(),
    ensures
        joined(items.take(k), enc).is_prefix_of(joined(items, enc)),
        joined(items.take(k), enc).len() <= joined(items, enc).len(),
    decreases items.len(),
{
    if k == items.len() {
        assert(items.take(k) =~= items);
    } else {
        lemma_joined_prefix(items.drop_last(), enc, k);
        assert(items.drop_last().take(k) =~= items.take(k));
    }
}

/// The encodings of the first `i + 1` items are those of the first `i`
/// followed by that of item `i`, and no longer than those of all items.
pub proof fn lemma_joined_step<T>(items: Seq<T>, enc: spec_fn(T) -> Seq<u8>, i: int)
    requires
        0 <= i < items.len(),
    ensures
        joined(items.take(i + 1), enc) == joined(items.take(i), enc) + enc(items[i]),
        joined(items.take(i + 1), enc).len() <= joined(items, enc).len(),
{
    assert(items.take(i + 1).drop_last() =~= items.take(i));
    lemma_joined_prefix(items, enc, i + 1);
}

/// The encodings of a sequence start with that of its first item.
pub proof fn lemma_joined_head<T>(items: Seq<T>, enc: spec_fn(T) -> Seq<u8>)
    requires
        items.len() > 0,
    ensures
        joined(items, enc) == enc(items[0]) + joined(items.skip(1), enc),
    decreases items.len(),
{
    if items.len() == 1 {
        assert(joined(items.drop_last(), enc) =~= Seq::<u8>::empty());
        assert(joined(items.skip(1), enc) =~= Seq::<u8>::empty());
        assert(items.last() == items[0]);
        assert(joined(items, enc) =~= enc(items[0]) + joined(items.skip(1), enc));
    } else {
        lemma_joined_head(items.drop_last(), enc);
        assert(items.drop_last().skip(1) =~= items.skip(1).drop_last());
        assert(joined(items, enc) =~= enc(items[0]) + joined(items.skip(1), enc));
    }
}

/// If `p` decodes what `enc` encodes, giving `norm` of the item whatever
/// bytes follow, then decoding as many items as were joined gives `norm` of
/// each of them.
pub proof fn lemma_repeat_joined<T, U>(
    items: Seq<T>,
    enc: spec_fn(T) -> Seq<u8>,
    p: spec_fn(Seq<u8>) -> Parsed<U>,
    norm: spec_fn(T) -> U,
    rest: Seq<u8>,
)
    requires
        forall|i: int, tail: Seq<u8>|
            0 <= i < items.len() ==> #[trigger] p(enc(items[i]) + tail) == Ok::<(U, nat), SerError>(
                (norm(items[i]), enc(items[i]).len()),
            ),
    ensures
        repeat(p, joined(items, enc) + rest, items.len()) == Ok::<(Seq<U>, nat), SerError>(
            (items.map_values(norm), joined(items, enc).len()),
        ),
    decreases items.len(),
{
    if items.len() == 0 {
        assert(items.map_values(norm) =~= Seq::<U>::empty());
    } else {
        let head = enc(items[0]);
        let others = items.skip(1);
        lemma_joined_head(items, enc);
        assert(joined(items, enc) + rest =~= head + (joined(others, enc) + rest));
        assert((head + (joined(others, enc) + rest)).skip(head.len() as int) =~= joined(others, enc)
            + rest);
        assert forall|i: int, tail: Seq<u8>| 0 <= i < others.len() implies #[trigger] p(
            enc(others[i]) + tail,
        ) == Ok::<(U, nat), SerError>((norm(others[i]), enc(others[i]).len())) by {
            assert(others[i] == items[i + 1]);
        }
        lemma_repeat_joined(others, enc, p, norm, rest);
        assert(seq![norm(items[0])] + others.map_values(norm) =~= items.map_values(norm));
    }
}

/// Decoding a counted sequence inverts encoding, whatever bytes follow,
/// provided that decoding an item inverts encoding it: if `p` gives back
/// `norm` of every item that `enc` encoded, the decoded sequence is `norm`
/// of every item of the encoded one.
pub proof fn lemma_counted_round_trip<T, U>(
    items: Seq<T>,
    enc: spec_fn(T) -> Seq<u8>,
    p: spec_fn(Seq<u8>) -> Parsed<U>,
    norm: spec_fn(T) -> U,
    rest: Seq<u8>,
)
    requires
        items.len() <= u64::MAX,
        forall|i: int, tail: Seq<u8>|
            0 <= i < items.len() ==> #[trigger] p(enc(items[i]) + tail) == Ok::<(U, nat), SerError>(
                (norm(items[i]), enc(items[i]).len()),
            ),
    ensures
        parse_counted(p, counted(items, enc) + rest) == Ok::<(Seq<U>, nat), SerError>(
            (items.map_values(norm), counted(items, enc).len()),
        ),
{
    let head = varint(items.len() as u64);
    let body = joined(items, enc);
    let s = counted(items, enc) + rest;
    assert(s =~= head + (body + rest));
    lemma_varint_round_trip(items.len() as u64, body + rest);
    assert(s.skip(head.len() as int) =~= body + rest);
    lemma_repeat_joined(items, enc, p, norm, rest);
}

} // verus!
