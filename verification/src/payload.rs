//! Bytes as they are: single bytes, raw runs of a known length, and the
//! length-prefixed payloads (byte strings, UTF-8 text and dense 32-bit
//! words), each behind a varint that says how much follows.

use vstd::prelude::*;
use vstd::utf8::{decode_utf8, encode_utf8, valid_utf8};
use crate::error::{Parsed, SerError};
use crate::floats::{from_le_bytes32, le_bytes32, lemma_le_bytes32};
use crate::items::{counted, joined};
use crate::varint::{lemma_varint_round_trip, parse_varint, varint};

verus! {

/// What reading one byte makes of `s`.
pub open spec fn parse_u8(s: Seq<u8>) -> Parsed<u8> {
    if s.len() == 0 {
        Err(SerError::BufferTooSmall)
    } else {
        Ok((s[0], 1))
    }
}

/// The encoding of a byte string: its length as a varint, then the bytes
/// as they are.
pub open spec fn prefixed(bytes: Seq<u8>) -> Seq<u8> {
    varint(bytes.len() as u64) + bytes
}

/// What the decoder of a byte string makes of `s`: a varint length, then
/// that many bytes, all of which must be present.
pub open spec fn parse_prefixed(s: Seq<u8>) -> Parsed<Seq<u8>> {
    match parse_varint(s) {
        Ok((len, n)) => if s.len() - n < len {
            Err(SerError::BufferTooSmall)
        } else {
            Ok((s.subrange(n as int, n + len), (n + len) as nat))
        },
        Err(e) => Err(e),
    }
}

/// What reading exactly `n` raw bytes makes of `s`.
pub open spec fn parse_raw(s: Seq<u8>, n: nat) -> Parsed<Seq<u8>> {
    if s.len() < n {
        Err(SerError::BufferTooSmall)
    } else {
        Ok((s.take(n as int), n))
    }
}

/// The encoding of a text: its UTF-8 bytes, prefixed with their number.
pub open spec fn text(chars: Seq<char>) -> Seq<u8> {
    prefixed(encode_utf8(chars))
}

/// What the text decoder makes of `s`: a byte string that must be valid
/// UTF-8.
pub open spec fn parse_text(s: Seq<u8>) -> Parsed<Seq<char>> {
    match parse_prefixed(s) {
        Ok((bytes, n)) => if valid_utf8(bytes) {
            Ok((decode_utf8(bytes), n))
        } else {
            Err(SerError::InvalidData)
        },
        Err(e) => Err(e),
    }
}

/// The encoding of a sequence of 32-bit words: their number as a varint,
/// then four bytes for each, least significant first.
pub open spec fn u32_slice(words: Seq<u32>) -> Seq<u8> {
    counted(words, |w: u32| le_bytes32(w))
}

/// The `count` words that start `s`, four bytes each.
pub open spec fn words_of(s: Seq<u8>, count: nat) -> Seq<u32> {
    Seq::new(count, |i: int| from_le_bytes32(s.skip(4 * i)))
}

/// What the decoder of a sequence of 32-bit words makes of `s`: a varint
/// count, then four bytes per word, all of which must be present.
pub open spec fn parse_u32_slice(s: Seq<u8>) -> Parsed<Seq<u32>> {
    match parse_varint(s) {
        Ok((count, n)) => if s.len() - n < 4 * count {
            Err(SerError::BufferTooSmall)
        } else {
            Ok((words_of(s.skip(n as int), count as nat), (n + 4 * count) as nat))
        },
        Err(e) => Err(e),
    }
}

/// Decoding a byte string inverts encoding, whatever bytes follow.
pub proof fn lemma_prefixed_round_trip(bytes: Seq<u8>, rest: Seq<u8>)
    requires
        bytes.len() <= u64::MAX,
    ensures
        parse_prefixed(prefixed(bytes) + rest) == Ok::<(Seq<u8>, nat), SerError>(
            (bytes, prefixed(bytes).len()),
        ),
{
    let head = varint(bytes.len() as u64);
    let s = prefixed(bytes) + rest;
    assert(s =~= head + (bytes + rest));
    lemma_varint_round_trip(bytes.len() as u64, bytes + rest);
    assert(s.subrange(head.len() as int, (head.len() + bytes.len()) as int) =~= bytes);
}

/// Decoding a text inverts encoding, whatever bytes follow.
pub proof fn lemma_text_round_trip(chars: Seq<char>, rest: Seq<u8>)
    requires
        encode_utf8(chars).len() <= u64::MAX,
    ensures
        parse_text(text(chars) + rest) == Ok::<(Seq<char>, nat), SerError>(
            (chars, text(chars).len()),
        ),
{
    lemma_prefixed_round_trip(encode_utf8(chars), rest);
    vstd::utf8::encode_utf8_valid_utf8(chars);
    vstd::utf8::encode_utf8_decode_utf8(chars);
}

/// Joined words take four bytes each.
pub proof fn lemma_words_len(words: Seq<u32>)
    ensures
        joined(words, |w: u32| le_bytes32(w)).len() == 4 * words.len(),
    decreases words.len(),
{
    if words.len() > 0 {
        lemma_words_len(words.drop_last());
    }
}

/// The words read back from joined words are those that were joined.
pub proof fn lemma_words_of_joined(words: Seq<u32>, rest: Seq<u8>)
    ensures
        words_of(joined(words, |w: u32| le_bytes32(w)) + rest, words.len()) == words,
    decreases words.len(),
{
    let enc = |w: u32| le_bytes32(w);
    let s = joined(words, enc) + rest;
    if words.len() > 0 {
        let front = words.drop_last();
        let last = words.last();
        lemma_words_len(front);
        lemma_words_of_joined(front, le_bytes32(last) + rest);
        assert(s =~= joined(front, enc) + (le_bytes32(last) + rest));
        assert(s.skip(4 * front.len() as int) =~= le_bytes32(last) + rest);
        lemma_le_bytes32(last, rest);
        assert(words_of(s, words.len()) =~= words_of(s, front.len()).push(last));
        assert(front.push(last) =~= words);
    } else {
        assert(words_of(s, 0) =~= words);
    }
}

/// Decoding a sequence of 32-bit words inverts encoding, whatever bytes
/// follow.
pub proof fn lemma_u32_slice_round_trip(words: Seq<u32>, rest: Seq<u8>)
    requires
        words.len() <= u64::MAX,
    ensures
        parse_u32_slice(u32_slice(words) + rest) == Ok::<(Seq<u32>, nat), SerError>(
            (words, u32_slice(words).len()),
        ),
{
    let enc = |w: u32| le_bytes32(w);
    let head = varint(words.len() as u64);
    let s = u32_slice(words) + rest;
    assert(s =~= head + (joined(words, enc) + rest));
    lemma_varint_round_trip(words.len() as u64, joined(words, enc) + rest);
    lemma_words_len(words);
    assert(s.skip(head.len() as int) =~= joined(words, enc) + rest);
    lemma_words_of_joined(words, rest);
}

/// Reading back as many raw bytes as were written gives those bytes.
pub proof fn lemma_raw_round_trip(bytes: Seq<u8>, rest: Seq<u8>)
    ensures
        parse_raw(bytes + rest, bytes.len()) == Ok::<(Seq<u8>, nat), SerError>(
            (bytes, bytes.len()),
        ),
{
    assert((bytes + rest).take(bytes.len() as int) =~= bytes);
}

} // verus!
