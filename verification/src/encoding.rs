//! The canonical encoding of a value, as a specification only: it says
//! which bytes stand for a value, so that the grammar can be held against
//! it. Nothing here is executable.

use crate::grammar::{all_digits, decimal_value, distinct_keys, is_digit, Entries, MAX_DEPTH};
use crate::value::Value;
use vstd::prelude::*;

verus! {

/// The digits that write `n` in base ten, with no leading zero.
pub open spec fn decimal_text(n: nat) -> Seq<u8>
    decreases n,
{
    if n < 10 {
        seq![(0x30 + n) as u8]
    } else {
        decimal_text(n / 10).push((0x30 + n % 10) as u8)
    }
}

/// The text that writes `i` in base ten: a `-` before the digits of a
/// negative number, and no sign otherwise.
pub open spec fn signed_text(i: int) -> Seq<u8> {
    if i < 0 {
        seq![0x2du8] + decimal_text((-i) as nat)
    } else {
        decimal_text(i as nat)
    }
}

/// The encoding `<length>:<bytes>` of a byte string.
pub open spec fn byte_string_encoding(bytes: Seq<u8>) -> Seq<u8> {
    decimal_text(bytes.len()) + seq![0x3au8] + bytes
}

/// The encoding of a value: `<length>:<bytes>`, `i<number>e`, `l<items>e`
/// or `d<key><value>...e`.
pub open spec fn encoding(v: Value) -> Seq<u8>
    decreases v,
{
    match v {
        Value::ByteString(bytes) => byte_string_encoding(bytes),
        Value::Integer(i) => seq![0x69u8] + signed_text(i) + seq![0x65u8],
        Value::List(items) => seq![0x6cu8] + items_encoding(items) + seq![0x65u8],
        Value::Dictionary(entries) => seq![0x64u8] + entries_encoding(entries) + seq![0x65u8],
    }
}

/// The encodings of `items`, one after the other.
pub open spec fn items_encoding(items: Seq<Value>) -> Seq<u8>
    decreases items,
{
    if items.len() == 0 {
        Seq::empty()
    } else {
        encoding(items[0]) + items_encoding(items.drop_first())
    }
}

/// The encodings of the keys and values of `entries`, one after the other.
pub open spec fn entries_encoding(entries: Entries) -> Seq<u8>
    decreases entries,
{
    if entries.len() == 0 {
        Seq::empty()
    } else {
        byte_string_encoding(entries[0].0) + encoding(entries[0].1) + entries_encoding(
            entries.drop_first(),
        )
    }
}

/// Whether `v` can be decoded from its encoding when `depth` lists and
/// dictionaries are open around it: its integers fit in 64 bits, no
/// dictionary has a key twice, and its lists and dictionaries are nested
/// within `MAX_DEPTH`.
pub open spec fn well_formed(v: Value, depth: nat) -> bool
    decreases v,
{
    match v {
        Value::ByteString(_) => true,
        Value::Integer(i) => i64::MIN <= i <= i64::MAX,
        Value::List(items) => depth < MAX_DEPTH && forall|k: int|
            0 <= k < items.len() ==> well_formed(#[trigger] items[k], depth + 1),
        Value::Dictionary(entries) => depth < MAX_DEPTH && distinct_keys(entries) && forall|
            k: int,
        |
            0 <= k < entries.len() ==> well_formed((#[trigger] entries[k]).1, depth + 1),
    }
}

/// Whether `piece` stands in `s` at `pos`.
pub open spec fn occurs_at(s: Seq<u8>, pos: int, piece: Seq<u8>) -> bool {
    0 <= pos && pos + piece.len() <= s.len() && s.subrange(pos, pos + piece.len()) == piece
}

/// The digits of `n` are digits, write `n`, and start with `0` for zero
/// alone.
pub proof fn lemma_decimal_text(n: nat)
    ensures
        decimal_text(n).len() >= 1,
        all_digits(decimal_text(n)),
        decimal_value(decimal_text(n)) == n,
        n == 0 ==> decimal_text(n) == seq![0x30u8],
        n > 0 ==> decimal_text(n)[0] != 0x30,
    decreases n,
{
    let text = decimal_text(n);
    if n < 10 {
        assert(text.drop_last() == Seq::<u8>::empty());
        assert(decimal_value(text.drop_last()) == 0);
    } else {
        let shorter = decimal_text(n / 10);
        lemma_decimal_text(n / 10);
        assert(text.drop_last() == shorter);
        assert forall|i: int| 0 <= i < text.len() implies is_digit(#[trigger] text[i]) by {
            if i < shorter.len() {
                assert(text[i] == shorter[i]);
            }
        }
    }
}

} // verus!
