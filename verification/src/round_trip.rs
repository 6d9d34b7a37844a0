//! What the grammar makes of canonical encodings: every well-formed value
//! is read back from its encoding, wherever the encoding stands.

use crate::encoding::{
    byte_string_encoding, decimal_text, encoding, entries_encoding, items_encoding,
    lemma_decimal_text, occurs_at, signed_text, well_formed,
};
use crate::error::Failure;
use crate::grammar::{
    byte_string_at, decoded, distinct_keys, entries_from, has_key, integer_at, integer_text,
    is_digit, items_from, lemma_find_byte_first, lemma_value_at_advances, signed_decimal, upsert,
    value_at, Entries,
};
use crate::value::Value;
use vstd::prelude::*;

verus! {

/// A piece that stands in `s` at `pos` holds the bytes that `s` holds from
/// `pos` on.
pub proof fn lemma_occurs_at_index(s: Seq<u8>, pos: int, piece: Seq<u8>, k: int)
    requires
        occurs_at(s, pos, piece),
        0 <= k < piece.len(),
    ensures
        s[pos + k] == piece[k],
{
    assert(s.subrange(pos, pos + piece.len())[k] == s[pos + k]);
}

/// Where two pieces stand one after the other, each of them stands at its
/// own place.
pub proof fn lemma_occurs_at_split(s: Seq<u8>, pos: int, first: Seq<u8>, second: Seq<u8>)
    requires
        occurs_at(s, pos, first + second),
    ensures
        occurs_at(s, pos, first),
        occurs_at(s, pos + first.len(), second),
{
    let whole = first + second;
    assert(s.subrange(pos, pos + first.len()) == first) by {
        assert forall|k: int| 0 <= k < first.len() implies s[pos + k] == first[k] by {
            lemma_occurs_at_index(s, pos, whole, k);
        }
    }
    assert(s.subrange(pos + first.len(), pos + first.len() + second.len()) == second) by {
        assert forall|k: int| 0 <= k < second.len() implies s[pos + first.len() + k]
            == second[k] by {
            lemma_occurs_at_index(s, pos, whole, first.len() + k);
        }
    }
}

/// The text of a number of 64 bits is read as that number, and holds no `e`.
pub proof fn lemma_signed_text(i: int)
    requires
        i64::MIN <= i <= i64::MAX,
    ensures
        integer_text(signed_text(i)) == Ok::<int, Failure>(i),
        forall|k: int| 0 <= k < signed_text(i).len() ==> signed_text(i)[k] != 0x65,
{
    let text = signed_text(i);
    if i < 0 {
        let digits = decimal_text((-i) as nat);
        lemma_decimal_text((-i) as nat);
        assert(text.subrange(1, text.len() as int) == digits);
        assert(text[0] == 0x2d);
        assert(text[1] == digits[0]);
        assert(signed_decimal(text) == Some(i));
        assert forall|k: int| 0 <= k < text.len() implies text[k] != 0x65 by {
            if k > 0 {
                assert(text[k] == digits[k - 1]);
                assert(is_digit(digits[k - 1]));
            }
        }
    } else {
        lemma_decimal_text(i as nat);
        assert(is_digit(text[0]));
        assert(signed_decimal(text) == Some(i));
        assert forall|k: int| 0 <= k < text.len() implies text[k] != 0x65 by {
            assert(is_digit(text[k]));
        }
    }
}

/// Where the encoding of a byte string stands, the grammar reads that byte
/// string and ends right after it.
pub proof fn lemma_byte_string_at_encoding(s: Seq<u8>, pos: int, bytes: Seq<u8>)
    requires
        occurs_at(s, pos, byte_string_encoding(bytes)),
    ensures
        is_digit(s[pos]),
        byte_string_at(s, pos) == Ok::<(Value, int), Failure>(
            (Value::ByteString(bytes), pos + byte_string_encoding(bytes).len()),
        ),
{
    let text = decimal_text(bytes.len());
    let piece = byte_string_encoding(bytes);
    let colon = pos + text.len();
    lemma_decimal_text(bytes.len());
    assert(piece == text + (seq![0x3au8] + bytes));
    lemma_occurs_at_split(s, pos, text, seq![0x3au8] + bytes);
    lemma_occurs_at_split(s, colon, seq![0x3au8], bytes);
    assert forall|j: int| pos <= j < colon implies s[j] != 0x3a by {
        lemma_occurs_at_index(s, pos, text, j - pos);
        assert(is_digit(text[j - pos]));
    }
    lemma_occurs_at_index(s, colon, seq![0x3au8], 0);
    lemma_occurs_at_index(s, pos, text, 0);
    assert(is_digit(text[0]));
    lemma_find_byte_first(s, pos, 0x3a, colon);
}

/// Where the encoding of a number of 64 bits stands, the grammar reads that
/// number and ends right after it.
pub proof fn lemma_integer_at_encoding(s: Seq<u8>, pos: int, i: int)
    requires
        i64::MIN <= i <= i64::MAX,
        occurs_at(s, pos, seq![0x69u8] + signed_text(i) + seq![0x65u8]),
    ensures
        s[pos] == 0x69,
        integer_at(s, pos) == Ok::<(Value, int), Failure>(
            (Value::Integer(i), pos + signed_text(i).len() + 2),
        ),
{
    let text = signed_text(i);
    let end = pos + 1 + text.len();
    lemma_signed_text(i);
    assert(seq![0x69u8] + text + seq![0x65u8] == seq![0x69u8] + (text + seq![0x65u8]));
    lemma_occurs_at_split(s, pos, seq![0x69u8], text + seq![0x65u8]);
    lemma_occurs_at_split(s, pos + 1, text, seq![0x65u8]);
    lemma_occurs_at_index(s, pos, seq![0x69u8], 0);
    lemma_occurs_at_index(s, end, seq![0x65u8], 0);
    assert forall|j: int| pos + 1 <= j < end implies s[j] != 0x65 by {
        lemma_occurs_at_index(s, pos + 1, text, j - pos - 1);
    }
    lemma_find_byte_first(s, pos + 1, 0x65, end);
}

/// Where the encoding of a well-formed value stands, the grammar reads
/// that value and ends right after it.
pub proof fn lemma_value_at_encoding(s: Seq<u8>, pos: int, depth: nat, v: Value)
    requires
        well_formed(v, depth),
        occurs_at(s, pos, encoding(v)),
    ensures
        value_at(s, pos, depth) == Ok::<(Value, int), Failure>((v, pos + encoding(v).len())),
        pos < s.len(),
        s[pos] != 0x65,
    decreases v,
{
    match v {
        Value::ByteString(bytes) => {
            lemma_byte_string_at_encoding(s, pos, bytes);
        },
        Value::Integer(i) => {
            lemma_integer_at_encoding(s, pos, i);
        },
        Value::List(items) => {
            let inner = items_encoding(items);
            assert(encoding(v) == seq![0x6cu8] + (inner + seq![0x65u8]));
            lemma_occurs_at_split(s, pos, seq![0x6cu8], inner + seq![0x65u8]);
            lemma_occurs_at_index(s, pos, seq![0x6cu8], 0);
            lemma_items_from_encoding(s, pos + 1, depth + 1, Seq::empty(), items);
            assert(Seq::<Value>::empty() + items == items);
        },
        Value::Dictionary(entries) => {
            let inner = entries_encoding(entries);
            assert(encoding(v) == seq![0x64u8] + (inner + seq![0x65u8]));
            lemma_occurs_at_split(s, pos, seq![0x64u8], inner + seq![0x65u8]);
            lemma_occurs_at_index(s, pos, seq![0x64u8], 0);
            assert(Seq::<(Seq<u8>, Value)>::empty() + entries == entries);
            lemma_entries_from_encoding(s, pos + 1, depth + 1, Seq::empty(), entries);
        },
    }
}

/// Where the encodings of well-formed items stand, followed by an `e`, the
/// grammar appends those items to the ones it has, and ends after the `e`.
pub proof fn lemma_items_from_encoding(
    s: Seq<u8>,
    pos: int,
    depth: nat,
    acc: Seq<Value>,
    items: Seq<Value>,
)
    requires
        forall|k: int| 0 <= k < items.len() ==> well_formed(#[trigger] items[k], depth),
        occurs_at(s, pos, items_encoding(items) + seq![0x65u8]),
    ensures
        items_from(s, pos, depth, acc) == Ok::<(Seq<Value>, int), Failure>(
            (acc + items, pos + items_encoding(items).len() + 1),
        ),
    decreases items,
{
    if items.len() == 0 {
        lemma_occurs_at_index(s, pos, items_encoding(items) + seq![0x65u8], 0);
        assert(acc + items == acc);
    } else {
        let first = items[0];
        let rest = items.drop_first();
        let tail = items_encoding(rest) + seq![0x65u8];
        assert(items_encoding(items) + seq![0x65u8] == encoding(first) + tail);
        lemma_occurs_at_split(s, pos, encoding(first), tail);
        lemma_value_at_encoding(s, pos, depth, first);
        let next = pos + encoding(first).len();
        assert forall|k: int| 0 <= k < rest.len() implies well_formed(
            #[trigger] rest[k],
            depth,
        ) by {
            assert(rest[k] == items[k + 1]);
        }
        lemma_items_from_encoding(s, next, depth, acc.push(first), rest);
        assert(acc.push(first) + rest == acc + items);
    }
}

/// Where the encodings of entries with well-formed values stand, followed
/// by an `e`, and no key comes twice, the grammar appends those entries to
/// the ones it has, and ends after the `e`.
pub proof fn lemma_entries_from_encoding(
    s: Seq<u8>,
    pos: int,
    depth: nat,
    acc: Entries,
    entries: Entries,
)
    requires
        distinct_keys(acc + entries),
        forall|k: int| 0 <= k < entries.len() ==> well_formed((#[trigger] entries[k]).1, depth),
        occurs_at(s, pos, entries_encoding(entries) + seq![0x65u8]),
    ensures
        entries_from(s, pos, depth, acc) == Ok::<(Entries, int), Failure>(
            (acc + entries, pos + entries_encoding(entries).len() + 1),
        ),
    decreases entries,
{
    if entries.len() == 0 {
        lemma_occurs_at_index(s, pos, entries_encoding(entries) + seq![0x65u8], 0);
        assert(acc + entries == acc);
    } else {
        let key = entries[0].0;
        let value = entries[0].1;
        let rest = entries.drop_first();
        let tail = entries_encoding(rest) + seq![0x65u8];
        let after_key = pos + byte_string_encoding(key).len();
        assert(entries_encoding(entries) + seq![0x65u8] == byte_string_encoding(key) + (
        encoding(value) + tail));
        lemma_occurs_at_split(s, pos, byte_string_encoding(key), encoding(value) + tail);
        lemma_occurs_at_split(s, after_key, encoding(value), tail);
        lemma_byte_string_at_encoding(s, pos, key);
        lemma_decimal_text(key.len());
        assert(value_at(s, pos, depth) == byte_string_at(s, pos));
        lemma_value_at_encoding(s, after_key, depth, value);
        lemma_value_at_advances(s, after_key, depth);
        let next = after_key + encoding(value).len();
        let whole = acc + entries;
        assert(!has_key(acc, key)) by {
            assert forall|j: int| 0 <= j < acc.len() implies (#[trigger] acc[j]).0 != key by {
                assert(whole[j] == acc[j]);
                assert(whole[acc.len() as int] == entries[0]);
            }
        }
        assert(upsert(acc, key, value) == acc.push((key, value)));
        assert(acc.push((key, value)) + rest == whole);
        assert forall|k: int| 0 <= k < rest.len() implies well_formed(
            (#[trigger] rest[k]).1,
            depth,
        ) by {
            assert(rest[k] == entries[k + 1]);
        }
        lemma_entries_from_encoding(s, next, depth, acc.push((key, value)), rest);
    }
}

/// Decoding the encoding of a well-formed value gives the value back, and
/// ends at the end of the encoding.
pub proof fn lemma_decode_encoding(v: Value)
    requires
        well_formed(v, 0),
    ensures
        decoded(encoding(v)) == Ok::<(Value, int), Failure>((v, encoding(v).len() as int)),
{
    let s = encoding(v);
    assert(s.subrange(0, s.len() as int) == s);
    lemma_value_at_encoding(s, 0, 0, v);
}

/// Decoding `<n>:<bytes>`, where `n` is the number of the bytes written in
/// decimal, gives the byte string `bytes`, and ends after as many bytes as
/// `n` has digits, one more for the `:`, and the `n` bytes themselves.
pub proof fn lemma_decode_byte_string(bytes: Seq<u8>)
    ensures
        decoded(decimal_text(bytes.len()) + seq![0x3au8] + bytes) == Ok::<(Value, int), Failure>(
            (Value::ByteString(bytes), (bytes.len() + decimal_text(bytes.len()).len() + 1) as int),
        ),
{
    lemma_decode_encoding(Value::ByteString(bytes));
}

/// Decoding `i<text>e`, where the text writes a number of 64 bits in
/// decimal, gives that number.
pub proof fn lemma_decode_integer(i: int)
    requires
        i64::MIN <= i <= i64::MAX,
    ensures
        decoded(seq![0x69u8] + signed_text(i) + seq![0x65u8]) == Ok::<(Value, int), Failure>(
            (Value::Integer(i), (signed_text(i).len() + 2) as int),
        ),
{
    lemma_decode_encoding(Value::Integer(i));
}

} // verus!
