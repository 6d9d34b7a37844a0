//! Inputs that the grammar refuses: an input that is cut short, and a
//! dictionary with a key that is no byte string.

use crate::error::{ErrorKind, Failure};
use crate::grammar::{
    decoded, entries_from, find_byte, is_digit, items_from, lemma_entries_from_advances,
    lemma_find_byte, lemma_find_byte_first, lemma_items_from_advances, lemma_value_at_advances,
    upsert, value_at, Entries, MAX_DEPTH,
};
use crate::locality::{lemma_value_at_local, same_prefix};
use crate::value::Value;
use vstd::prelude::*;

verus! {

/// Whether `outcome` is a refusal that is reported as a parse error.
pub open spec fn is_parse_refusal<T>(outcome: Result<(T, int), Failure>) -> bool {
    outcome matches Err(reason) && reason.kind() == ErrorKind::Parse
}

/// An input that is cut inside a value, after the value's first byte, is
/// refused with a parse error.
pub proof fn lemma_value_at_truncated(s: Seq<u8>, pos: int, depth: nat, k: int)
    requires
        value_at(s, pos, depth) matches Ok((_, end)) && pos < k < end,
    ensures
        is_parse_refusal(value_at(s.subrange(0, k), pos, depth)),
    decreases s.len() - pos, 1int,
{
    lemma_value_at_advances(s, pos, depth);
    let t = s.subrange(0, k);
    let end = value_at(s, pos, depth)->Ok_0.1;
    assert(t[pos] == s[pos]);
    if is_digit(s[pos]) {
        lemma_find_byte(s, pos, 0x3a);
        let colon = find_byte(s, pos, 0x3a)->Some_0;
        if k <= colon {
            lemma_find_byte(t, pos, 0x3a);
            if let Some(i) = find_byte(t, pos, 0x3a) {
                assert(t[i] == s[i]);
            }
        } else {
            assert(t[colon] == s[colon]);
            assert forall|j: int| pos <= j < colon implies t[j] != 0x3a by {
                assert(t[j] == s[j]);
            }
            lemma_find_byte_first(t, pos, 0x3a, colon);
            assert(t.subrange(pos, colon) == s.subrange(pos, colon));
        }
    } else if s[pos] == 0x69 {
        lemma_find_byte(s, pos + 1, 0x65);
        lemma_find_byte(t, pos + 1, 0x65);
        if let Some(i) = find_byte(t, pos + 1, 0x65) {
            assert(t[i] == s[i]);
        }
    } else if s[pos] == 0x6c {
        lemma_items_from_truncated(s, pos + 1, depth + 1, Seq::empty(), k);
    } else if s[pos] == 0x64 {
        lemma_entries_from_truncated(s, pos + 1, depth + 1, Seq::empty(), k);
    }
}

/// An input that is cut before the end of a list is refused with a parse
/// error.
pub proof fn lemma_items_from_truncated(
    s: Seq<u8>,
    pos: int,
    depth: nat,
    acc: Seq<Value>,
    k: int,
)
    requires
        items_from(s, pos, depth, acc) matches Ok((_, end)) && 0 <= k < end,
    ensures
        is_parse_refusal(items_from(s.subrange(0, k), pos, depth, acc)),
    decreases s.len() - pos, 2int,
{
    lemma_items_from_advances(s, pos, depth, acc);
    let t = s.subrange(0, k);
    if pos < k {
        assert(t[pos] == s[pos]);
        let (item, next) = value_at(s, pos, depth)->Ok_0;
        lemma_items_from_advances(s, next, depth, acc.push(item));
        if k < next {
            lemma_value_at_truncated(s, pos, depth, k);
        } else {
            assert(same_prefix(s, t, next));
            lemma_value_at_local(s, t, pos, depth);
            lemma_items_from_truncated(s, next, depth, acc.push(item), k);
        }
    }
}

/// An input that is cut before the end of a dictionary is refused with a
/// parse error.
pub proof fn lemma_entries_from_truncated(s: Seq<u8>, pos: int, depth: nat, acc: Entries, k: int)
    requires
        entries_from(s, pos, depth, acc) matches Ok((_, end)) && 0 <= k < end,
    ensures
        is_parse_refusal(entries_from(s.subrange(0, k), pos, depth, acc)),
    decreases s.len() - pos, 2int,
{
    lemma_entries_from_advances(s, pos, depth, acc);
    let t = s.subrange(0, k);
    if pos < k {
        assert(t[pos] == s[pos]);
        let (key_value, after_key) = value_at(s, pos, depth)->Ok_0;
        let key = key_value->ByteString_0;
        let (value, next) = value_at(s, after_key, depth)->Ok_0;
        lemma_entries_from_advances(s, next, depth, upsert(acc, key, value));
        if k < after_key {
            lemma_value_at_truncated(s, pos, depth, k);
        } else {
            assert(same_prefix(s, t, after_key));
            lemma_value_at_local(s, t, pos, depth);
            if k == after_key {
            } else if k < next {
                lemma_value_at_truncated(s, after_key, depth, k);
            } else {
                assert(same_prefix(s, t, next));
                lemma_value_at_local(s, t, after_key, depth);
                lemma_entries_from_truncated(s, next, depth, upsert(acc, key, value), k);
            }
        }
    }
}

/// An input that starts with a value, cut anywhere inside that value but
/// not before its first byte, is refused with a parse error.
pub proof fn lemma_truncated_input_is_refused(s: Seq<u8>, k: int)
    requires
        decoded(s) matches Ok((_, end)) && 0 < k < end,
    ensures
        is_parse_refusal(decoded(s.subrange(0, k))),
{
    lemma_value_at_truncated(s, 0, 0, k);
}

/// The empty input is unhandled, which is no parse error.
pub proof fn lemma_empty_input_is_unhandled()
    ensures
        decoded(Seq::empty()) == Err::<(Value, int), Failure>(Failure::Unhandled),
        Failure::Unhandled.kind() == ErrorKind::Other,
{
}

/// Whether the grammar, reading the entries of a dictionary from `first`
/// on, comes to look for a key at `pos`.
pub open spec fn key_place(s: Seq<u8>, first: int, depth: nat, pos: int) -> bool
    decreases s.len() - first,
{
    pos == first || (0 <= first < s.len() && s[first] != 0x65 && match value_at(
        s,
        first,
        depth,
    ) {
        Ok((Value::ByteString(_), after_key)) => first < after_key < s.len() && match value_at(
            s,
            after_key,
            depth,
        ) {
            Ok((_, next)) => after_key < next <= s.len() && key_place(s, next, depth, pos),
            Err(_) => false,
        },
        _ => false,
    })
}

/// Entries with a production at a key's place that is read and is no byte
/// string are refused, because a key must be a byte string.
pub proof fn lemma_entries_from_key_not_string(
    s: Seq<u8>,
    first: int,
    depth: nat,
    acc: Entries,
    pos: int,
)
    requires
        key_place(s, first, depth, pos),
        0 <= pos < s.len(),
        s[pos] != 0x65,
        value_at(s, pos, depth) matches Ok((key, _)) && !(key is ByteString),
    ensures
        entries_from(s, first, depth, acc) == Err::<(Entries, int), Failure>(
            Failure::KeyNotString,
        ),
    decreases s.len() - first,
{
    if pos != first {
        let (key_value, after_key) = value_at(s, first, depth)->Ok_0;
        let key = key_value->ByteString_0;
        let (value, next) = value_at(s, after_key, depth)->Ok_0;
        lemma_entries_from_key_not_string(s, next, depth, upsert(acc, key, value), pos);
    }
}

/// A dictionary with a production at a key's place that is read and is no
/// byte string is refused with a parse error.
pub proof fn lemma_dictionary_key_not_string(s: Seq<u8>, start: int, depth: nat, pos: int)
    requires
        0 <= start < s.len(),
        s[start] == 0x64,
        depth < MAX_DEPTH,
        key_place(s, start + 1, depth + 1, pos),
        0 <= pos < s.len(),
        s[pos] != 0x65,
        value_at(s, pos, depth + 1) matches Ok((key, _)) && !(key is ByteString),
    ensures
        value_at(s, start, depth) == Err::<(Value, int), Failure>(Failure::KeyNotString),
        is_parse_refusal(value_at(s, start, depth)),
{
    lemma_entries_from_key_not_string(s, start + 1, depth + 1, Seq::empty(), pos);
}

} // verus!
