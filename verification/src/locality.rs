//! The grammar never looks past the end of what it reads: a production
//! that is read from one input is read alike from every input that holds
//! the same bytes up to the production's end.

use crate::grammar::{
    entries_from, find_byte, is_digit, items_from, lemma_entries_from_advances, lemma_find_byte,
    lemma_find_byte_first, lemma_items_from_advances, lemma_value_at_advances, upsert, value_at,
    Entries,
};
use crate::value::Value;
use vstd::prelude::*;

verus! {

/// Whether `s` and `t` both hold at least `end` bytes, and the same ones up
/// to there.
pub open spec fn same_prefix(s: Seq<u8>, t: Seq<u8>, end: int) -> bool {
    end <= s.len() && end <= t.len() && forall|j: int| 0 <= j < end ==> s[j] == t[j]
}

/// A byte that is found in `s` before `end` is found at the same place in
/// every input with the same bytes up to `end`.
pub proof fn lemma_find_byte_local(s: Seq<u8>, t: Seq<u8>, from: int, b: u8, end: int)
    requires
        0 <= from,
        find_byte(s, from, b) matches Some(i) && i < end,
        same_prefix(s, t, end),
    ensures
        find_byte(t, from, b) == find_byte(s, from, b),
{
    lemma_find_byte(s, from, b);
    let i = find_byte(s, from, b)->Some_0;
    lemma_find_byte_first(t, from, b, i);
}

/// A value that is read from `s` is read alike from every input with the
/// same bytes up to the value's end.
pub proof fn lemma_value_at_local(s: Seq<u8>, t: Seq<u8>, pos: int, depth: nat)
    requires
        value_at(s, pos, depth) matches Ok((_, end)) && same_prefix(s, t, end),
    ensures
        value_at(t, pos, depth) == value_at(s, pos, depth),
    decreases s.len() - pos, 1int,
{
    lemma_value_at_advances(s, pos, depth);
    let end = value_at(s, pos, depth)->Ok_0.1;
    if is_digit(s[pos]) {
        lemma_find_byte(s, pos, 0x3a);
        let colon = find_byte(s, pos, 0x3a)->Some_0;
        lemma_find_byte_local(s, t, pos, 0x3a, end);
        assert(t.subrange(pos, colon) == s.subrange(pos, colon));
        assert(t.subrange(colon + 1, end) == s.subrange(colon + 1, end));
    } else if s[pos] == 0x69 {
        lemma_find_byte(s, pos + 1, 0x65);
        let close = find_byte(s, pos + 1, 0x65)->Some_0;
        lemma_find_byte_local(s, t, pos + 1, 0x65, end);
        assert(t.subrange(pos + 1, close) == s.subrange(pos + 1, close));
    } else if s[pos] == 0x6c {
        lemma_items_from_local(s, t, pos + 1, depth + 1, Seq::empty());
    } else if s[pos] == 0x64 {
        lemma_entries_from_local(s, t, pos + 1, depth + 1, Seq::empty());
    }
}

/// The items that are read from `s` are read alike from every input with
/// the same bytes up to the list's end.
pub proof fn lemma_items_from_local(s: Seq<u8>, t: Seq<u8>, pos: int, depth: nat, acc: Seq<Value>)
    requires
        items_from(s, pos, depth, acc) matches Ok((_, end)) && same_prefix(s, t, end),
    ensures
        items_from(t, pos, depth, acc) == items_from(s, pos, depth, acc),
    decreases s.len() - pos, 2int,
{
    lemma_items_from_advances(s, pos, depth, acc);
    if s[pos] != 0x65 {
        let (item, next) = value_at(s, pos, depth)->Ok_0;
        lemma_items_from_advances(s, next, depth, acc.push(item));
        lemma_value_at_local(s, t, pos, depth);
        lemma_items_from_local(s, t, next, depth, acc.push(item));
    }
}

/// The entries that are read from `s` are read alike from every input with
/// the same bytes up to the dictionary's end.
pub proof fn lemma_entries_from_local(s: Seq<u8>, t: Seq<u8>, pos: int, depth: nat, acc: Entries)
    requires
        entries_from(s, pos, depth, acc) matches Ok((_, end)) && same_prefix(s, t, end),
    ensures
        entries_from(t, pos, depth, acc) == entries_from(s, pos, depth, acc),
    decreases s.len() - pos, 2int,
{
    lemma_entries_from_advances(s, pos, depth, acc);
    if s[pos] != 0x65 {
        let (key_value, after_key) = value_at(s, pos, depth)->Ok_0;
        let key = key_value->ByteString_0;
        let (value, next) = value_at(s, after_key, depth)->Ok_0;
        lemma_entries_from_advances(s, next, depth, upsert(acc, key, value));
        lemma_value_at_local(s, t, pos, depth);
        lemma_value_at_local(s, t, after_key, depth);
        lemma_entries_from_local(s, t, next, depth, upsert(acc, key, value));
    }
}

} // verus!
