//! What holds of every value that the grammar reads.

use crate::encoding::well_formed;
use crate::grammar::{
    distinct_keys, entries_from, has_key, is_digit, items_from, upsert, value_at, Entries,
    MAX_DEPTH,
};
use crate::value::Value;
use vstd::prelude::*;

verus! {

/// Giving a key a value keeps the keys distinct, leaves every other entry
/// as it was, and makes no entry but the one of that key.
pub proof fn lemma_upsert(entries: Entries, key: Seq<u8>, value: Value)
    requires
        distinct_keys(entries),
    ensures
        distinct_keys(upsert(entries, key, value)),
        forall|k: int|
            0 <= k < upsert(entries, key, value).len() ==> (#[trigger] upsert(
                entries,
                key,
                value,
            )[k]) == (key, value) || (k < entries.len() && upsert(entries, key, value)[k]
                == entries[k]),
{
    let after = upsert(entries, key, value);
    if has_key(entries, key) {
        let i = choose|i: int| 0 <= i < entries.len() && (#[trigger] entries[i]).0 == key;
        assert forall|a: int, b: int| 0 <= a < b < after.len() implies (#[trigger] after[a]).0 != (
        #[trigger] after[b]).0 by {
            assert(entries[a].0 != entries[b].0);
        }
    } else {
        assert forall|a: int, b: int| 0 <= a < b < after.len() implies (#[trigger] after[a]).0 != (
        #[trigger] after[b]).0 by {
            if b < entries.len() {
                assert(entries[a].0 != entries[b].0);
            } else {
                assert(entries[a].0 != key);
            }
        }
    }
}

/// Every value that the grammar reads is well-formed: its integers fit in
/// 64 bits, its dictionaries hold no key twice, and its lists and
/// dictionaries are nested within `MAX_DEPTH`.
pub proof fn lemma_value_at_well_formed(s: Seq<u8>, pos: int, depth: nat)
    ensures
        value_at(s, pos, depth) matches Ok((v, _)) ==> well_formed(v, depth),
    decreases s.len() - pos, 1int,
{
    if 0 <= pos < s.len() && !is_digit(s[pos]) && depth < MAX_DEPTH {
        if s[pos] == 0x6c {
            lemma_items_from_well_formed(s, pos + 1, depth + 1, Seq::empty());
        } else if s[pos] == 0x64 {
            lemma_entries_from_well_formed(s, pos + 1, depth + 1, Seq::empty());
        }
    }
}

/// The items that the grammar reads are well-formed, where those it had
/// before are.
pub proof fn lemma_items_from_well_formed(s: Seq<u8>, pos: int, depth: nat, acc: Seq<Value>)
    requires
        forall|k: int| 0 <= k < acc.len() ==> well_formed(#[trigger] acc[k], depth),
    ensures
        items_from(s, pos, depth, acc) matches Ok((items, _)) ==> forall|k: int|
            0 <= k < items.len() ==> well_formed(#[trigger] items[k], depth),
    decreases s.len() - pos, 2int,
{
    if 0 <= pos < s.len() && s[pos] != 0x65 {
        lemma_value_at_well_formed(s, pos, depth);
        if let Ok((item, next)) = value_at(s, pos, depth) {
            if pos < next <= s.len() {
                lemma_items_from_well_formed(s, next, depth, acc.push(item));
            }
        }
    }
}

/// The entries that the grammar reads have distinct keys and well-formed
/// values, where those it had before have.
pub proof fn lemma_entries_from_well_formed(s: Seq<u8>, pos: int, depth: nat, acc: Entries)
    requires
        distinct_keys(acc),
        forall|k: int| 0 <= k < acc.len() ==> well_formed((#[trigger] acc[k]).1, depth),
    ensures
        entries_from(s, pos, depth, acc) matches Ok((entries, _)) ==> distinct_keys(entries)
            && forall|k: int|
            0 <= k < entries.len() ==> well_formed((#[trigger] entries[k]).1, depth),
    decreases s.len() - pos, 2int,
{
    if 0 <= pos < s.len() && s[pos] != 0x65 {
        if let Ok((Value::ByteString(key), after_key)) = value_at(s, pos, depth) {
            if pos < after_key < s.len() {
                lemma_value_at_well_formed(s, after_key, depth);
                if let Ok((value, next)) = value_at(s, after_key, depth) {
                    if after_key < next <= s.len() {
                        lemma_upsert(acc, key, value);
                        lemma_entries_from_well_formed(s, next, depth, upsert(acc, key, value));
                    }
                }
            }
        }
    }
}

} // verus!
