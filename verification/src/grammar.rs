//! The bencode grammar, as functions from a byte sequence and a position to
//! the value that starts there.
//!
//! Every function reads the input from left to right and never looks back:
//! a production that succeeds says which value it holds and where the next
//! production starts.

use crate::error::Failure;
use crate::value::Value;
use vstd::prelude::*;

verus! {

/// How many lists and dictionaries may be open around a value.
pub const MAX_DEPTH: usize = 128;

/// Entries of a dictionary, in order.
pub type Entries = Seq<(Seq<u8>, Value)>;

/// The outcome of reading one production: what it holds and the position
/// right after it, or the reason for which it is refused.
pub type Outcome<T> = Result<(T, int), Failure>;

/// Whether `b` is one of the ASCII digits `0` to `9`.
pub open spec fn is_digit(b: u8) -> bool {
    0x30 <= b <= 0x39
}

/// Whether `text` holds ASCII digits only.
pub open spec fn all_digits(text: Seq<u8>) -> bool {
    forall|i: int| 0 <= i < text.len() ==> is_digit(#[trigger] text[i])
}

/// The number that the ASCII digit `b` stands for.
pub open spec fn digit_value(b: u8) -> nat {
    (b - 0x30) as nat
}

/// The number that a run of ASCII digits writes in base ten; the empty run
/// writes zero.
pub open spec fn decimal_value(digits: Seq<u8>) -> nat
    decreases digits.len(),
{
    if digits.len() == 0 {
        0
    } else {
        decimal_value(digits.drop_last()) * 10 + digit_value(digits.last())
    }
}

/// A run of digits writes at least as much as any of its prefixes.
pub proof fn lemma_decimal_value_prefix(digits: Seq<u8>, k: int)
    requires
        0 <= k <= digits.len(),
    ensures
        decimal_value(digits.subrange(0, k)) <= decimal_value(digits),
    decreases digits.len(),
{
    if k == digits.len() {
        assert(digits.subrange(0, k) == digits);
    } else {
        let shorter = digits.drop_last();
        assert(shorter.subrange(0, k) == digits.subrange(0, k));
        lemma_decimal_value_prefix(shorter, k);
    }
}

/// The number that `text` writes as a signed decimal: an optional `+` or `-`
/// followed by at least one digit.
pub open spec fn signed_decimal(text: Seq<u8>) -> Option<int> {
    if text.len() > 0 && (text[0] == 0x2d || text[0] == 0x2b) {
        let digits = text.subrange(1, text.len() as int);
        if digits.len() > 0 && all_digits(digits) {
            if text[0] == 0x2d {
                Some(-(decimal_value(digits) as int))
            } else {
                Some(decimal_value(digits) as int)
            }
        } else {
            None
        }
    } else if text.len() > 0 && all_digits(text) {
        Some(decimal_value(text) as int)
    } else {
        None
    }
}

/// The first position at or after `from` at which `s` holds `b`.
pub open spec fn find_byte(s: Seq<u8>, from: int, b: u8) -> Option<int>
    decreases s.len() - from,
{
    if from < 0 || from >= s.len() {
        None
    } else if s[from] == b {
        Some(from)
    } else {
        find_byte(s, from + 1, b)
    }
}

/// The byte string `<length>:<bytes>` that starts at `pos`.
///
/// The length runs up to the first `:` and is written in digits; exactly
/// that many bytes after the `:` are the string, whatever they hold.
pub open spec fn byte_string_at(s: Seq<u8>, pos: int) -> Outcome<Value> {
    match find_byte(s, pos, 0x3a) {
        None => Err(Failure::MissingColon),
        Some(colon) => {
            let digits = s.subrange(pos, colon);
            let start = colon + 1;
            if !all_digits(digits) {
                Err(Failure::InvalidLength)
            } else if start + decimal_value(digits) > s.len() {
                Err(Failure::TruncatedString)
            } else {
                let end = start + decimal_value(digits);
                Ok((Value::ByteString(s.subrange(start, end)), end))
            }
        },
    }
}

/// The number written by the text between the `i` and the `e` of an integer.
///
/// The text is a signed decimal that fits in 64 bits. Three forms are refused
/// before it is read as a number: the empty text, `-0`, and a text of more
/// than one character that starts with `0`.
pub open spec fn integer_text(text: Seq<u8>) -> Result<int, Failure> {
    if text.len() == 0 {
        Err(Failure::EmptyInteger)
    } else if text.len() == 2 && text[0] == 0x2d && text[1] == 0x30 {
        Err(Failure::NegativeZero)
    } else if text.len() > 1 && text[0] == 0x30 {
        Err(Failure::LeadingZero)
    } else {
        match signed_decimal(text) {
            Some(n) => if i64::MIN <= n <= i64::MAX {
                Ok(n)
            } else {
                Err(Failure::InvalidInteger)
            },
            None => Err(Failure::InvalidInteger),
        }
    }
}

/// The integer `i<text>e` that starts at `pos`, where `s[pos]` is the `i`.
pub open spec fn integer_at(s: Seq<u8>, pos: int) -> Outcome<Value> {
    match find_byte(s, pos + 1, 0x65) {
        None => Err(Failure::MissingEnd),
        Some(end) => match integer_text(s.subrange(pos + 1, end)) {
            Ok(n) => Ok((Value::Integer(n), end + 1)),
            Err(reason) => Err(reason),
        },
    }
}

/// Whether one of `entries` has the key `key`.
pub open spec fn has_key(entries: Entries, key: Seq<u8>) -> bool {
    exists|i: int| 0 <= i < entries.len() && (#[trigger] entries[i]).0 == key
}

/// Whether no key occurs twice in `entries`.
pub open spec fn distinct_keys(entries: Entries) -> bool {
    forall|i: int, j: int|
        0 <= i < j < entries.len() ==> (#[trigger] entries[i]).0 != (#[trigger] entries[j]).0
}

/// `entries` after `key` is given `value`: a key already there keeps its
/// place and takes the new value, a new key goes to the end.
pub open spec fn upsert(entries: Entries, key: Seq<u8>, value: Value) -> Entries {
    if has_key(entries, key) {
        let i = choose|i: int| 0 <= i < entries.len() && (#[trigger] entries[i]).0 == key;
        entries.update(i, (key, value))
    } else {
        entries.push((key, value))
    }
}

/// The value that starts at `pos`, read with `depth` lists and dictionaries
/// open around it.
///
/// The byte at `pos` selects the production: a digit a byte string, `i` an
/// integer, `l` a list, `d` a dictionary. The end of the input and every
/// other byte are unhandled. A list or dictionary that would be opened with
/// `MAX_DEPTH` others open around it is too deep.
pub open spec fn value_at(s: Seq<u8>, pos: int, depth: nat) -> Outcome<Value>
    decreases s.len() - pos, 1int,
{
    if pos < 0 || pos >= s.len() {
        Err(Failure::Unhandled)
    } else if is_digit(s[pos]) {
        byte_string_at(s, pos)
    } else if s[pos] == 0x69 {
        integer_at(s, pos)
    } else if s[pos] == 0x6c {
        if depth >= MAX_DEPTH {
            Err(Failure::TooDeep)
        } else {
            list_at(s, pos, depth)
        }
    } else if s[pos] == 0x64 {
        if depth >= MAX_DEPTH {
            Err(Failure::TooDeep)
        } else {
            dictionary_at(s, pos, depth)
        }
    } else {
        Err(Failure::Unhandled)
    }
}

/// The list `l<items>e` that starts at `pos`, where `s[pos]` is the `l`,
/// with `depth` lists and dictionaries open around it.
pub open spec fn list_at(s: Seq<u8>, pos: int, depth: nat) -> Outcome<Value>
    decreases s.len() - pos, 0int,
{
    if pos < 0 || pos >= s.len() {
        Err(Failure::IncompleteList)
    } else {
        match items_from(s, pos + 1, depth + 1, Seq::empty()) {
            Ok((items, next)) => Ok((Value::List(items), next)),
            Err(reason) => Err(reason),
        }
    }
}

/// The dictionary `d<key><value>...e` that starts at `pos`, where `s[pos]`
/// is the `d`, with `depth` lists and dictionaries open around it.
pub open spec fn dictionary_at(s: Seq<u8>, pos: int, depth: nat) -> Outcome<Value>
    decreases s.len() - pos, 0int,
{
    if pos < 0 || pos >= s.len() {
        Err(Failure::IncompleteDict)
    } else {
        match entries_from(s, pos + 1, depth + 1, Seq::empty()) {
            Ok((entries, next)) => Ok((Value::Dictionary(entries), next)),
            Err(reason) => Err(reason),
        }
    }
}

/// The items of a list from `pos` up to its closing `e`, appended to the
/// items `acc` that were read before `pos`.
///
/// The test on `next` is there for the termination check alone:
/// `lemma_value_at_advances` shows that it never fails.
pub open spec fn items_from(s: Seq<u8>, pos: int, depth: nat, acc: Seq<Value>) -> Outcome<
    Seq<Value>,
>
    decreases s.len() - pos, 2int,
{
    if pos < 0 || pos >= s.len() {
        Err(Failure::IncompleteList)
    } else if s[pos] == 0x65 {
        Ok((acc, pos + 1))
    } else {
        match value_at(s, pos, depth) {
            Err(reason) => Err(reason),
            Ok((item, next)) => if pos < next <= s.len() {
                items_from(s, next, depth, acc.push(item))
            } else {
                Err(Failure::IncompleteList)
            },
        }
    }
}

/// The entries of a dictionary from `pos` up to its closing `e`, put into
/// the entries `acc` that were read before `pos`.
///
/// A key is whatever production stands at the key's place, and must turn
/// out to be a byte string; the production after it is its value. Where the
/// input ends after a key the dictionary is incomplete. A key that comes
/// again replaces the value it had.
///
/// The tests on `after_key` and `next` are there for the termination check
/// alone: `lemma_value_at_advances` shows that they never fail.
pub open spec fn entries_from(s: Seq<u8>, pos: int, depth: nat, acc: Entries) -> Outcome<Entries>
    decreases s.len() - pos, 2int,
{
    if pos < 0 || pos >= s.len() {
        Err(Failure::IncompleteDict)
    } else if s[pos] == 0x65 {
        Ok((acc, pos + 1))
    } else {
        match value_at(s, pos, depth) {
            Err(reason) => Err(reason),
            Ok((Value::ByteString(key), after_key)) => if after_key <= pos || after_key
                >= s.len() {
                Err(Failure::IncompleteDict)
            } else {
                match value_at(s, after_key, depth) {
                    Err(reason) => Err(reason),
                    Ok((value, next)) => if after_key < next <= s.len() {
                        entries_from(s, next, depth, upsert(acc, key, value))
                    } else {
                        Err(Failure::IncompleteDict)
                    },
                }
            },
            Ok(_) => Err(Failure::KeyNotString),
        }
    }
}

/// The value that a whole input starts with.
pub open spec fn decoded(s: Seq<u8>) -> Outcome<Value> {
    value_at(s, 0, 0)
}

/// What `find_byte` finds is the first `b` at or after `from`; where it
/// finds nothing there is none.
pub proof fn lemma_find_byte(s: Seq<u8>, from: int, b: u8)
    requires
        0 <= from,
    ensures
        match find_byte(s, from, b) {
            Some(i) => from <= i < s.len() && s[i] == b && forall|j: int|
                from <= j < i ==> s[j] != b,
            None => forall|j: int| from <= j < s.len() ==> s[j] != b,
        },
    decreases s.len() - from,
{
    if from < s.len() && s[from] != b {
        lemma_find_byte(s, from + 1, b);
    }
}

/// The first `b` at or after `from` is what `find_byte` finds.
pub proof fn lemma_find_byte_first(s: Seq<u8>, from: int, b: u8, i: int)
    requires
        0 <= from <= i < s.len(),
        s[i] == b,
        forall|j: int| from <= j < i ==> s[j] != b,
    ensures
        find_byte(s, from, b) == Some(i),
    decreases i - from,
{
    if from < i {
        lemma_find_byte_first(s, from + 1, b, i);
    }
}

/// A production that is read ends after the place where it starts, and
/// within the input.
pub proof fn lemma_value_at_advances(s: Seq<u8>, pos: int, depth: nat)
    ensures
        value_at(s, pos, depth) matches Ok((_, next)) ==> 0 <= pos < next <= s.len(),
    decreases s.len() - pos, 1int,
{
    if 0 <= pos < s.len() {
        if is_digit(s[pos]) {
            lemma_find_byte(s, pos, 0x3a);
        } else if s[pos] == 0x69 {
            lemma_find_byte(s, pos + 1, 0x65);
        } else if s[pos] == 0x6c {
            if depth < MAX_DEPTH {
                lemma_items_from_advances(s, pos + 1, depth + 1, Seq::empty());
            }
        } else if s[pos] == 0x64 {
            if depth < MAX_DEPTH {
                lemma_entries_from_advances(s, pos + 1, depth + 1, Seq::empty());
            }
        }
    }
}

/// The items of a list end after the place where they start, and within
/// the input.
pub proof fn lemma_items_from_advances(s: Seq<u8>, pos: int, depth: nat, acc: Seq<Value>)
    ensures
        items_from(s, pos, depth, acc) matches Ok((_, next)) ==> 0 <= pos < next <= s.len(),
    decreases s.len() - pos, 2int,
{
    if 0 <= pos < s.len() && s[pos] != 0x65 {
        if let Ok((item, next)) = value_at(s, pos, depth) {
            if pos < next <= s.len() {
                lemma_items_from_advances(s, next, depth, acc.push(item));
            }
        }
    }
}

/// The entries of a dictionary end after the place where they start, and
/// within the input.
pub proof fn lemma_entries_from_advances(s: Seq<u8>, pos: int, depth: nat, acc: Entries)
    ensures
        entries_from(s, pos, depth, acc) matches Ok((_, next)) ==> 0 <= pos < next <= s.len(),
    decreases s.len() - pos, 2int,
{
    if 0 <= pos < s.len() && s[pos] != 0x65 {
        if let Ok((Value::ByteString(key), after_key)) = value_at(s, pos, depth) {
            if pos < after_key < s.len() {
                if let Ok((value, next)) = value_at(s, after_key, depth) {
                    if after_key < next <= s.len() {
                        lemma_entries_from_advances(s, next, depth, upsert(acc, key, value));
                    }
                }
            }
        }
    }
}

} // verus!
