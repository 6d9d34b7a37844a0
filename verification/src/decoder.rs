//! The decoder: a cursor over an input buffer that reads one production at
//! a time.

use crate::encoding::well_formed;
use crate::error::{BencodeError, Failure};
use crate::grammar::{
    all_digits, byte_string_at, decimal_value, decoded, dictionary_at, distinct_keys, entries_from,
    find_byte, integer_at, integer_text, is_digit, items_from, lemma_decimal_value_prefix, list_at,
    upsert, value_at, Outcome, MAX_DEPTH,
};
use crate::invariants::lemma_value_at_well_formed;
use crate::value::{
    entries_model, lemma_dictionary_view, lemma_list_view, list_model, BencodeType, Value,
};
use vstd::prelude::*;
use vstd::slice::{slice_subrange, slice_to_vec};

verus! {

/// Whether the result `r` of an exec function, which left the cursor at
/// `end`, is what the grammar's `outcome` asks for: the value and the
/// position on success, the error that reports the reason on failure.
pub open spec fn reports(
    outcome: Outcome<Value>,
    r: Result<BencodeType, BencodeError>,
    end: int,
) -> bool {
    match outcome {
        Ok((value, next)) => r matches Ok(v) && v@ == value && end == next,
        Err(reason) => r matches Err(e) && reason.describes(e),
    }
}

/// Looks for the first `b` in `input` at or after `from`.
fn find_from(input: &[u8], from: usize, b: u8) -> (r: Option<usize>)
    requires
        from <= input@.len(),
    ensures
        match find_byte(input@, from as int, b) {
            Some(i) => r == Some(i as usize) && from <= i < input@.len(),
            None => r is None,
        },
{
    let mut i: usize = from;
    while i < input.len()
        invariant
            from <= i <= input@.len(),
            find_byte(input@, from as int, b) == find_byte(input@, i as int, b),
        decreases input@.len() - i,
    {
        if input[i] == b {
            return Some(i);
        }
        i += 1;
    }
    None
}

/// Reads the digits `input[from..to]` as a length of at most `limit`.
fn read_length(input: &[u8], from: usize, to: usize, limit: usize) -> (r: Result<usize, Failure>)
    requires
        from <= to <= input@.len(),
    ensures
        match r {
            Ok(n) => all_digits(input@.subrange(from as int, to as int)) && n == decimal_value(
                input@.subrange(from as int, to as int),
            ) && n <= limit,
            Err(reason) => if all_digits(input@.subrange(from as int, to as int)) {
                reason == Failure::TruncatedString && decimal_value(
                    input@.subrange(from as int, to as int),
                ) > limit
            } else {
                reason == Failure::InvalidLength
            },
        },
{
    let ghost digits = input@.subrange(from as int, to as int);
    let mut acc: usize = 0;
    let mut beyond: bool = false;
    let mut i: usize = from;
    while i < to
        invariant
            from <= i <= to <= input@.len(),
            digits == input@.subrange(from as int, to as int),
            all_digits(input@.subrange(from as int, i as int)),
            !beyond ==> acc == decimal_value(input@.subrange(from as int, i as int)) && acc
                <= limit,
            beyond ==> decimal_value(input@.subrange(from as int, i as int)) > limit,
        decreases to - i,
    {
        let b: u8 = input[i];
        if b < 0x30 || b > 0x39 {
            assert(!is_digit(digits[i - from]));
            return Err(Failure::InvalidLength);
        }
        let d: usize = (b - 0x30) as usize;
        proof {
            let before = input@.subrange(from as int, i as int);
            let after = input@.subrange(from as int, i + 1);
            assert(after.drop_last() == before);
            assert(after.last() == b);
            assert(decimal_value(after) == decimal_value(before) * 10 + d);
        }
        if !beyond {
            if acc > limit / 10 {
                beyond = true;
            } else if d > limit - acc * 10 {
                beyond = true;
            } else {
                acc = acc * 10 + d;
            }
        }
        i += 1;
    }
    assert(input@.subrange(from as int, i as int) == digits);
    if beyond {
        Err(Failure::TruncatedString)
    } else {
        Ok(acc)
    }
}

/// Reads the digits `input[from..to]` as a number of 64 bits, taken with a
/// minus sign where `negative` is set.
fn read_digits(input: &[u8], from: usize, to: usize, negative: bool) -> (r: Option<i64>)
    requires
        from <= to <= input@.len(),
    ensures
        ({
            let digits = input@.subrange(from as int, to as int);
            let n = if negative {
                -(decimal_value(digits) as int)
            } else {
                decimal_value(digits) as int
            };
            if all_digits(digits) && i64::MIN <= n <= i64::MAX {
                r == Some(n as i64)
            } else {
                r is None
            }
        }),
{
    let ghost digits = input@.subrange(from as int, to as int);
    let mut acc: i64 = 0;
    let mut i: usize = from;
    while i < to
        invariant
            from <= i <= to <= input@.len(),
            digits == input@.subrange(from as int, to as int),
            all_digits(input@.subrange(from as int, i as int)),
            negative ==> acc == -decimal_value(input@.subrange(from as int, i as int)),
            !negative ==> acc == decimal_value(input@.subrange(from as int, i as int)),
        decreases to - i,
    {
        let b: u8 = input[i];
        if b < 0x30 || b > 0x39 {
            assert(!is_digit(digits[i - from]));
            return None;
        }
        let d: i64 = (b - 0x30) as i64;
        proof {
            let before = input@.subrange(from as int, i as int);
            let after = input@.subrange(from as int, i + 1);
            assert(after.drop_last() == before);
            assert(after.last() == b);
            assert(decimal_value(after) == decimal_value(before) * 10 + d);
            assert(after == digits.subrange(0, i + 1 - from));
            lemma_decimal_value_prefix(digits, i + 1 - from);
        }
        let scaled: Option<i64> = acc.checked_mul(10);
        match scaled {
            None => {
                return None;
            },
            Some(m) => {
                let next: Option<i64> = if negative {
                    m.checked_sub(d)
                } else {
                    m.checked_add(d)
                };
                match next {
                    None => {
                        return None;
                    },
                    Some(v) => {
                        acc = v;
                    },
                }
            },
        }
        i += 1;
    }
    assert(input@.subrange(from as int, i as int) == digits);
    Some(acc)
}

/// Reads `input[from..to]` as the text of an integer.
fn read_integer(input: &[u8], from: usize, to: usize) -> (r: Result<i64, Failure>)
    requires
        from <= to <= input@.len(),
    ensures
        match integer_text(input@.subrange(from as int, to as int)) {
            Ok(n) => r == Ok::<i64, Failure>(n as i64) && i64::MIN <= n <= i64::MAX,
            Err(reason) => r == Err::<i64, Failure>(reason),
        },
{
    let ghost text = input@.subrange(from as int, to as int);
    if from == to {
        return Err(Failure::EmptyInteger);
    }
    let first: u8 = input[from];
    assert(text[0] == first);
    if to - from > 1 {
        assert(text[1] == input@[from + 1]);
        if first == 0x30 {
            return Err(Failure::LeadingZero);
        }
        if to - from == 2 && first == 0x2d && input[from + 1] == 0x30 {
            return Err(Failure::NegativeZero);
        }
    }
    let signed: bool = first == 0x2d || first == 0x2b;
    let start: usize = if signed {
        from + 1
    } else {
        from
    };
    proof {
        let digits = input@.subrange(start as int, to as int);
        assert(signed ==> digits == text.subrange(1, text.len() as int));
        assert(!signed ==> digits == text);
    }
    if start == to {
        return Err(Failure::InvalidInteger);
    }
    match read_digits(input, start, to, first == 0x2d) {
        Some(n) => Ok(n),
        None => Err(Failure::InvalidInteger),
    }
}

/// Whether `a` and `b` hold the same bytes.
fn same_bytes(a: &Vec<u8>, b: &Vec<u8>) -> (same: bool)
    ensures
        same == (a@ == b@),
{
    if a.len() != b.len() {
        return false;
    }
    let mut i: usize = 0;
    while i < a.len()
        invariant
            a@.len() == b@.len(),
            0 <= i <= a@.len(),
            a@.subrange(0, i as int) == b@.subrange(0, i as int),
        decreases a@.len() - i,
    {
        if a[i] != b[i] {
            return false;
        }
        assert(a@.subrange(0, i + 1) == a@.subrange(0, i as int).push(a@[i as int]));
        assert(b@.subrange(0, i + 1) == b@.subrange(0, i as int).push(b@[i as int]));
        i += 1;
    }
    assert(a@ == a@.subrange(0, i as int));
    assert(b@ == b@.subrange(0, i as int));
    true
}

/// Gives `key` the value `value` in `entries`: in place where the key is
/// there already, at the end where it is new.
fn put(entries: &mut Vec<(Vec<u8>, BencodeType)>, key: Vec<u8>, value: BencodeType)
    requires
        distinct_keys(entries_model(old(entries)@)),
    ensures
        entries_model(final(entries)@) == upsert(entries_model(old(entries)@), key@, value@),
        distinct_keys(entries_model(final(entries)@)),
{
    let ghost before = entries_model(entries@);
    let ghost k = key@;
    let ghost v = value@;
    let mut i: usize = 0;
    while i < entries.len()
        invariant
            0 <= i <= entries@.len(),
            before == entries_model(old(entries)@),
            entries_model(entries@) == before,
            distinct_keys(before),
            k == key@,
            v == value@,
            forall|j: int| 0 <= j < i ==> (#[trigger] before[j]).0 != k,
        decreases entries@.len() - i,
    {
        if same_bytes(&entries[i].0, &key) {
            proof {
                assert(before[i as int].0 == k);
                let j = choose|j: int| 0 <= j < before.len() && (#[trigger] before[j]).0 == k;
                assert(j == i) by {
                    if j < i {
                        assert(before[j].0 != before[i as int].0);
                    } else if i < j {
                        assert(before[i as int].0 != before[j].0);
                    }
                }
            }
            entries.set(i, (key, value));
            assert(entries_model(entries@) == before.update(i as int, (k, v)));
            return ;
        }
        i += 1;
    }
    entries.push((key, value));
    assert(entries_model(entries@) == before.push((k, v)));
}

/// A cursor over a bencoded input.
///
/// The cursor only moves forward, and never past the end of the input.
pub struct BencodeDecoder<'a> {
    encoded_value: &'a [u8],
    start_pos: usize,
}

impl<'a> BencodeDecoder<'a> {
    #[verifier::type_invariant]
    closed spec fn cursor_within_input(self) -> bool {
        self.start_pos <= self.encoded_value@.len()
    }

    /// The bytes this decoder reads.
    pub closed spec fn input(&self) -> Seq<u8> {
        self.encoded_value@
    }

    /// The position of the next byte to read.
    pub closed spec fn cursor(&self) -> int {
        self.start_pos as int
    }

    /// A decoder at the start of `encoded_value`.
    pub fn new(encoded_value: &'a [u8]) -> (decoder: BencodeDecoder<'a>)
        ensures
            decoder.input() == encoded_value@,
            decoder.cursor() == 0,
    {
        BencodeDecoder { encoded_value, start_pos: 0 }
    }

    /// The position of the next byte to read.
    pub fn position(&self) -> (pos: usize)
        ensures
            pos == self.cursor(),
            pos <= self.input().len(),
    {
        proof {
            use_type_invariant(self);
        }
        self.start_pos
    }

    /// Reads the byte string at the cursor.
    fn parse_bt_string(&mut self) -> (r: Result<BencodeType, BencodeError>)
        ensures
            final(self).input() == old(self).input(),
            old(self).cursor() <= final(self).cursor() <= old(self).input().len(),
            r is Ok ==> old(self).cursor() < final(self).cursor(),
            reports(byte_string_at(old(self).input(), old(self).cursor()), r, final(self).cursor()),
    {
        proof {
            use_type_invariant(&*self);
        }
        let input = self.encoded_value;
        let len: usize = input.len();
        match find_from(input, self.start_pos, 0x3a) {
            None => Err(Failure::MissingColon.error()),
            Some(colon) => {
                let start: usize = colon + 1;
                match read_length(input, self.start_pos, colon, len - start) {
                    Err(reason) => Err(reason.error()),
                    Ok(n) => {
                        let end: usize = start + n;
                        let bytes = slice_to_vec(slice_subrange(input, start, end));
                        self.start_pos = end;
                        Ok(BencodeType::BtString(bytes))
                    },
                }
            },
        }
    }

    /// Reads the integer at the cursor, which stands on its `i`.
    fn parse_bt_integer(&mut self) -> (r: Result<BencodeType, BencodeError>)
        requires
            old(self).cursor() < old(self).input().len(),
        ensures
            final(self).input() == old(self).input(),
            old(self).cursor() <= final(self).cursor() <= old(self).input().len(),
            r is Ok ==> old(self).cursor() < final(self).cursor(),
            reports(integer_at(old(self).input(), old(self).cursor()), r, final(self).cursor()),
    {
        let input = self.encoded_value;
        let len: usize = input.len();
        let from: usize = self.start_pos + 1;
        match find_from(input, from, 0x65) {
            None => Err(Failure::MissingEnd.error()),
            Some(end) => match read_integer(input, from, end) {
                Err(reason) => Err(reason.error()),
                Ok(n) => {
                    self.start_pos = end + 1;
                    Ok(BencodeType::BtNumber(n))
                },
            },
        }
    }

    /// Reads the list at the cursor, which stands on its `l`, with `depth`
    /// lists and dictionaries open around it.
    fn parse_bt_list(&mut self, depth: usize) -> (r: Result<BencodeType, BencodeError>)
        requires
            old(self).cursor() < old(self).input().len(),
            depth < MAX_DEPTH,
        ensures
            final(self).input() == old(self).input(),
            old(self).cursor() <= final(self).cursor() <= old(self).input().len(),
            r is Ok ==> old(self).cursor() < final(self).cursor(),
            reports(
                list_at(old(self).input(), old(self).cursor(), depth as nat),
                r,
                final(self).cursor(),
            ),
        decreases MAX_DEPTH - depth, 0int,
    {
        let input = self.encoded_value;
        let len: usize = input.len();
        let ghost s = self.input();
        let ghost start = self.cursor();
        let mut list: Vec<BencodeType> = Vec::new();
        self.start_pos += 1;
        assert(list_model(list@) == Seq::<Value>::empty());
        loop
            invariant
                s == old(self).input(),
                start == old(self).cursor(),
                self.encoded_value == input,
                input@ == s,
                len == s.len(),
                depth < MAX_DEPTH,
                start < self.cursor() <= s.len(),
                items_from(s, start + 1, (depth + 1) as nat, Seq::empty()) == items_from(
                    s,
                    self.cursor(),
                    (depth + 1) as nat,
                    list_model(list@),
                ),
            decreases s.len() - self.cursor(),
        {
            if self.start_pos >= len {
                return Err(Failure::IncompleteList.error());
            }
            if input[self.start_pos] == 0x65 {
                self.start_pos += 1;
                proof {
                    lemma_list_view(list);
                }
                return Ok(BencodeType::BtLists(list));
            }
            let ghost before = list_model(list@);
            match self.discover_bencoding_type(depth + 1) {
                Err(e) => {
                    return Err(e);
                },
                Ok(item) => {
                    list.push(item);
                    assert(list_model(list@) == before.push(item@));
                },
            }
        }
    }

    /// Reads the dictionary at the cursor, which stands on its `d`, with
    /// `depth` lists and dictionaries open around it.
    fn parse_bt_dic(&mut self, depth: usize) -> (r: Result<BencodeType, BencodeError>)
        requires
            old(self).cursor() < old(self).input().len(),
            depth < MAX_DEPTH,
        ensures
            final(self).input() == old(self).input(),
            old(self).cursor() <= final(self).cursor() <= old(self).input().len(),
            r is Ok ==> old(self).cursor() < final(self).cursor(),
            reports(
                dictionary_at(old(self).input(), old(self).cursor(), depth as nat),
                r,
                final(self).cursor(),
            ),
        decreases MAX_DEPTH - depth, 0int,
    {
        let input = self.encoded_value;
        let len: usize = input.len();
        let ghost s = self.input();
        let ghost start = self.cursor();
        let mut dict: Vec<(Vec<u8>, BencodeType)> = Vec::new();
        self.start_pos += 1;
        assert(entries_model(dict@) == Seq::<(Seq<u8>, Value)>::empty());
        loop
            invariant
                s == old(self).input(),
                start == old(self).cursor(),
                self.encoded_value == input,
                input@ == s,
                len == s.len(),
                depth < MAX_DEPTH,
                start < self.cursor() <= s.len(),
                distinct_keys(entries_model(dict@)),
                entries_from(s, start + 1, (depth + 1) as nat, Seq::empty()) == entries_from(
                    s,
                    self.cursor(),
                    (depth + 1) as nat,
                    entries_model(dict@),
                ),
            decreases s.len() - self.cursor(),
        {
            if self.start_pos >= len {
                return Err(Failure::IncompleteDict.error());
            }
            if input[self.start_pos] == 0x65 {
                self.start_pos += 1;
                proof {
                    lemma_dictionary_view(dict);
                }
                return Ok(BencodeType::BtDictionary(dict));
            }
            match self.discover_bencoding_type(depth + 1) {
                Err(e) => {
                    return Err(e);
                },
                Ok(BencodeType::BtString(key)) => {
                    if self.start_pos >= len {
                        return Err(Failure::IncompleteDict.error());
                    }
                    match self.discover_bencoding_type(depth + 1) {
                        Err(e) => {
                            return Err(e);
                        },
                        Ok(value) => {
                            put(&mut dict, key, value);
                        },
                    }
                },
                Ok(_) => {
                    return Err(Failure::KeyNotString.error());
                },
            }
        }
    }

    /// Reads the production at the cursor, with `depth` lists and
    /// dictionaries open around it.
    fn discover_bencoding_type(&mut self, depth: usize) -> (r: Result<BencodeType, BencodeError>)
        requires
            depth <= MAX_DEPTH,
        ensures
            final(self).input() == old(self).input(),
            old(self).cursor() <= final(self).cursor() <= old(self).input().len(),
            r is Ok ==> old(self).cursor() < final(self).cursor(),
            reports(
                value_at(old(self).input(), old(self).cursor(), depth as nat),
                r,
                final(self).cursor(),
            ),
        decreases MAX_DEPTH - depth, 1int,
    {
        proof {
            use_type_invariant(&*self);
        }
        let input = self.encoded_value;
        if self.start_pos >= input.len() {
            return Err(Failure::Unhandled.error());
        }
        let b: u8 = input[self.start_pos];
        if 0x30 <= b && b <= 0x39 {
            self.parse_bt_string()
        } else if b == 0x69 {
            self.parse_bt_integer()
        } else if b == 0x6c {
            if depth >= MAX_DEPTH {
                Err(Failure::TooDeep.error())
            } else {
                self.parse_bt_list(depth)
            }
        } else if b == 0x64 {
            if depth >= MAX_DEPTH {
                Err(Failure::TooDeep.error())
            } else {
                self.parse_bt_dic(depth)
            }
        } else {
            Err(Failure::Unhandled.error())
        }
    }

    /// Reads the value at the cursor and moves the cursor right after it.
    ///
    /// The value is the one that the grammar finds at the cursor, with no
    /// list or dictionary open around it. On failure the decoder is of no
    /// further use.
    pub fn decode(&mut self) -> (r: Result<BencodeType, BencodeError>)
        ensures
            final(self).input() == old(self).input(),
            old(self).cursor() <= final(self).cursor() <= old(self).input().len(),
            reports(
                value_at(old(self).input(), old(self).cursor(), 0),
                r,
                final(self).cursor(),
            ),
            r matches Ok(v) ==> well_formed(v@, 0),
    {
        proof {
            lemma_value_at_well_formed(self.input(), self.cursor(), 0);
        }
        self.discover_bencoding_type(0)
    }
}

/// Decodes the value that `encoded_value` starts with; what follows the
/// value is not looked at.
pub fn decode_bencoded_value(encoded_value: &[u8]) -> (r: Result<BencodeType, BencodeError>)
    ensures
        match decoded(encoded_value@) {
            Ok((value, _)) => r matches Ok(v) && v@ == value && well_formed(value, 0),
            Err(reason) => r matches Err(e) && reason.describes(e),
        },
{
    let mut decoder = BencodeDecoder::new(encoded_value);
    decoder.decode()
}

} // verus!
