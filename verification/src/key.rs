//! Storage keys.
//!
//! A key is a colon-delimited triple `<namespace>:<symbol>:<timestamp>`. The
//! timestamp segment alone decides where the record behind a key stands in
//! its series.

use vstd::prelude::*;
use vstd::string::*;

verus! {

/// The character between the segments of a key.
pub const SEPARATOR: char = ':';

/// Position of the first separator of `key` at or after `from`, or the
/// length of `key` where none follows.
pub open spec fn separator_from(key: Seq<char>, from: int) -> int
    decreases key.len() - from,
{
    if from < 0 || from >= key.len() {
        key.len() as int
    } else if key[from] == SEPARATOR {
        from
    } else {
        separator_from(key, from + 1)
    }
}

/// The third segment of `key`: what stands between its second separator and
/// the next one, or the end. A key with fewer than two separators has none.
pub open spec fn timestamp_segment(key: Seq<char>) -> Option<Seq<char>> {
    let first = separator_from(key, 0);
    let second = separator_from(key, first + 1);
    if first < key.len() && second < key.len() {
        Some(key.subrange(second + 1, separator_from(key, second + 1)))
    } else {
        None
    }
}

/// Whether `c` is one of `0` to `9`.
pub open spec fn is_decimal_digit(c: char) -> bool {
    '0' <= c && c <= '9'
}

/// The number that the digit `c` writes.
pub open spec fn digit_value(c: char) -> int {
    c as int - '0' as int
}

/// The number that a run of decimal digits writes, most significant first.
pub open spec fn decimal_value(digits: Seq<char>) -> int
    decreases digits.len(),
{
    if digits.len() == 0 {
        0
    } else {
        10 * decimal_value(digits.drop_last()) + digit_value(digits.last())
    }
}

/// Whether `text` holds decimal digits and nothing else.
pub open spec fn all_decimal_digits(text: Seq<char>) -> bool {
    forall|i: int| 0 <= i < text.len() ==> is_decimal_digit(#[trigger] text[i])
}

/// `text` without its leading plus sign, if it has one.
pub open spec fn unsigned_digits(text: Seq<char>) -> Seq<char> {
    if text.len() > 0 && text[0] == '+' {
        text.skip(1)
    } else {
        text
    }
}

/// The unsigned integer that `text` writes: an optional plus sign, then one
/// or more decimal digits whose value fits in 64 bits. Anything else writes
/// none.
pub open spec fn unsigned_value(text: Seq<char>) -> Option<u64> {
    let digits = unsigned_digits(text);
    if digits.len() > 0 && all_decimal_digits(digits) && decimal_value(digits) <= u64::MAX {
        Some(decimal_value(digits) as u64)
    } else {
        None
    }
}

/// The timestamp that `key` carries, if its third segment writes one.
pub open spec fn timestamp_of(key: Seq<char>) -> Option<u64> {
    match timestamp_segment(key) {
        Some(segment) => unsigned_value(segment),
        None => None,
    }
}

/// The value by which `key` is ordered: its timestamp, or 0 where it
/// carries none.
pub open spec fn order_of(key: Seq<char>) -> u64 {
    match timestamp_of(key) {
        Some(timestamp) => timestamp,
        None => 0,
    }
}

/// Whether `text` can stand as one segment of a key.
pub open spec fn free_of_separator(text: Seq<char>) -> bool {
    forall|i: int| 0 <= i < text.len() ==> #[trigger] text[i] != SEPARATOR
}

/// The key made of three segments.
pub open spec fn storage_key(namespace: Seq<char>, symbol: Seq<char>, timestamp: Seq<char>) -> Seq<
    char,
> {
    namespace + seq![SEPARATOR] + symbol + seq![SEPARATOR] + timestamp
}

/// The pattern that matches every key of `symbol`: the key whose timestamp
/// segment is the wildcard.
pub open spec fn pattern_of(symbol: Seq<char>) -> Seq<char> {
    storage_key("equity"@, symbol, "*"@)
}

/// Where no separator stands between two positions, the first separator
/// after the one is the first after the other.
pub proof fn lemma_separator_skips(key: Seq<char>, from: int, to: int)
    requires
        0 <= from <= to <= key.len(),
        forall|i: int| from <= i < to ==> #[trigger] key[i] != SEPARATOR,
    ensures
        separator_from(key, from) == separator_from(key, to),
    decreases to - from,
{
    if from < to {
        lemma_separator_skips(key, from + 1, to);
    }
}

/// The timestamp segment of a key made of three segments is its third, and
/// the key carries the timestamp that this segment writes.
pub proof fn lemma_storage_key_timestamp(
    namespace: Seq<char>,
    symbol: Seq<char>,
    timestamp: Seq<char>,
)
    requires
        free_of_separator(namespace),
        free_of_separator(symbol),
        free_of_separator(timestamp),
    ensures
        timestamp_segment(storage_key(namespace, symbol, timestamp)) == Some(timestamp),
        timestamp_of(storage_key(namespace, symbol, timestamp)) == unsigned_value(timestamp),
{
    let key = storage_key(namespace, symbol, timestamp);
    let first = namespace.len() as int;
    let second = first + 1 + symbol.len();
    assert(forall|i: int| 0 <= i < first ==> #[trigger] key[i] == namespace[i]);
    assert(forall|i: int| first < i < second ==> #[trigger] key[i] == symbol[i - first - 1]);
    assert(forall|i: int|
        second < i < key.len() ==> #[trigger] key[i] == timestamp[i - second - 1]);
    lemma_separator_skips(key, 0, first);
    lemma_separator_skips(key, first + 1, second);
    lemma_separator_skips(key, second + 1, key.len() as int);
}

/// A prefix of a run of digits writes no more than the whole run.
pub proof fn lemma_decimal_value_monotonic(digits: Seq<char>, n: int)
    requires
        all_decimal_digits(digits),
        0 <= n <= digits.len(),
    ensures
        0 <= decimal_value(digits.take(n)) <= decimal_value(digits),
    decreases digits.len(),
{
    if n == digits.len() {
        assert(digits.take(n) =~= digits);
        if n > 0 {
            lemma_decimal_value_monotonic(digits.drop_last(), n - 1);
        }
    } else {
        lemma_decimal_value_monotonic(digits.drop_last(), n);
        assert(digits.drop_last().take(n) =~= digits.take(n));
    }
}

/// Reads `text` as an unsigned integer.
pub fn parse_unsigned(text: &[char]) -> (value: Option<u64>)
    ensures
        value == unsigned_value(text@),
{
    let n = text.len();
    let start: usize = if n > 0 && text[0] == '+' { 1 } else { 0 };
    let ghost digits = unsigned_digits(text@);
    if start == n {
        return None;
    }
    let mut value: u64 = 0;
    let mut i: usize = start;
    while i < n
        invariant
            start <= i <= n,
            n == text@.len(),
            digits == text@.skip(start as int),
            digits == unsigned_digits(text@),
            all_decimal_digits(digits.take(i - start)),
            value == decimal_value(digits.take(i - start)),
        decreases n - i,
    {
        let c = text[i];
        assert(digits.take(i + 1 - start).drop_last() =~= digits.take(i - start));
        if c < '0' || c > '9' {
            assert(!is_decimal_digit(digits[i - start]));
            return None;
        }
        let digit: u64 = (c as u32 - '0' as u32) as u64;
        let grown = match value.checked_mul(10) {
            Some(tenfold) => tenfold.checked_add(digit),
            None => None,
        };
        match grown {
            Some(v) => {
                value = v;
            },
            None => {
                // What was read is too much already, and more digits make
                // it no less.
                proof {
                    if all_decimal_digits(digits) {
                        lemma_decimal_value_monotonic(digits, i + 1 - start);
                    }
                }
                return None;
            },
        }
        i += 1;
    }
    assert(digits.take(i - start) =~= digits);
    Some(value)
}

/// Reads the timestamp that `key` carries.
///
/// `None` where the key has no third segment or that segment is no unsigned
/// integer.
pub fn key_timestamp(key: &str) -> (timestamp: Option<u64>)
    ensures
        timestamp == timestamp_of(key@),
{
    // The separators met so far, counted up to three, and what was read of
    // the third segment.
    let mut separators: u8 = 0;
    let mut segment: Vec<char> = Vec::new();
    let ghost first = separator_from(key@, 0);
    let ghost mut second: int = 0;
    for c in it: key.chars()
        invariant
            it.seq() == key@,
            first == separator_from(key@, 0),
            separators <= 3,
            0 <= second,
            separators < 2 ==> segment@ == Seq::<char>::empty(),
            // No separator was met: the first one is still ahead.
            separators == 0 ==> first == separator_from(key@, it.index()),
            // The first was met: the second one is still ahead.
            separators >= 1 ==> first < it.index(),
            separators == 1 ==> separator_from(key@, first + 1) == separator_from(
                key@,
                it.index(),
            ),
            // The second was met: the segment runs from behind it to here.
            separators >= 2 ==> second == separator_from(key@, first + 1) && second < it.index(),
            separators == 2 ==> separator_from(key@, second + 1) == separator_from(
                key@,
                it.index(),
            ) && segment@ == key@.subrange(second + 1, it.index()),
            // The third was met: the segment is whole.
            separators == 3 ==> separator_from(key@, second + 1) < it.index() && segment@
                == key@.subrange(second + 1, separator_from(key@, second + 1)),
    {
        if separators < 3 {
            if c == SEPARATOR {
                proof {
                    if separators == 1 {
                        second = it.index();
                    }
                }
                separators += 1;
            } else if separators == 2 {
                segment.push(c);
            }
        }
    }
    if separators >= 2 {
        parse_unsigned(segment.as_slice())
    } else {
        None
    }
}

/// The value by which the record behind `key` is ordered: the key's
/// timestamp, or 0 where it carries none.
pub fn order_value(key: &str) -> (order: u64)
    ensures
        order == order_of(key@),
{
    match key_timestamp(key) {
        Some(timestamp) => timestamp,
        None => 0,
    }
}

/// The pattern under which the store lists every key of `symbol`.
pub fn key_pattern(symbol: &str) -> (pattern: String)
    ensures
        pattern@ == pattern_of(symbol@),
{
    proof {
        reveal_strlit(":");
    }
    let mut pattern = String::from_str("equity");
    pattern.append(":");
    pattern.append(symbol);
    pattern.append(":");
    pattern.append("*");
    pattern
}

} // verus!
