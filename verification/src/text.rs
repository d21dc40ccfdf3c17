//! Plain bytes of text: the few characters the metrics format is built from,
//! searching and comparing byte strings, and reading decimal numbers.

use vstd::prelude::*;
use vstd::slice::slice_subrange;
use vstd::string::StringSliceAdditionalSpecFns;

use crate::errors::FailoverError;

verus! {

/// Line feed, which ends a line.
pub const NEWLINE: u8 = 0x0a;

/// The blank between a record's labels and its number.
pub const SPACE: u8 = 0x20;

/// The double quote around a label's value.
pub const QUOTE: u8 = 0x22;

/// The comma between two labels.
pub const COMMA: u8 = 0x2c;

/// The colon between host and port.
pub const COLON: u8 = 0x3a;

/// The equals sign between a label's key and its value.
pub const EQUALS: u8 = 0x3d;

/// The brace that opens the labels.
pub const OPEN_BRACE: u8 = 0x7b;

/// The brace that closes the labels.
pub const CLOSE_BRACE: u8 = 0x7d;

/// The bytes of a text whose characters are all ASCII.
pub open spec fn ascii(text: Seq<char>) -> Seq<u8> {
    Seq::new(text.len(), |i: int| text[i] as u8)
}

/// `b` is one of `0` to `9`.
pub open spec fn is_digit(b: u8) -> bool {
    0x30 <= b <= 0x39
}

/// Every byte of `s` is a digit. The empty string passes.
pub open spec fn all_digits(s: Seq<u8>) -> bool {
    forall|i: int| 0 <= i < s.len() ==> is_digit(#[trigger] s[i])
}

/// The number that a string of digits writes in base ten.
pub open spec fn decimal_value(digits: Seq<u8>) -> nat
    decreases digits.len(),
{
    if digits.len() == 0 {
        0
    } else {
        (decimal_value(digits.drop_last()) * 10 + (digits.last() - 0x30)) as nat
    }
}

/// A count as the machine holds it: exact up to `u64::MAX`, and `u64::MAX`
/// for anything larger.
pub open spec fn saturate(n: nat) -> u64 {
    if n <= u64::MAX {
        n as u64
    } else {
        u64::MAX
    }
}

/// The first position at or after `from` where `s` holds `byte`, or the
/// length of `s` where it holds none.
pub open spec fn first_index_of(s: Seq<u8>, from: int, byte: u8) -> int
    decreases s.len() - from,
{
    if 0 <= from < s.len() && s[from] != byte {
        first_index_of(s, from + 1, byte)
    } else {
        from
    }
}

/// `first_index_of` stops at the first `byte`: nothing before its result is
/// `byte`, and its result is either the end or a `byte`.
pub proof fn lemma_first_index_of(s: Seq<u8>, from: int, byte: u8)
    requires
        0 <= from <= s.len(),
    ensures
        from <= first_index_of(s, from, byte) <= s.len(),
        forall|i: int| from <= i < first_index_of(s, from, byte) ==> s[i] != byte,
        first_index_of(s, from, byte) < s.len() ==> s[first_index_of(s, from, byte)] == byte,
    decreases s.len() - from,
{
    if from < s.len() && s[from] != byte {
        lemma_first_index_of(s, from + 1, byte);
    }
}

/// Any position that meets the two conditions of `lemma_first_index_of` is
/// the result of `first_index_of`.
pub proof fn lemma_first_index_of_unique(s: Seq<u8>, from: int, byte: u8, end: int)
    requires
        0 <= from <= end <= s.len(),
        forall|i: int| from <= i < end ==> s[i] != byte,
        end < s.len() ==> s[end] == byte,
    ensures
        first_index_of(s, from, byte) == end,
    decreases end - from,
{
    if from < end {
        lemma_first_index_of_unique(s, from + 1, byte, end);
    }
}

/// The bytes of an ASCII text.
pub(crate) fn ascii_bytes(text: &str) -> (bytes: &[u8])
    requires
        vstd::string::is_ascii(text),
    ensures
        bytes@ == ascii(text@),
{
    proof {
        vstd::string::is_ascii_spec_bytes(text);
    }
    text.as_bytes()
}

/// Tells whether `b` is a decimal digit.
pub fn is_digit_byte(b: u8) -> (r: bool)
    ensures
        r == is_digit(b),
{
    0x30 <= b && b <= 0x39
}

/// Adds two counts, stopping at `u64::MAX`.
pub fn add_saturating(a: u64, b: u64) -> (sum: u64)
    ensures
        sum == saturate((a + b) as nat),
{
    if b > u64::MAX - a {
        u64::MAX
    } else {
        a + b
    }
}

/// Tells whether two byte strings are the same.
pub fn bytes_equal(a: &[u8], b: &[u8]) -> (r: bool)
    ensures
        r == (a@ == b@),
{
    if a.len() != b.len() {
        return false;
    }
    let mut i: usize = 0;
    while i < a.len()
        invariant
            i <= a.len(),
            a.len() == b.len(),
            forall|j: int| 0 <= j < i ==> a@[j] == b@[j],
        decreases a.len() - i,
    {
        if a[i] != b[i] {
            return false;
        }
        i += 1;
    }
    assert(a@ =~= b@);
    true
}

/// Finds the first `byte` at or after `from`; gives the length of `s` where
/// there is none, and `from` itself where it lies beyond the end.
pub fn find_byte(s: &[u8], from: usize, byte: u8) -> (at: usize)
    ensures
        at == first_index_of(s@, from as int, byte),
        from <= at,
        from <= s.len() ==> at <= s.len(),
{
    let mut i: usize = from;
    while i < s.len() && s[i] != byte
        invariant
            from <= i,
            from <= s.len() ==> i <= s.len(),
            first_index_of(s@, from as int, byte) == first_index_of(s@, i as int, byte),
        decreases s.len() - i,
    {
        i += 1;
    }
    i
}

/// Tells whether `s` holds `pattern` at position `at`.
pub fn holds_at(s: &[u8], at: usize, pattern: &[u8]) -> (r: bool)
    ensures
        r == (at + pattern@.len() <= s@.len() && s@.subrange(
            at as int,
            at + pattern@.len(),
        ) == pattern@),
{
    if at > s.len() || pattern.len() > s.len() - at {
        return false;
    }
    bytes_equal(slice_subrange(s, at, at + pattern.len()), pattern)
}

/// Reads a decimal number. A string that is empty or holds anything but
/// digits is no number, which is a parse error; a number too large for
/// `u64` comes back as `u64::MAX`.
pub fn parse_decimal(field: &[u8]) -> (r: Result<u64, FailoverError>)
    ensures
        r is Ok <==> field@.len() > 0 && all_digits(field@),
        r matches Ok(value) ==> value == saturate(decimal_value(field@)),
        r matches Err(error) ==> error == FailoverError::ParseError,
{
    if field.len() == 0 {
        return Err(FailoverError::ParseError);
    }
    let mut value: u64 = 0;
    let mut i: usize = 0;
    while i < field.len()
        invariant
            i <= field.len(),
            all_digits(field@.subrange(0, i as int)),
            value == saturate(decimal_value(field@.subrange(0, i as int))),
        decreases field.len() - i,
    {
        let b = field[i];
        if !is_digit_byte(b) {
            return Err(FailoverError::ParseError);
        }
        let digit: u64 = (b - 0x30) as u64;
        proof {
            let before = field@.subrange(0, i as int);
            let now = field@.subrange(0, i + 1);
            assert(now.drop_last() =~= before);
            assert(now.last() == b);
            assert(all_digits(now)) by {
                assert forall|j: int| 0 <= j < now.len() implies is_digit(#[trigger] now[j]) by {
                    if j < i {
                        assert(before[j] == now[j]);
                    }
                }
            }
        }
        value = if value > (u64::MAX - digit) / 10 {
            u64::MAX
        } else {
            value * 10 + digit
        };
        i += 1;
    }
    assert(field@.subrange(0, i as int) =~= field@);
    Ok(value)
}

} // verus!
