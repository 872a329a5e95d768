//! Reading whole numbers.

use vstd::prelude::*;
use vstd::string::*;

verus! {

/// The value of a decimal digit; nothing for any other character.
pub open spec fn digit_value(c: char) -> Option<nat> {
    if c == '0' {
        Some(0)
    } else if c == '1' {
        Some(1)
    } else if c == '2' {
        Some(2)
    } else if c == '3' {
        Some(3)
    } else if c == '4' {
        Some(4)
    } else if c == '5' {
        Some(5)
    } else if c == '6' {
        Some(6)
    } else if c == '7' {
        Some(7)
    } else if c == '8' {
        Some(8)
    } else if c == '9' {
        Some(9)
    } else {
        None
    }
}

/// The number that a run of decimal digits stands for; nothing for the
/// empty text and for a text with any other character.
pub open spec fn natural_of(text: Seq<char>) -> Option<nat>
    decreases text.len(),
{
    if text.len() == 0 {
        None
    } else if text.len() == 1 {
        digit_value(text[0])
    } else {
        match (natural_of(text.drop_last()), digit_value(text.last())) {
            (Some(n), Some(d)) => Some(10 * n + d),
            _ => None,
        }
    }
}

/// The 64-bit integer that a text stands for: decimal digits, with `+` or
/// `-` before them or without a sign. Nothing where the text is no such
/// numeral or the number does not fit.
pub open spec fn integer_of(text: Seq<char>) -> Option<i64> {
    if text.len() > 0 && text[0] == '-' {
        match natural_of(text.skip(1)) {
            Some(n) => if n <= 0x8000_0000_0000_0000 {
                Some((-(n as int)) as i64)
            } else {
                None
            },
            None => None,
        }
    } else if text.len() > 0 && text[0] == '+' {
        match natural_of(text.skip(1)) {
            Some(n) => if n <= i64::MAX {
                Some(n as i64)
            } else {
                None
            },
            None => None,
        }
    } else {
        match natural_of(text) {
            Some(n) => if n <= i64::MAX {
                Some(n as i64)
            } else {
                None
            },
            None => None,
        }
    }
}

/// A numeral stands for at least as much as any numeral it begins with.
pub proof fn lemma_natural_of_prefix(text: Seq<char>, k: int)
    requires
        0 < k <= text.len(),
        natural_of(text) is Some,
    ensures
        natural_of(text.take(k)) is Some,
        natural_of(text.take(k))->0 <= natural_of(text)->0,
    decreases text.len(),
{
    if k == text.len() {
        assert(text.take(k) =~= text);
    } else {
        assert(text.drop_last().take(k) =~= text.take(k));
        lemma_natural_of_prefix(text.drop_last(), k);
    }
}

/// The value of a decimal digit.
fn digit_of(c: char) -> (res: Option<u64>)
    ensures
        match res {
            Some(d) => digit_value(c) == Some(d as nat) && d < 10,
            None => digit_value(c) is None,
        },
{
    if c == '0' {
        Some(0)
    } else if c == '1' {
        Some(1)
    } else if c == '2' {
        Some(2)
    } else if c == '3' {
        Some(3)
    } else if c == '4' {
        Some(4)
    } else if c == '5' {
        Some(5)
    } else if c == '6' {
        Some(6)
    } else if c == '7' {
        Some(7)
    } else if c == '8' {
        Some(8)
    } else if c == '9' {
        Some(9)
    } else {
        None
    }
}

/// Reads the digits of `text` from position `start` on, as far as the
/// number stays within `limit`.
fn read_natural(text: &str, start: usize, limit: u64) -> (res: Option<u64>)
    requires
        start <= text@.len(),
        limit <= 0x8000_0000_0000_0000,
    ensures
        match res {
            Some(n) => natural_of(text@.skip(start as int)) == Some(n as nat) && n <= limit,
            None => natural_of(text@.skip(start as int)) matches Some(n) ==> n > limit,
        },
{
    let len = text.unicode_len();
    let ghost digits = text@.skip(start as int);
    if start >= len {
        return None;
    }
    let mut acc: u64 = 0;
    let mut i: usize = start;
    while i < len
        invariant
            start <= i <= len,
            len == text@.len(),
            digits == text@.skip(start as int),
            limit <= 0x8000_0000_0000_0000,
            acc <= limit,
            i > start ==> natural_of(digits.take(i - start)) == Some(acc as nat),
            i == start ==> acc == 0,
        decreases len - i,
    {
        let c = text.get_char(i);
        proof {
            assert(digits.take(i - start + 1).drop_last() =~= digits.take(i - start));
            assert(digits.take(i - start + 1).last() == c);
            if natural_of(digits) is Some {
                lemma_natural_of_prefix(digits, i - start + 1);
            }
        }
        let d = match digit_of(c) {
            Some(d) => d,
            None => {
                return None;
            },
        };
        if acc > 922337203685477580 {
            return None;
        }
        let next = acc * 10 + d;
        if next > limit {
            return None;
        }
        acc = next;
        i += 1;
    }
    proof {
        assert(digits.take(len - start) =~= digits);
    }
    Some(acc)
}

/// Reads a 64-bit integer.
pub fn parse_integer(text: &str) -> (res: Option<i64>)
    ensures
        res == integer_of(text@),
{
    let len = text.unicode_len();
    if len > 0 && text.get_char(0) == '-' {
        match read_natural(text, 1, 0x8000_0000_0000_0000) {
            Some(n) => if n == 0x8000_0000_0000_0000 {
                Some(i64::MIN)
            } else {
                Some(-(n as i64))
            },
            None => None,
        }
    } else if len > 0 && text.get_char(0) == '+' {
        match read_natural(text, 1, 0x7fff_ffff_ffff_ffff) {
            Some(n) => Some(n as i64),
            None => None,
        }
    } else {
        proof {
            assert(text@.skip(0) =~= text@);
        }
        match read_natural(text, 0, 0x7fff_ffff_ffff_ffff) {
            Some(n) => Some(n as i64),
            None => None,
        }
    }
}

/// Whether `c` occurs in `text`.
pub fn has_char(text: &str, c: char) -> (res: bool)
    ensures
        res == text@.contains(c),
{
    let len = text.unicode_len();
    let mut i: usize = 0;
    while i < len
        invariant
            i <= len,
            len == text@.len(),
            forall|j: int| 0 <= j < i ==> text@[j] != c,
        decreases len - i,
    {
        if text.get_char(i) == c {
            return true;
        }
        i += 1;
    }
    false
}

} // verus!
