//! Decimal and fixed-point rendering of integers.

use vstd::prelude::*;
use vstd::string::*;

verus! {

/// The character of a decimal digit.
pub open spec fn digit_char(d: int) -> char {
    if d == 0 {
        '0'
    } else if d == 1 {
        '1'
    } else if d == 2 {
        '2'
    } else if d == 3 {
        '3'
    } else if d == 4 {
        '4'
    } else if d == 5 {
        '5'
    } else if d == 6 {
        '6'
    } else if d == 7 {
        '7'
    } else if d == 8 {
        '8'
    } else {
        '9'
    }
}

/// The decimal numeral of a natural number, without leading zeros.
pub open spec fn decimal(n: nat) -> Seq<char>
    decreases n,
{
    if n < 10 {
        seq![digit_char(n as int)]
    } else {
        decimal(n / 10).push(digit_char((n % 10) as int))
    }
}

/// The decimal numeral of an integer, with a minus sign when negative.
pub open spec fn signed_decimal(i: int) -> Seq<char> {
    if i < 0 {
        seq!['-'] + decimal((-i) as nat)
    } else {
        decimal(i as nat)
    }
}

/// The digits after the decimal point for `m` thousandths, `0 < m < 1000`,
/// with trailing zeros dropped.
pub open spec fn fraction_digits(m: nat) -> Seq<char> {
    let h = digit_char((m / 100) as int);
    let t = digit_char(((m / 10) % 10) as int);
    let u = digit_char((m % 10) as int);
    if m % 10 != 0 {
        seq![h, t, u]
    } else if (m / 10) % 10 != 0 {
        seq![h, t]
    } else {
        seq![h]
    }
}

/// The numeral of `f` thousandths as a decimal fraction: `1500` is `1.5`,
/// `-250` is `-0.25`, `3000` is `3`.
pub open spec fn fixed_point(f: int) -> Seq<char> {
    let m = if f < 0 {
        -f
    } else {
        f
    };
    let sign = if f < 0 {
        seq!['-']
    } else {
        Seq::<char>::empty()
    };
    let whole = decimal((m / 1000) as nat);
    if m % 1000 == 0 {
        sign + whole
    } else {
        sign + whole + seq!['.'] + fraction_digits((m % 1000) as nat)
    }
}

/// The one-character text of a decimal digit.
pub fn digit_str(d: u64) -> (s: &'static str)
    requires
        d < 10,
    ensures
        s@ == seq![digit_char(d as int)],
{
    proof {
        reveal_strlit("0");
        reveal_strlit("1");
        reveal_strlit("2");
        reveal_strlit("3");
        reveal_strlit("4");
        reveal_strlit("5");
        reveal_strlit("6");
        reveal_strlit("7");
        reveal_strlit("8");
        reveal_strlit("9");
    }
    let s = if d == 0 {
        "0"
    } else if d == 1 {
        "1"
    } else if d == 2 {
        "2"
    } else if d == 3 {
        "3"
    } else if d == 4 {
        "4"
    } else if d == 5 {
        "5"
    } else if d == 6 {
        "6"
    } else if d == 7 {
        "7"
    } else if d == 8 {
        "8"
    } else {
        "9"
    };
    assert(s@ =~= seq![digit_char(d as int)]);
    s
}

/// Appends the decimal numeral of `n` to `out`.
pub fn push_decimal(out: &mut String, n: u64)
    ensures
        final(out)@ == old(out)@ + decimal(n as nat),
    decreases n,
{
    if n >= 10 {
        push_decimal(out, n / 10);
    }
    out.append(digit_str(n % 10));
    assert(out@ =~= old(out)@ + decimal(n as nat));
}

/// The absolute value of `i`.
pub fn magnitude(i: i64) -> (m: u64)
    ensures
        m == if i < 0 {
            -i
        } else {
            i as int
        },
{
    if i >= 0 {
        i as u64
    } else {
        (-(i + 1)) as u64 + 1
    }
}

/// Appends the decimal numeral of `i` to `out`.
pub fn push_signed_decimal(out: &mut String, i: i64)
    ensures
        final(out)@ == old(out)@ + signed_decimal(i as int),
{
    if i < 0 {
        proof {
            reveal_strlit("-");
        }
        out.append("-");
    }
    push_decimal(out, magnitude(i));
    assert(out@ =~= old(out)@ + signed_decimal(i as int));
}

/// Appends the numeral of `f` thousandths to `out`.
pub fn push_fixed_point(out: &mut String, f: i64)
    ensures
        final(out)@ == old(out)@ + fixed_point(f as int),
{
    proof {
        reveal_strlit("-");
        reveal_strlit(".");
    }
    let m = magnitude(f);
    if f < 0 {
        out.append("-");
    }
    push_decimal(out, m / 1000);
    let r = m % 1000;
    if r != 0 {
        out.append(".");
        out.append(digit_str(r / 100));
        if r % 10 != 0 {
            out.append(digit_str((r / 10) % 10));
            out.append(digit_str(r % 10));
        } else if (r / 10) % 10 != 0 {
            out.append(digit_str((r / 10) % 10));
        }
    }
    assert(out@ =~= old(out)@ + fixed_point(f as int));
}

} // verus!
