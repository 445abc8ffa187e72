//! Message text: literal pieces and decimal numerals, joined.

use crate::bignat::{decimal, digit_char};
use vstd::prelude::*;

verus! {

/// The one-character numeral of a digit.
fn digit_str(d: u64) -> (r: &'static str)
    requires
        d < 10,
    ensures
        r@ == seq![digit_char(d as nat)],
{
    if d == 0 {
        proof {
            reveal_strlit("0");
        }
        "0"
    } else if d == 1 {
        proof {
            reveal_strlit("1");
        }
        "1"
    } else if d == 2 {
        proof {
            reveal_strlit("2");
        }
        "2"
    } else if d == 3 {
        proof {
            reveal_strlit("3");
        }
        "3"
    } else if d == 4 {
        proof {
            reveal_strlit("4");
        }
        "4"
    } else if d == 5 {
        proof {
            reveal_strlit("5");
        }
        "5"
    } else if d == 6 {
        proof {
            reveal_strlit("6");
        }
        "6"
    } else if d == 7 {
        proof {
            reveal_strlit("7");
        }
        "7"
    } else if d == 8 {
        proof {
            reveal_strlit("8");
        }
        "8"
    } else {
        proof {
            reveal_strlit("9");
        }
        "9"
    }
}

/// Append the decimal numeral of `v` to `s`.
pub(crate) fn push_num(s: &mut String, v: u64)
    ensures
        final(s)@ == old(s)@ + decimal(v as nat),
    decreases v,
{
    if v >= 10 {
        push_num(s, v / 10);
    }
    let ghost mid = s@;
    s.append(digit_str(v % 10));
    proof {
        if v >= 10 {
            assert(decimal(v as nat) == decimal((v / 10) as nat).push(digit_char((v % 10) as nat)));
        }
        assert(s@ =~= old(s)@ + decimal(v as nat));
    }
}

/// Append the decimal numeral of a 128-bit `v` to `s`.
pub(crate) fn push_num_wide(s: &mut String, v: u128)
    ensures
        final(s)@ == old(s)@ + decimal(v as nat),
    decreases v,
{
    if v >= 10 {
        push_num_wide(s, v / 10);
    }
    let d = (v % 10) as u64;
    s.append(digit_str(d));
    proof {
        if v >= 10 {
            assert(decimal(v as nat) == decimal((v / 10) as nat).push(digit_char((v % 10) as nat)));
        }
        assert(s@ =~= old(s)@ + decimal(v as nat));
    }
}

/// `a`, then the numeral of `x`, then `b`.
pub(crate) fn text_num(a: &str, x: u64, b: &str) -> (r: String)
    ensures
        r@ == a@ + decimal(x as nat) + b@,
{
    let mut s = String::from_str(a);
    push_num(&mut s, x);
    s.append(b);
    s
}

/// `a`, the numeral of `x`, `b`, the numeral of `y`, then `c`.
pub(crate) fn text_nums(a: &str, x: u64, b: &str, y: u64, c: &str) -> (r: String)
    ensures
        r@ == a@ + decimal(x as nat) + b@ + decimal(y as nat) + c@,
{
    let mut s = text_num(a, x, b);
    push_num(&mut s, y);
    s.append(c);
    s
}

/// `a` followed by `b`.
pub(crate) fn text_cat(a: &str, b: &str) -> (r: String)
    ensures
        r@ == a@ + b@,
{
    let mut s = String::from_str(a);
    s.append(b);
    s
}

} // verus!
