//! Decimal rendering of integers and fixed-point quantities.
//!
//! Every rendering function appends to a `String` and is specified exactly,
//! character by character, so that callers can pin down whole rendered
//! documents. Fixed-point quantities are held as integer tenths or
//! hundredths; averages are rounded half away from zero.

use vstd::prelude::*;

verus! {

/// The decimal digit character for `d` (meaningful for `0 <= d <= 9`).
pub open spec fn digit_char(d: int) -> char {
    if d == 0 {
        '0'
    } else if d == 1 {
        '1'
    } else if d == 2 {
        '2'
    } else if d == 3 {
        '3'
    } else if d == 4 {
        '4'
    } else if d == 5 {
        '5'
    } else if d == 6 {
        '6'
    } else if d == 7 {
        '7'
    } else if d == 8 {
        '8'
    } else {
        '9'
    }
}

/// The decimal digit string of a non-negative integer, without sign
/// or padding (`dec_seq(407) == seq!['4', '0', '7']`).
pub open spec fn dec_seq(n: int) -> Seq<char>
    decreases n,
{
    if n < 10 {
        seq![digit_char(n)]
    } else {
        dec_seq(n / 10).push(digit_char(n % 10))
    }
}

/// The decimal string of an integer, with a leading `-` when negative.
pub open spec fn int_seq(n: int) -> Seq<char> {
    if n < 0 {
        seq!['-'] + dec_seq(-n)
    } else {
        dec_seq(n)
    }
}

pub(crate) fn push_digit(out: &mut String, d: u8)
    requires
        d <= 9,
    ensures
        final(out)@ == old(out)@ + seq![digit_char(d as int)],
{
    if d == 0 {
        proof {
            reveal_strlit("0");
            assert("0"@ =~= seq![digit_char(d as int)]);
        }
        out.append("0");
    } else if d == 1 {
        proof {
            reveal_strlit("1");
            assert("1"@ =~= seq![digit_char(d as int)]);
        }
        out.append("1");
    } else if d == 2 {
        proof {
            reveal_strlit("2");
            assert("2"@ =~= seq![digit_char(d as int)]);
        }
        out.append("2");
    } else if d == 3 {
        proof {
            reveal_strlit("3");
            assert("3"@ =~= seq![digit_char(d as int)]);
        }
        out.append("3");
    } else if d == 4 {
        proof {
            reveal_strlit("4");
            assert("4"@ =~= seq![digit_char(d as int)]);
        }
        out.append("4");
    } else if d == 5 {
        proof {
            reveal_strlit("5");
            assert("5"@ =~= seq![digit_char(d as int)]);
        }
        out.append("5");
    } else if d == 6 {
        proof {
            reveal_strlit("6");
            assert("6"@ =~= seq![digit_char(d as int)]);
        }
        out.append("6");
    } else if d == 7 {
        proof {
            reveal_strlit("7");
            assert("7"@ =~= seq![digit_char(d as int)]);
        }
        out.append("7");
    } else if d == 8 {
        proof {
            reveal_strlit("8");
            assert("8"@ =~= seq![digit_char(d as int)]);
        }
        out.append("8");
    } else {
        proof {
            reveal_strlit("9");
            assert("9"@ =~= seq![digit_char(d as int)]);
        }
        out.append("9");
    }
}

pub(crate) fn push_u128(out: &mut String, n: u128)
    ensures
        final(out)@ == old(out)@ + dec_seq(n as int),
    decreases n,
{
    if n >= 10 {
        push_u128(out, n / 10);
        push_digit(out, (n % 10) as u8);
        proof {
            assert(old(out)@ + dec_seq(n as int) =~= old(out)@ + dec_seq(n as int / 10) + seq![
                digit_char(n as int % 10),
            ]);
        }
    } else {
        push_digit(out, n as u8);
    }
}

pub(crate) fn push_usize(out: &mut String, n: usize)
    ensures
        final(out)@ == old(out)@ + dec_seq(n as int),
{
    push_u128(out, n as u128);
}

pub(crate) fn push_minus(out: &mut String)
    ensures
        final(out)@ == old(out)@ + seq!['-'],
{
    proof {
        reveal_strlit("-");
        assert("-"@ =~= seq!['-']);
    }
    out.append("-");
}

pub(crate) fn push_dot(out: &mut String)
    ensures
        final(out)@ == old(out)@ + seq!['.'],
{
    proof {
        reveal_strlit(".");
        assert("."@ =~= seq!['.']);
    }
    out.append(".");
}

pub(crate) fn push_i64(out: &mut String, n: i64)
    ensures
        final(out)@ == old(out)@ + int_seq(n as int),
{
    if n < 0 {
        push_minus(out);
        let m: u128 = (-(n as i128)) as u128;
        push_u128(out, m);
        proof {
            assert(old(out)@ + int_seq(n as int) =~= old(out)@ + seq!['-'] + dec_seq(
                -(n as int),
            ));
        }
    } else {
        push_u128(out, n as u128);
    }
}

/// A quantity of tenths rendered with two decimal places
/// (`tenths2_seq(44) == "4.40"`, `tenths2_seq(-7) == "-0.70"`).
pub open spec fn tenths2_seq(t: int) -> Seq<char> {
    if t < 0 {
        seq!['-'] + tenths2_nonneg_seq(-t)
    } else {
        tenths2_nonneg_seq(t)
    }
}

pub open spec fn tenths2_nonneg_seq(t: int) -> Seq<char> {
    dec_seq(t / 10) + seq!['.', digit_char(t % 10), '0']
}

pub(crate) fn push_tenths2(out: &mut String, t: i128)
    requires
        t != i128::MIN,
    ensures
        final(out)@ == old(out)@ + tenths2_seq(t as int),
{
    let a: u128 = if t < 0 {
        push_minus(out);
        (-t) as u128
    } else {
        t as u128
    };
    push_u128(out, a / 10);
    push_dot(out);
    push_digit(out, (a % 10) as u8);
    push_digit(out, 0);
    proof {
        if t < 0 {
            assert(old(out)@ + tenths2_seq(t as int) =~= old(out)@ + seq!['-'] + dec_seq(
                a as int / 10,
            ) + seq!['.'] + seq![digit_char(a as int % 10)] + seq![digit_char(0)]);
        } else {
            assert(old(out)@ + tenths2_seq(t as int) =~= old(out)@ + dec_seq(a as int / 10) + seq![
                '.',
            ] + seq![digit_char(a as int % 10)] + seq![digit_char(0)]);
        }
    }
}

/// A quantity of hundredths rendered with two decimal places
/// (`hundredths2_seq(250) == "2.50"`).
pub open spec fn hundredths2_seq(h: int) -> Seq<char> {
    if h < 0 {
        seq!['-'] + hundredths2_nonneg_seq(-h)
    } else {
        hundredths2_nonneg_seq(h)
    }
}

pub open spec fn hundredths2_nonneg_seq(h: int) -> Seq<char> {
    dec_seq(h / 100) + seq!['.', digit_char((h / 10) % 10), digit_char(h % 10)]
}

pub(crate) fn push_hundredths2(out: &mut String, h: i64)
    ensures
        final(out)@ == old(out)@ + hundredths2_seq(h as int),
{
    let a: u128 = if h < 0 {
        push_minus(out);
        (-(h as i128)) as u128
    } else {
        h as u128
    };
    push_u128(out, a / 100);
    push_dot(out);
    push_digit(out, ((a / 10) % 10) as u8);
    push_digit(out, (a % 10) as u8);
    proof {
        if h < 0 {
            assert(old(out)@ + hundredths2_seq(h as int) =~= old(out)@ + seq!['-'] + dec_seq(
                a as int / 100,
            ) + seq!['.'] + seq![digit_char((a as int / 10) % 10)] + seq![digit_char(a as int % 10)]);
        } else {
            assert(old(out)@ + hundredths2_seq(h as int) =~= old(out)@ + dec_seq(a as int / 100)
                + seq!['.'] + seq![digit_char((a as int / 10) % 10)] + seq![
                digit_char(a as int % 10),
            ]);
        }
    }
}

/// The rounded tenths of the average `sum / count`: the magnitude is rounded
/// half away from zero (meaningful for `count > 0`).
pub open spec fn avg_tenths(sum: int, count: int) -> int {
    let a = if sum < 0 {
        -sum
    } else {
        sum
    };
    (20 * a + count) / (2 * count)
}

/// The average `sum / count` rendered with one decimal place, rounded half
/// away from zero; a `-` is printed only when the rounded magnitude is
/// non-zero (`avg1_seq(4, 2) == "2.0"`, `avg1_seq(5, 3) == "1.7"`).
pub open spec fn avg1_seq(sum: int, count: int) -> Seq<char> {
    let t = avg_tenths(sum, count);
    if sum < 0 && t > 0 {
        seq!['-'] + dec_seq(t / 10) + seq!['.', digit_char(t % 10)]
    } else {
        dec_seq(t / 10) + seq!['.', digit_char(t % 10)]
    }
}

pub(crate) fn push_avg1(out: &mut String, sum: i128, count: usize)
    requires
        count > 0,
        -0x100000000000000000000000000 < sum < 0x100000000000000000000000000,
    ensures
        final(out)@ == old(out)@ + avg1_seq(sum as int, count as int),
{
    let a: u128 = if sum < 0 {
        (-sum) as u128
    } else {
        sum as u128
    };
    let t: u128 = (20 * a + count as u128) / (2 * (count as u128));
    if sum < 0 && t > 0 {
        push_minus(out);
    }
    push_u128(out, t / 10);
    push_dot(out);
    push_digit(out, (t % 10) as u8);
    proof {
        if sum < 0 && t > 0 {
            assert(old(out)@ + avg1_seq(sum as int, count as int) =~= old(out)@ + seq!['-']
                + dec_seq(t as int / 10) + seq!['.'] + seq![digit_char(t as int % 10)]);
        } else {
            assert(old(out)@ + avg1_seq(sum as int, count as int) =~= old(out)@ + dec_seq(
                t as int / 10,
            ) + seq!['.'] + seq![digit_char(t as int % 10)]);
        }
    }
}

} // verus!
