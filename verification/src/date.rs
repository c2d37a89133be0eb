//! A plain calendar date in the proleptic Gregorian calendar.
//!
//! Dates are held as year / month / day fields and range from 0000-01-01 to
//! 9999-12-31. Arithmetic goes through the day number: the count of days
//! since 0000-01-01, which day 0 stands for.

use vstd::prelude::*;

use crate::digits::digit_char;
use crate::digits::push_digit;

verus! {

/// A calendar date. `valid()` constrains the fields to a real date with a
/// year of at most 9999.
#[derive(Clone, Copy, PartialEq, Eq, Structural, Debug)]
pub struct Date {
    pub year: u16,
    pub month: u8,
    pub day: u8,
}

pub open spec fn is_leap_year(y: int) -> bool {
    (y % 4 == 0 && y % 100 != 0) || y % 400 == 0
}

pub open spec fn days_in_month(y: int, m: int) -> int {
    if m == 2 {
        if is_leap_year(y) {
            29
        } else {
            28
        }
    } else if m == 4 || m == 6 || m == 9 || m == 11 {
        30
    } else {
        31
    }
}

pub open spec fn days_in_year(y: int) -> int {
    if is_leap_year(y) {
        366
    } else {
        365
    }
}

/// Days of year `y` that lie before the first of month `m`.
pub open spec fn days_before_month(y: int, m: int) -> int
    decreases m,
{
    if m <= 1 {
        0
    } else {
        days_before_month(y, m - 1) + days_in_month(y, m - 1)
    }
}

/// Days that lie before January 1st of year `y`, counted from 0000-01-01.
pub open spec fn days_before_year(y: int) -> int
    decreases y,
{
    if y <= 0 {
        0
    } else {
        days_before_year(y - 1) + days_in_year(y - 1)
    }
}

/// The twelve months of a year add up to its length.
proof fn lemma_months_total(y: int)
    ensures
        days_before_month(y, 13) == days_in_year(y),
{
    reveal_with_fuel(days_before_month, 14);
}

pub(crate) fn leap_year(y: u16) -> (b: bool)
    ensures
        b == is_leap_year(y as int),
{
    (y % 4 == 0 && y % 100 != 0) || y % 400 == 0
}

pub(crate) fn month_days(y: u16, m: u8) -> (d: u8)
    requires
        1 <= m <= 12,
    ensures
        d as int == days_in_month(y as int, m as int),
{
    if m == 2 {
        if leap_year(y) {
            29
        } else {
            28
        }
    } else if m == 4 || m == 6 || m == 9 || m == 11 {
        30
    } else {
        31
    }
}

impl Date {
    pub open spec fn valid(self) -> bool {
        &&& 1 <= self.month <= 12
        &&& 1 <= self.day <= days_in_month(self.year as int, self.month as int)
        &&& self.year <= 9999
    }

    /// Days since 0000-01-01.
    pub open spec fn day_num(self) -> int {
        days_before_year(self.year as int) + days_before_month(self.year as int, self.month as int)
            + self.day - 1
    }

    /// The date rendered as `YYYY-MM-DD`.
    pub open spec fn iso_seq(self) -> Seq<char> {
        seq![
            digit_char(self.year as int / 1000),
            digit_char((self.year as int / 100) % 10),
            digit_char((self.year as int / 10) % 10),
            digit_char(self.year as int % 10),
            '-',
            digit_char(self.month as int / 10),
            digit_char(self.month as int % 10),
            '-',
            digit_char(self.day as int / 10),
            digit_char(self.day as int % 10),
        ]
    }

    /// Days since 0000-01-01, by summing whole years and then whole months.
    pub fn day_number(&self) -> (n: i64)
        requires
            self.valid(),
        ensures
            n == self.day_num(),
            0 <= n < 3700000,
    {
        let mut acc: i64 = 0;
        let mut y: u16 = 0;
        while y < self.year
            invariant
                y <= self.year,
                self.year <= 9999,
                acc == days_before_year(y as int),
                0 <= acc <= 366 * (y as int),
            decreases self.year - y,
        {
            acc = acc + if leap_year(y) {
                366
            } else {
                365
            };
            y = y + 1;
        }
        let mut m: u8 = 1;
        while m < self.month
            invariant
                1 <= m <= self.month,
                self.valid(),
                acc == days_before_year(self.year as int) + days_before_month(
                    self.year as int,
                    m as int,
                ),
                0 <= acc <= 366 * (self.year as int) + 31 * (m as int),
            decreases self.month - m,
        {
            acc = acc + month_days(self.year, m) as i64;
            m = m + 1;
        }
        acc + self.day as i64 - 1
    }

    /// The date one day earlier.
    pub fn prev_day(&self) -> (d: Date)
        requires
            self.valid(),
            self.day_num() >= 1,
        ensures
            d.valid(),
            d.day_num() == self.day_num() - 1,
    {
        if self.day > 1 {
            Date { year: self.year, month: self.month, day: self.day - 1 }
        } else if self.month > 1 {
            let pm = self.month - 1;
            let pd = month_days(self.year, pm);
            Date { year: self.year, month: pm, day: pd }
        } else {
            proof {
                lemma_months_total(self.year as int - 1);
            }
            Date { year: self.year - 1, month: 12, day: 31 }
        }
    }

    /// The date `n` days earlier.
    pub fn minus_days(&self, n: i64) -> (d: Date)
        requires
            self.valid(),
            0 <= n <= self.day_num(),
        ensures
            d.valid(),
            d.day_num() == self.day_num() - n,
    {
        let mut d = *self;
        let mut i: i64 = 0;
        while i < n
            invariant
                0 <= i <= n,
                d.valid(),
                d.day_num() == self.day_num() - i,
                n <= self.day_num(),
                self.valid(),
            decreases n - i,
        {
            d = d.prev_day();
            i = i + 1;
        }
        d
    }

    /// Appends the date as `YYYY-MM-DD` (zero padded) to `out`.
    pub fn push_iso(&self, out: &mut String)
        requires
            self.valid(),
        ensures
            final(out)@ == old(out)@ + self.iso_seq(),
    {
        push_digit(out, (self.year / 1000) as u8);
        push_digit(out, ((self.year / 100) % 10) as u8);
        push_digit(out, ((self.year / 10) % 10) as u8);
        push_digit(out, (self.year % 10) as u8);
        crate::digits::push_minus(out);
        push_digit(out, self.month / 10);
        push_digit(out, self.month % 10);
        crate::digits::push_minus(out);
        push_digit(out, self.day / 10);
        push_digit(out, self.day % 10);
        proof {
            assert(out@ =~= old(out)@ + self.iso_seq());
        }
    }
}

} // verus!
