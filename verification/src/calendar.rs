//! Verified Gregorian calendar arithmetic: conversion between a civil date
//! and its day number since the Unix epoch, in both directions, for the
//! years 1 through 9999.

use vstd::prelude::*;
use vstd::arithmetic::div_mod::{
    lemma_fundamental_div_mod,
    lemma_fundamental_div_mod_converse_div,
    lemma_mod_bound,
};

verus! {

/// Days from 0001-01-01 to 1970-01-01.
pub const EPOCH_SHIFT: i64 = 719162;

/// A calendar date in the trading-day sense: the grouping key of the
/// business-day resolver.
#[derive(Clone, Copy, PartialEq, Eq, Structural, Debug)]
pub struct BusinessDate {
    pub year: i64,
    pub month: i64,
    pub day: i64,
}

pub open spec fn is_leap_year(y: int) -> bool {
    y % 4 == 0 && (y % 100 != 0 || y % 400 == 0)
}

pub open spec fn days_in_month(y: int, m: int) -> int {
    if m == 2 {
        if is_leap_year(y) {
            29
        } else {
            28
        }
    } else if m == 4 || m == 6 || m == 9 || m == 11 {
        30
    } else {
        31
    }
}

pub open spec fn valid_date(y: int, m: int, d: int) -> bool {
    1 <= y <= 9999 && 1 <= m <= 12 && 1 <= d <= days_in_month(y, m)
}

impl BusinessDate {
    pub open spec fn wf(self) -> bool {
        valid_date(self.year as int, self.month as int, self.day as int)
    }

    /// The date as one eight-digit number.
    pub fn yyyymmdd(&self) -> (r: i64)
        requires
            self.wf(),
        ensures
            r == self.year * 10000 + self.month * 100 + self.day,
    {
        self.year * 10000 + self.month * 100 + self.day
    }
}

/// Days from 0001-01-01 to the first day of year `y`.
pub open spec fn days_before_year(y: int) -> int {
    365 * (y - 1) + (y - 1) / 4 - (y - 1) / 100 + (y - 1) / 400
}

/// Days from the first day of year `y` to the first day of month `m`.
pub open spec fn days_before_month(y: int, m: int) -> int
    decreases m,
{
    if m <= 1 {
        0
    } else {
        days_before_month(y, m - 1) + days_in_month(y, m - 1)
    }
}

/// The day number of a civil date, counted from 1970-01-01.
pub open spec fn epoch_day_of(y: int, m: int, d: int) -> int {
    days_before_year(y) + days_before_month(y, m) + (d - 1) - EPOCH_SHIFT
}

/// Dividing `y` rather than `y - 1` by a positive constant adds one
/// exactly when the constant divides `y`.
proof fn lemma_div_pred(y: int, c: int)
    requires
        c > 0,
    ensures
        y / c - (y - 1) / c == if y % c == 0 {
            1int
        } else {
            0int
        },
{
    let q = y / c;
    let r = y % c;
    lemma_fundamental_div_mod(y, c);
    lemma_mod_bound(y, c);
    if r == 0 {
        assert(y == c * q);
        assert(y - 1 == (q - 1) * c + (c - 1)) by {
            vstd::arithmetic::mul::lemma_mul_is_distributive_sub_other_way(c, q, 1);
            vstd::arithmetic::mul::lemma_mul_is_commutative(c, q);
        };
        lemma_fundamental_div_mod_converse_div(y - 1, c, q - 1, c - 1);
    } else {
        assert(y - 1 == q * c + (r - 1)) by {
            vstd::arithmetic::mul::lemma_mul_is_commutative(c, q);
        };
        lemma_fundamental_div_mod_converse_div(y - 1, c, q, r - 1);
    }
}

/// One year adds 365 days, or 366 in a leap year.
pub proof fn lemma_dby_next(y: int)
    ensures
        days_before_year(y + 1) == days_before_year(y) + 365 + if is_leap_year(y) {
            1int
        } else {
            0int
        },
{
    lemma_div_pred(y, 4);
    lemma_div_pred(y, 100);
    lemma_div_pred(y, 400);
    if y % 400 == 0 {
        assert(y % 4 == 0 && y % 100 == 0) by {
            vstd::arithmetic::div_mod::lemma_mod_mod(y, 4, 100);
            vstd::arithmetic::div_mod::lemma_mod_mod(y, 100, 4);
        };
    }
    if y % 100 == 0 {
        assert(y % 4 == 0) by {
            vstd::arithmetic::div_mod::lemma_mod_mod(y, 4, 25);
        };
    }
}

/// Later years never start earlier.
pub proof fn lemma_dby_monotone(y1: int, y2: int)
    requires
        y1 <= y2,
    ensures
        days_before_year(y1) <= days_before_year(y2),
        days_before_year(y2) - days_before_year(y1) >= 365 * (y2 - y1),
    decreases y2 - y1,
{
    if y1 < y2 {
        lemma_dby_monotone(y1, y2 - 1);
        lemma_dby_next(y2 - 1);
    }
}

/// The months of year `y` cover the whole year.
pub proof fn lemma_dbm_full(y: int)
    ensures
        days_before_month(y, 13) == 365 + if is_leap_year(y) {
            1int
        } else {
            0int
        },
{
    reveal_with_fuel(days_before_month, 14);
}

/// Closed-form day count before year `y`.
#[verifier::loop_isolation(false)]
fn days_before_year_exec(y: i64) -> (r: i64)
    requires
        1 <= y <= 10000,
    ensures
        r == days_before_year(y as int),
{
    let p: u64 = (y - 1) as u64;
    let r: u64 = 365 * p + p / 4 - p / 100 + p / 400;
    assert(p / 100 <= p / 4) by {
        vstd::arithmetic::div_mod::lemma_div_is_ordered_by_denominator(p as int, 4, 100);
        vstd::arithmetic::div_mod::lemma_div_pos_is_pos(p as int, 100);
    };
    assert(p / 4 <= p) by {
        vstd::arithmetic::div_mod::lemma_div_nonincreasing(p as int, 4);
    };
    r as i64
}

pub fn days_in_month_exec(y: i64, m: i64) -> (r: i64)
    requires
        1 <= y <= 9999,
    ensures
        r == days_in_month(y as int, m as int),
{
    if m == 2 {
        let leap = (y % 4 == 0) && (y % 100 != 0 || y % 400 == 0);
        if leap {
            29
        } else {
            28
        }
    } else if m == 4 || m == 6 || m == 9 || m == 11 {
        30
    } else {
        31
    }
}

/// The day number of a valid civil date.
#[verifier::loop_isolation(false)]
pub fn days_from_civil(y: i64, m: i64, d: i64) -> (r: i64)
    requires
        valid_date(y as int, m as int, d as int),
    ensures
        r == epoch_day_of(y as int, m as int, d as int),
{
    let before_year: i64 = days_before_year_exec(y);
    let mut before_month: i64 = 0;
    let mut mm: i64 = 1;
    while mm < m
        invariant
            1 <= mm <= m,
            before_month == days_before_month(y as int, mm as int),
            0 <= before_month <= 31 * (mm - 1),
        decreases m - mm,
    {
        before_month = before_month + days_in_month_exec(y, mm);
        mm = mm + 1;
    }
    assert(0 <= before_year <= 3652059) by {
        lemma_dby_monotone(1, y as int);
        lemma_dby_monotone(y as int, 10000);
        assert(days_before_year(1) == 0);
    };
    before_year + before_month + (d - 1) - EPOCH_SHIFT
}

/// The valid civil date with the given day number.
#[verifier::loop_isolation(false)]
pub fn civil_from_days(day: i64) -> (r: BusinessDate)
    requires
        epoch_day_of(1, 1, 1) <= day <= epoch_day_of(9999, 12, 31),
    ensures
        r.wf(),
        epoch_day_of(r.year as int, r.month as int, r.day as int) == day,
{
    proof {
        assert(days_before_year(1) == 0);
        assert(days_before_month(1, 1) == 0);
        lemma_dbm_full(9999);
        lemma_dby_next(9999);
        reveal_with_fuel(days_before_month, 14);
        assert(epoch_day_of(9999, 12, 31) == days_before_year(10000) - 1 - EPOCH_SHIFT);
        assert(days_before_year(10000) == 3652059);
    }
    let z: i64 = day + EPOCH_SHIFT;
    assert(0 <= z < days_before_year(10000));
    let mut y: i64 = 1;
    while days_before_year_exec(y + 1) <= z
        invariant
            1 <= y <= 9999,
            days_before_year(y as int) <= z < days_before_year(10000),
        decreases 9999 - y,
    {
        proof {
            if y + 1 > 9999 {
                assert(days_before_year(10000) <= z);
                assert(false);
            }
            lemma_dby_monotone(y as int, y as int + 1);
        }
        y = y + 1;
    }
    let before: i64 = days_before_year_exec(y);
    let mut rem: i64 = z - before;
    proof {
        lemma_dby_next(y as int);
        lemma_dbm_full(y as int);
    }
    assert(0 <= rem < days_before_month(y as int, 13));
    let mut m: i64 = 1;
    let mut before_m: i64 = 0;
    while m < 12 && before_m + days_in_month_exec(y, m) <= rem
        invariant
            1 <= m <= 12,
            before_m == days_before_month(y as int, m as int),
            0 <= before_m <= rem,
        decreases 12 - m,
    {
        before_m = before_m + days_in_month_exec(y, m);
        m = m + 1;
    }
    proof {
        if m == 12 {
            reveal_with_fuel(days_before_month, 14);
            assert(rem < before_m + days_in_month(y as int, m as int));
        }
    }
    let d: i64 = rem - before_m + 1;
    BusinessDate { year: y, month: m, day: d }
}

/// The valid civil date one day before the given one.
#[verifier::loop_isolation(false)]
pub fn previous_date(y: i64, m: i64, d: i64) -> (r: BusinessDate)
    requires
        valid_date(y as int, m as int, d as int),
        !(y == 1 && m == 1 && d == 1),
    ensures
        r.wf(),
        epoch_day_of(r.year as int, r.month as int, r.day as int) == epoch_day_of(
            y as int,
            m as int,
            d as int,
        ) - 1,
{
    if d > 1 {
        BusinessDate { year: y, month: m, day: d - 1 }
    } else if m > 1 {
        let pd: i64 = days_in_month_exec(y, m - 1);
        BusinessDate { year: y, month: m - 1, day: pd }
    } else {
        proof {
            lemma_dby_next(y - 1);
            lemma_dbm_full(y - 1);
            reveal_with_fuel(days_before_month, 14);
        }
        BusinessDate { year: y - 1, month: 12, day: 31 }
    }
}


/// Earlier months never start later in the year.
pub proof fn lemma_dbm_monotone(y: int, m1: int, m2: int)
    requires
        m1 <= m2,
    ensures
        days_before_month(y, m1) <= days_before_month(y, m2),
    decreases m2 - m1,
{
    if m1 < m2 {
        lemma_dbm_monotone(y, m1, m2 - 1);
    }
}

/// A valid date stays inside its year's day band.
proof fn lemma_year_band(y: int, m: int, d: int)
    requires
        valid_date(y, m, d),
    ensures
        0 <= days_before_month(y, m) + (d - 1) < days_before_month(y, 13),
{
    lemma_dbm_monotone(y, 1, m);
    lemma_dbm_monotone(y, m + 1, 13);
    assert(days_before_month(y, m + 1) == days_before_month(y, m) + days_in_month(y, m));
}

/// A valid date is determined by its day number.
pub proof fn lemma_epoch_day_injective(y1: int, m1: int, d1: int, y2: int, m2: int, d2: int)
    requires
        valid_date(y1, m1, d1),
        valid_date(y2, m2, d2),
        epoch_day_of(y1, m1, d1) == epoch_day_of(y2, m2, d2),
    ensures
        y1 == y2 && m1 == m2 && d1 == d2,
{
    lemma_year_band(y1, m1, d1);
    lemma_year_band(y2, m2, d2);
    if y1 < y2 {
        lemma_dby_next(y1);
        lemma_dbm_full(y1);
        lemma_dby_monotone(y1 + 1, y2);
        assert(false);
    }
    if y2 < y1 {
        lemma_dby_next(y2);
        lemma_dbm_full(y2);
        lemma_dby_monotone(y2 + 1, y1);
        assert(false);
    }
    if m1 < m2 {
        assert(days_before_month(y1, m1 + 1) == days_before_month(y1, m1) + days_in_month(y1, m1));
        lemma_dbm_monotone(y1, m1 + 1, m2);
        assert(false);
    }
    if m2 < m1 {
        assert(days_before_month(y1, m2 + 1) == days_before_month(y1, m2) + days_in_month(y1, m2));
        lemma_dbm_monotone(y1, m2 + 1, m1);
        assert(false);
    }
}

} // verus!
