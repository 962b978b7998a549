//! The proleptic Gregorian calendar, counted in days from 1970-01-01.

use vstd::prelude::*;

verus! {

/// Whether `y` is a leap year.
pub open spec fn is_leap_year(y: int) -> bool {
    (y % 4 == 0 && y % 100 != 0) || y % 400 == 0
}

/// The number of days of year `y`.
pub open spec fn year_length(y: int) -> int {
    if is_leap_year(y) {
        366
    } else {
        365
    }
}

/// The number of days of month `m` (1 to 12) of year `y`.
pub open spec fn month_length(y: int, m: int) -> int {
    if m == 2 {
        if is_leap_year(y) {
            29
        } else {
            28
        }
    } else if m == 4 || m == 6 || m == 9 || m == 11 {
        30
    } else {
        31
    }
}

/// The number of days of year `y` before the first day of month `m`.
pub open spec fn days_before_month(y: int, m: int) -> int
    decreases m,
{
    if m <= 1 {
        0
    } else {
        days_before_month(y, m - 1) + month_length(y, m - 1)
    }
}

/// The number of leap years from year 1 up to, not including, year `y` (negative below
/// year 1).
pub open spec fn leap_years_before(y: int) -> int {
    (y - 1) / 4 - (y - 1) / 100 + (y - 1) / 400
}

/// The day number of January 1 of year `y`, counted from 1970-01-01.
pub open spec fn days_before_year(y: int) -> int {
    365 * (y - 1970) + leap_years_before(y) - leap_years_before(1970)
}

/// The day number of a date, counted from 1970-01-01.
pub open spec fn days_from_civil(y: int, m: int, d: int) -> int {
    days_before_year(y) + days_before_month(y, m) + d - 1
}

/// Whether year, month and day name a date.
pub open spec fn valid_date(y: int, m: int, d: int) -> bool {
    1 <= m <= 12 && 1 <= d <= month_length(y, m)
}

/// The date of day number `days`: the one date whose day number it is.
pub open spec fn civil_date(days: int) -> (int, int, int) {
    choose|t: (int, int, int)| valid_date(t.0, t.1, t.2) && days_from_civil(t.0, t.1, t.2) == days
}

/// A year begins where the one before it ends.
pub proof fn lemma_year_step(y: int)
    ensures
        days_before_year(y + 1) == days_before_year(y) + year_length(y),
{
    assert((y / 4 - (y - 1) / 4) == (if y % 4 == 0 { 1int } else { 0int })) by (nonlinear_arith);
    assert((y / 100 - (y - 1) / 100) == (if y % 100 == 0 { 1int } else { 0int }))
        by (nonlinear_arith);
    assert((y / 400 - (y - 1) / 400) == (if y % 400 == 0 { 1int } else { 0int }))
        by (nonlinear_arith);
    assert(y % 400 == 0 ==> y % 100 == 0 && y % 4 == 0) by (nonlinear_arith);
    assert(y % 100 == 0 ==> y % 4 == 0) by (nonlinear_arith);
}

/// Four hundred years hold 146097 days.
pub proof fn lemma_era(y: int)
    ensures
        days_before_year(y + 400) == days_before_year(y) + 146097,
{
    assert((y + 399) / 4 == (y - 1) / 4 + 100) by (nonlinear_arith);
    assert((y + 399) / 100 == (y - 1) / 100 + 4) by (nonlinear_arith);
    assert((y + 399) / 400 == (y - 1) / 400 + 1) by (nonlinear_arith);
}

/// `q` eras after year `y` begin `146097 * q` days later.
pub proof fn lemma_eras(y: int, q: nat)
    ensures
        days_before_year(y + 400 * q) == days_before_year(y) + 146097 * q,
    decreases q,
{
    if q > 0 {
        lemma_eras(y, (q - 1) as nat);
        lemma_era(y + 400 * (q - 1));
        assert(y + 400 * (q - 1) + 400 == y + 400 * q);
    }
}

/// A year is as long as its twelve months.
pub proof fn lemma_months_fill_year(y: int)
    ensures
        days_before_month(y, 13) == year_length(y),
{
    reveal_with_fuel(days_before_month, 13);
}

/// The days before a month grow with the month.
pub proof fn lemma_days_before_month_mono(y: int, m1: int, m2: int)
    requires
        m1 <= m2,
    ensures
        days_before_month(y, m1) <= days_before_month(y, m2),
        1 <= m1 < m2 ==> days_before_month(y, m1) + month_length(y, m1) <= days_before_month(y, m2),
    decreases m2 - m1,
{
    if m1 < m2 {
        lemma_days_before_month_mono(y, m1, m2 - 1);
    }
}

/// The days before a year grow with the year.
pub proof fn lemma_days_before_year_mono(y1: int, y2: int)
    requires
        y1 < y2,
    ensures
        days_before_year(y1) + year_length(y1) <= days_before_year(y2),
    decreases y2 - y1,
{
    lemma_year_step(y1);
    if y1 + 1 < y2 {
        lemma_days_before_year_mono(y1 + 1, y2);
    }
}

/// The position of a valid date within its year lies inside the year.
pub proof fn lemma_day_of_year(y: int, m: int, d: int)
    requires
        valid_date(y, m, d),
    ensures
        0 <= days_before_month(y, m) + d - 1 < year_length(y),
{
    lemma_days_before_month_mono(y, 1, m);
    lemma_days_before_month_mono(y, m, 13);
    lemma_months_fill_year(y);
}

/// Different dates have different day numbers.
pub proof fn lemma_civil_unique(a: (int, int, int), b: (int, int, int))
    requires
        valid_date(a.0, a.1, a.2),
        valid_date(b.0, b.1, b.2),
        days_from_civil(a.0, a.1, a.2) == days_from_civil(b.0, b.1, b.2),
    ensures
        a == b,
{
    lemma_day_of_year(a.0, a.1, a.2);
    lemma_day_of_year(b.0, b.1, b.2);
    if a.0 < b.0 {
        lemma_days_before_year_mono(a.0, b.0);
    } else if b.0 < a.0 {
        lemma_days_before_year_mono(b.0, a.0);
    } else {
        if a.1 < b.1 {
            lemma_days_before_month_mono(a.0, a.1, b.1);
        } else if b.1 < a.1 {
            lemma_days_before_month_mono(a.0, b.1, a.1);
        }
    }
}

/// A date whose day number is `days` is the date of that day number.
pub proof fn lemma_civil_date(days: int, y: int, m: int, d: int)
    requires
        valid_date(y, m, d),
        days_from_civil(y, m, d) == days,
    ensures
        civil_date(days) == (y, m, d),
{
    let w = (y, m, d);
    assert(valid_date(w.0, w.1, w.2) && days_from_civil(w.0, w.1, w.2) == days);
    let t = civil_date(days);
    assert(valid_date(t.0, t.1, t.2) && days_from_civil(t.0, t.1, t.2) == days);
    lemma_civil_unique(t, (y, m, d));
}

/// A date with a non-negative day number lies in a year from 1970 on.
pub proof fn lemma_year_from_1970(y: int, m: int, d: int)
    requires
        valid_date(y, m, d),
        days_from_civil(y, m, d) >= 0,
    ensures
        y >= 1970,
{
    lemma_day_of_year(y, m, d);
    if y < 1970 {
        lemma_days_before_year_mono(y, 1970);
    }
}

/// A date whose day number lies between the first days of years `lo` and `hi` falls in a
/// year from `lo` up to, not including, `hi`.
pub proof fn lemma_year_between(y: int, m: int, d: int, lo: int, hi: int)
    requires
        valid_date(y, m, d),
        days_before_year(lo) <= days_from_civil(y, m, d) < days_before_year(hi),
    ensures
        lo <= y < hi,
{
    lemma_day_of_year(y, m, d);
    if y < lo {
        lemma_days_before_year_mono(y, lo);
    }
    if y > hi {
        lemma_days_before_year_mono(hi, y);
    }
}

} // verus!
