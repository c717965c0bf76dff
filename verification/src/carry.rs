//! The carries of the shifts, worked in a type wide enough that no step on
//! the way can run out of room: the year that is stepped, the days that are
//! rolled off year by year and month by month, and the counts that are split
//! into a carry and what is left.

use crate::calendar::{adjusted_year, is_leap, month_length, shifted_year, Moment};
use vstd::prelude::*;

verus! {

/// The widest year and the widest count of days that the rolling of days is
/// asked for: far beyond what a moment holds, far within the wide type.
pub(crate) const WIDE: i128 = 0x1_0000_0000_0000_0000_0000_0000;

/// The widest year that the counting of days between two moments arrives at.
pub(crate) const LONG: i128 = 0x1_0000_0000_0000_0000_0000;

/// The room that a single step of the year is given.
pub(crate) const YEAR_ROOM: i128 = 0x1_0000_0000_0000_0000_0000_0000_0000;

/// `base` moved to the first day of `month` in `year`.
spec fn first_of(base: Moment, year: int, month: int) -> Moment {
    Moment { year, month, day: 1, ..base }
}

/// Whether the year, counted with a year zero, is a leap year.
pub(crate) fn leap(y: i128) -> (b: bool)
    ensures
        b == is_leap(y as int),
{
    y % 4 == 0 && (y % 100 != 0 || y % 400 == 0)
}

/// The year counted with a year zero.
pub(crate) fn adjusted(year: i128) -> (a: i128)
    requires
        year < i128::MAX,
    ensures
        a == adjusted_year(year as int),
{
    if year < 0 {
        year + 1
    } else {
        year
    }
}

/// The year `delta` years away, stepping over the missing year zero.
pub(crate) fn step_year(year: i128, delta: i128) -> (y: i128)
    requires
        -YEAR_ROOM <= year <= YEAR_ROOM,
        -YEAR_ROOM <= delta <= YEAR_ROOM,
    ensures
        y == shifted_year(year as int, delta as int),
{
    if year < 0 {
        let moved: i128 = year + delta;
        if moved >= 0 {
            moved + 1
        } else {
            moved
        }
    } else if year > 0 {
        let moved: i128 = year + delta;
        if moved <= 0 {
            moved - 1
        } else {
            moved
        }
    } else {
        delta
    }
}

/// The number of days of the month; 0 for a month outside the twelve.
pub(crate) fn days_in_month(year: i128, month: u8) -> (n: i128)
    requires
        year < i128::MAX,
    ensures
        n == month_length(year as int, month as int),
{
    if month == 2 {
        if leap(adjusted(year)) {
            29
        } else {
            28
        }
    } else if month == 4 || month == 6 || month == 9 || month == 11 {
        30
    } else if 1 <= month && month <= 12 {
        31
    } else {
        0
    }
}

/// Counts `count` days from the first of `start_month` in `start_year`, the
/// first being day 1, and gives the year, month and day arrived at: whole
/// years are rolled off first, then whole months. `from` is the moment that
/// holds the count in its day field.
pub(crate) fn roll_days(
    start_year: i128,
    start_month: u8,
    count: i128,
    Ghost(from): Ghost<Moment>,
) -> (r: (i128, u8, u8))
    requires
        from.year == start_year,
        from.month == start_month,
        from.day == count,
        -WIDE <= start_year <= WIDE,
        -WIDE <= count <= WIDE,
    ensures
        from.add_days(0) == (Moment {
            year: r.0 as int,
            month: r.1 as int,
            day: r.2 as int,
            ..from
        }),
{
    let ghost first = Moment { day: 1, ..from };
    let ghost total: int = count as int;
    let mut year: i128 = start_year;
    let mut month: u8 = start_month;
    let mut rest: i128 = count;
    if rest >= 1 {
        loop
            invariant_except_break
                first.roll_years_forward(total) == first_of(
                    first,
                    year as int,
                    month as int,
                ).roll_years_forward(rest as int),
            invariant
                1 <= rest <= total <= WIDE,
                first.year <= year <= first.year + (total - rest),
                -WIDE <= first.year <= WIDE,
                month == first.month,
            ensures
                first.roll_years_forward(total) == (
                    first_of(first, year as int, month as int),
                    rest as int,
                ),
                rest <= 366,
            decreases rest,
        {
            let span: i128 = if leap(adjusted(year) + if month > 2 { 1i128 } else { 0i128 }) {
                366
            } else {
                365
            };
            if rest <= span {
                break ;
            }
            proof {
                let here = first_of(first, year as int, month as int);
                assert(here.add_years(1) == first_of(
                    first,
                    shifted_year(year as int, 1),
                    month as int,
                ));
                assert(here.roll_years_forward(rest as int) == here.add_years(
                    1,
                ).roll_years_forward(rest - span));
            }
            rest = rest - span;
            year = step_year(year, 1);
        }
        let ghost year_start = first_of(first, year as int, month as int);
        let ghost within_year: int = rest as int;
        loop
            invariant_except_break
                year_start.roll_months_forward(within_year) == first_of(
                    first,
                    year as int,
                    month as int,
                ).roll_months_forward(rest as int),
            invariant
                1 <= rest <= within_year <= 366,
                year_start.year <= year <= year_start.year + (within_year - rest) + (if 1
                    <= month <= 12 {
                    22int
                } else {
                    0int
                }),
                -WIDE - WIDE <= year_start.year <= WIDE + WIDE,
                    first.year <= year_start.year <= first.year + total,
            ensures
                year_start.roll_months_forward(within_year) == (
                    first_of(first, year as int, month as int),
                    rest as int,
                ),
                1 <= rest <= 31,
            decreases rest, (if 1 <= month <= 12 { 0int } else { 1int }),
        {
            let len: i128 = days_in_month(year, month);
            if rest <= len {
                break ;
            }
            proof {
                let here = first_of(first, year as int, month as int);
                assert(here.add_months(1) == first_of(
                    first,
                    shifted_year(year as int, (month as int) / 12),
                    (month as int) % 12 + 1,
                ));
                assert(here.roll_months_forward(rest as int) == here.add_months(
                    1,
                ).roll_months_forward(rest - len));
            }
            rest = rest - len;
            let (years, next) = split_months(month as i128 + 1);
            month = next;
            year = step_year(year, years);
        }
    } else {
        loop
            invariant_except_break
                first.roll_years_backward(total) == first_of(
                    first,
                    year as int,
                    month as int,
                ).roll_years_backward(rest as int),
            invariant
                -WIDE <= total <= rest <= 0,
                first.year - (rest - total) <= year <= first.year,
                -WIDE <= first.year <= WIDE,
                month == first.month,
            ensures
                first.roll_years_backward(total) == (
                    first_of(first, year as int, month as int),
                    rest as int,
                ),
                -366 <= rest <= 0,
            decreases -rest,
        {
            let span: i128 = if leap(adjusted(year) - if month <= 2 { 1i128 } else { 0i128 }) {
                366
            } else {
                365
            };
            if rest >= -span {
                break ;
            }
            proof {
                let here = first_of(first, year as int, month as int);
                assert(here.add_years(-1) == first_of(
                    first,
                    shifted_year(year as int, -1),
                    month as int,
                ));
                assert(here.roll_years_backward(rest as int) == here.add_years(
                    -1,
                ).roll_years_backward(rest + span));
            }
            rest = rest + span;
            year = step_year(year, -1);
        }
        let ghost year_start = first_of(first, year as int, month as int);
        let ghost within_year: int = rest as int;
        loop
            invariant_except_break
                year_start.roll_months_backward(within_year) == first_of(
                    first,
                    year as int,
                    month as int,
                ).roll_months_backward(rest as int),
            invariant
                -366 <= within_year <= rest <= 31,
                year_start.year - (rest - within_year) - 2 <= year <= year_start.year + 22,
                !(1 <= month <= 12) ==> year == year_start.year && rest == within_year,
                -WIDE - WIDE <= year_start.year <= WIDE + WIDE,
                    first.year + total <= year_start.year <= first.year,
            ensures
                year_start.roll_months_backward(within_year) == (
                    first_of(first, year as int, month as int),
                    rest as int,
                ),
                1 <= rest <= 31,
            decreases (if rest >= 1 { 0 } else { 1 - rest }),
        {
            if rest >= 1 {
                break ;
            }
            proof {
                let here = first_of(first, year as int, month as int);
                let prev = here.add_months(-1);
                assert(prev == first_of(
                    first,
                    shifted_year(year as int, (month as int - 2) / 12),
                    (month as int - 2) % 12 + 1,
                ));
                assert(here.roll_months_backward(rest as int) == prev.roll_months_backward(
                    rest + month_length(prev.year, prev.month),
                ));
            }
            let (years, prev) = split_months(month as i128 - 1);
            month = prev;
            year = step_year(year, years);
            rest = rest + days_in_month(year, month);
        }
    }
    (year, month, rest as u8)
}

/// Splits a count of hours into whole days and the hour of the day.
pub(crate) fn split_hours(total: i128) -> (r: (i128, u8))
    requires
        -WIDE - 255 <= total <= WIDE + 255,
    ensures
        r.0 == total / 24,
        r.1 == total % 24,
{
    let hour: i128 = total % 24;
    if hour < 0 {
        (total / 24 - 1, (hour + 24) as u8)
    } else {
        (total / 24, hour as u8)
    }
}

/// Splits a count of minutes or seconds into whole sixties and what is left.
pub(crate) fn split_sixty(total: i128) -> (r: (i128, u8))
    requires
        -WIDE - 255 <= total <= WIDE + 255,
    ensures
        r.0 == total / 60,
        r.1 == total % 60,
{
    let unit: i128 = total % 60;
    if unit < 0 {
        (total / 60 - 1, (unit + 60) as u8)
    } else {
        (total / 60, unit as u8)
    }
}

/// Splits a count of months, taken from month 1 of some year, into the years
/// it carries and the month of the year it lands in.
pub(crate) fn split_months(index: i128) -> (r: (i128, u8))
    requires
        -YEAR_ROOM <= index <= YEAR_ROOM,
    ensures
        r.0 == (index - 1) / 12,
        r.1 == (index - 1) % 12 + 1,
{
    let years: i128 = index / 12;
    let months: i128 = index % 12;
    if months < 1 {
        (years - 1, (months + 12) as u8)
    } else {
        (years, months as u8)
    }
}

} // verus!
