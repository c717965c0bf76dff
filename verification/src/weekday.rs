//! The day of the week: the congruence agrees with the day count, and so the
//! day of the week comes round every seven days.

use crate::calendar::{days_before_year, is_leap, Moment};
use crate::day_count::{lemma_add_days_forward, lemma_century_multiples};
use vstd::prelude::*;

verus! {

/// The hundreds of a year, counted in fours, are its four hundreds; and the
/// years of its century, counted in fours, are the fours of the year less 25
/// for each hundred.
proof fn lemma_century_split(y: int)
    requires
        y >= 0,
    ensures
        (y / 100) / 4 == y / 400,
        (y - 100 * (y / 100)) / 4 == y / 4 - 25 * (y / 100),
{
}

/// Counting by fours, by hundreds and by four hundreds, a year counts one
/// more than the year before it exactly where it is a multiple.
proof fn lemma_multiples_below(y: int)
    ensures
        y / 4 == (y - 1) / 4 + if y % 4 == 0 {
            1int
        } else {
            0int
        },
        y / 100 == (y - 1) / 100 + if y % 100 == 0 {
            1int
        } else {
            0int
        },
        y / 400 == (y - 1) / 400 + if y % 400 == 0 {
            1int
        } else {
            0int
        },
{
}

/// The days before a year, counted by the leap years up to the year before
/// it.
proof fn lemma_days_before_year_by_last(y: int)
    ensures
        days_before_year(y) == 365 * y + (y - 1) / 4 - (y - 1) / 100 + (y - 1) / 400 + 1,
{
    assert((y + 3) / 4 == (y - 1) / 4 + 1);
    assert((y + 99) / 100 == (y - 1) / 100 + 1);
    assert((y + 399) / 400 == (y - 1) / 400 + 1);
}

/// The days before a year, counted by the leap years up to the year itself,
/// with the year's own leap day taken off again.
proof fn lemma_days_before_year_by_own(y: int)
    ensures
        days_before_year(y) == 365 * y + y / 4 - y / 100 + y / 400 + 1 - if is_leap(y) {
            1int
        } else {
            0int
        },
{
    lemma_days_before_year_by_last(y);
    lemma_multiples_below(y);
    lemma_century_multiples(y);
}

/// The weeks between the day count of a date from 1 March of year 0 on, with
/// 5 added, and the sum of the congruence for its day of the week.
spec fn weeks_between(m: Moment) -> int {
    let year = if m.month < 3 {
        m.year - 1
    } else {
        m.year
    };
    52 * m.year + 17 * (year / 100) + if m.month == 1 {
        -3int
    } else if m.month == 2 {
        1
    } else {
        4 * m.month - 3
    }
}

/// The sum of the congruence for the day of the week, from 1 March of year 0
/// on, is the day count with 5 added, less whole weeks.
proof fn lemma_weekday_sum(m: Moment)
    requires
        m.has_weekday(),
    ensures
        m.weekday_sum() >= 0,
        m.day_number() + 5 - m.weekday_sum() == 7 * weeks_between(m),
{
    let year = if m.month < 3 {
        m.year - 1
    } else {
        m.year
    };
    lemma_century_split(year);
    if m.month < 3 {
        lemma_days_before_year_by_last(m.year);
    } else {
        lemma_days_before_year_by_own(m.year);
    }
}

/// Of two days of months in one year, the one with the higher day count does
/// not lie in an earlier month.
proof fn lemma_later_in_year(a: Moment, b: Moment)
    requires
        a.on_a_day(),
        b.on_a_day(),
        a.year == b.year,
        a.day_number() < b.day_number(),
    ensures
        a.month <= b.month,
{
}

/// From 1 March of year 0 on, the index of the day of the week is the day
/// count, less 2, modulo 7: the day of the week goes on by one with each day.
pub proof fn lemma_weekday_is_day_number(m: Moment)
    requires
        m.has_weekday(),
    ensures
        m.weekday_index() == (m.day_number() + 5) % 7,
{
    lemma_weekday_sum(m);
    let sum = m.weekday_sum();
    let weeks = weeks_between(m);
    assert((sum + 7 * weeks) % 7 == sum % 7);
}

/// Two day counts that lie seven apart leave the same remainder.
proof fn lemma_week_apart(a: int, b: int)
    requires
        b == a + 7,
    ensures
        (a + 5) % 7 == (b + 5) % 7,
{
}

/// Seven days on, the day of the week is the same, from 1 March of year 0
/// on.
pub proof fn lemma_weekday_period(m: Moment)
    requires
        m.has_weekday(),
    ensures
        m.add_days(7).has_weekday(),
        m.add_days(7).weekday_index() == m.weekday_index(),
{
    let later = m.add_days(7);
    assert(later.has_weekday() && later.day_number() == m.day_number() + 7) by {
        lemma_add_days_forward(m, 7);
        if later.year == m.year {
            lemma_later_in_year(m, later);
        }
    }
    assert(m.weekday_index() == (m.day_number() + 5) % 7) by {
        lemma_weekday_is_day_number(m);
    }
    assert(later.weekday_index() == (later.day_number() + 5) % 7) by {
        lemma_weekday_is_day_number(later);
    }
    lemma_week_apart(m.day_number(), later.day_number());
}

} // verus!
