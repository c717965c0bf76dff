//! The day count that the shifts keep: a shift by days moves the day count by
//! their number, a shift by seconds the second count, and the counts order
//! the moments as their fields do.

use crate::calendar::{
    adjusted_year, days_before_month, days_before_year, is_leap, month_length, same_time,
    shifted_year, year_span_ahead, year_span_behind, Moment,
};
use vstd::prelude::*;

verus! {

/// Counting up by fours, the count rises exactly at the multiples of 4.
proof fn lemma_fours_step(a: int)
    ensures
        (a + 4) / 4 == (a + 3) / 4 + if a % 4 == 0 {
            1int
        } else {
            0int
        },
{
}

/// Counting up by hundreds, the count rises exactly at the multiples of 100.
proof fn lemma_hundreds_step(a: int)
    ensures
        (a + 100) / 100 == (a + 99) / 100 + if a % 100 == 0 {
            1int
        } else {
            0int
        },
{
}

/// Counting up by four hundreds, the count rises exactly at the multiples of
/// 400.
proof fn lemma_four_hundreds_step(a: int)
    ensures
        (a + 400) / 400 == (a + 399) / 400 + if a % 400 == 0 {
            1int
        } else {
            0int
        },
{
}

/// A multiple of 400 is a multiple of 100, and a multiple of 100 one of 4.
pub(crate) proof fn lemma_century_multiples(a: int)
    ensures
        a % 400 == 0 ==> a % 100 == 0,
        a % 100 == 0 ==> a % 4 == 0,
{
    if a % 400 == 0 {
        let q = a / 400;
        assert(a == 100 * (4 * q));
        assert((100 * (4 * q)) % 100 == 0) by (nonlinear_arith);
    }
    if a % 100 == 0 {
        let q = a / 100;
        assert(a == 4 * (25 * q));
        assert((4 * (25 * q)) % 4 == 0) by (nonlinear_arith);
    }
}

/// One year further on, the year begins 365 days later, or 366 after a leap
/// year.
pub proof fn lemma_days_before_next_year(a: int)
    ensures
        days_before_year(a + 1) == days_before_year(a) + 365 + if is_leap(a) {
            1int
        } else {
            0int
        },
{
    lemma_fours_step(a);
    lemma_hundreds_step(a);
    lemma_four_hundreds_step(a);
    lemma_century_multiples(a);
}

/// A shift by whole years moves the adjusted year by their number and never
/// arrives at year 0, as long as it does not start there.
pub proof fn lemma_shifted_year_is_addition(year: int, delta: int)
    requires
        year != 0,
    ensures
        shifted_year(year, delta) != 0,
        adjusted_year(shifted_year(year, delta)) == adjusted_year(year) + delta,
{
}

/// A shift forward by whole years moves the adjusted year by their number,
/// from the unset year 0 as well, and does not arrive at year 0 but where it
/// starts there and goes nowhere.
pub proof fn lemma_shifted_year_forward(year: int, delta: int)
    requires
        delta >= 0,
    ensures
        adjusted_year(shifted_year(year, delta)) == adjusted_year(year) + delta,
        year != 0 || delta > 0 ==> shifted_year(year, delta) != 0,
{
}

/// Within the twelve months, the first of the next month lies one month's
/// length after the first of this one.
proof fn lemma_days_before_next_month(leap: bool, month: int)
    requires
        1 <= month <= 11,
    ensures
        days_before_month(leap, month + 1) == days_before_month(leap, month) + if month == 2 {
            if leap {
                29int
            } else {
                28int
            }
        } else if month == 4 || month == 6 || month == 9 || month == 11 {
            30int
        } else {
            31int
        },
{
}

/// From the first of a month, one year on is one year's span of days on.
proof fn lemma_year_ahead(m: Moment)
    requires
        1 <= m.month <= 12,
        m.day == 1,
    ensures
        m.add_years(1).in_calendar(),
        m.add_years(1).year > m.year,
        m.add_years(1).month == m.month,
        m.add_years(1).day == 1,
        same_time(m.add_years(1), m),
        m.add_years(1).day_number() == m.day_number() + year_span_ahead(m.year, m.month),
{
    lemma_shifted_year_forward(m.year, 1);
    lemma_days_before_next_year(adjusted_year(m.year));
}

/// From the first of a month, one year back is one year's span of days back.
proof fn lemma_year_behind(m: Moment)
    requires
        m.in_calendar(),
        m.day == 1,
    ensures
        m.add_years(-1).in_calendar(),
        m.add_years(-1).month == m.month,
        m.add_years(-1).day == 1,
        same_time(m.add_years(-1), m),
        m.add_years(-1).day_number() == m.day_number() - year_span_behind(m.year, m.month),
{
    lemma_shifted_year_is_addition(m.year, -1);
    lemma_days_before_next_year(adjusted_year(m.year) - 1);
}

/// From the first of a month, one month on is that month's length on.
proof fn lemma_month_ahead(m: Moment)
    requires
        1 <= m.month <= 12,
        m.day == 1,
    ensures
        1 <= m.add_months(1).month <= 12,
        m.year != 0 ==> m.add_months(1).year != 0,
        m.add_months(1).year >= m.year,
        m.add_months(1).day == 1,
        same_time(m.add_months(1), m),
        m.add_months(1).day_number() == m.day_number() + month_length(m.year, m.month),
{
    if m.month == 12 {
        lemma_shifted_year_forward(m.year, 1);
        lemma_days_before_next_year(adjusted_year(m.year));
    } else {
        lemma_shifted_year_forward(m.year, 0);
        lemma_days_before_next_month(is_leap(adjusted_year(m.year)), m.month);
    }
}

/// From the first of a month, one month back is the earlier month's length
/// back.
proof fn lemma_month_behind(m: Moment)
    requires
        m.in_calendar(),
        m.day == 1,
    ensures
        m.add_months(-1).in_calendar(),
        m.add_months(-1).day == 1,
        same_time(m.add_months(-1), m),
        m.add_months(-1).day_number() == m.day_number() - month_length(
            m.add_months(-1).year,
            m.add_months(-1).month,
        ),
{
    if m.month == 1 {
        lemma_shifted_year_is_addition(m.year, -1);
        lemma_days_before_next_year(adjusted_year(m.year) - 1);
    } else {
        lemma_days_before_next_month(is_leap(adjusted_year(m.year)), m.month - 1);
    }
}

/// Rolling years forward keeps the day that is meant and stops within one
/// year of it.
proof fn lemma_roll_years_forward(m: Moment, rest: int)
    requires
        1 <= m.month <= 12,
        m.day == 1,
        rest >= 1,
    ensures
        ({
            let (at, within) = m.roll_years_forward(rest);
            &&& m.year != 0 ==> at.year != 0
            &&& at.year >= m.year
            &&& at.month == m.month
            &&& at.day == 1
            &&& same_time(at, m)
            &&& 1 <= within <= 366
            &&& at.day_number() + within == m.day_number() + rest
        }),
    decreases rest,
{
    let span = year_span_ahead(m.year, m.month);
    if rest > span {
        lemma_year_ahead(m);
        lemma_roll_years_forward(m.add_years(1), rest - span);
    }
}

/// Rolling months forward keeps the day that is meant and stops on a day of
/// the month reached.
proof fn lemma_roll_months_forward(m: Moment, rest: int)
    requires
        1 <= m.month <= 12,
        m.day == 1,
        rest >= 1,
    ensures
        ({
            let (at, day) = m.roll_months_forward(rest);
            &&& 1 <= at.month <= 12
            &&& m.year != 0 ==> at.year != 0
            &&& at.year >= m.year
            &&& at.day == 1
            &&& same_time(at, m)
            &&& 1 <= day <= month_length(at.year, at.month)
            &&& at.day_number() + day == m.day_number() + rest
        }),
    decreases rest,
{
    let len = month_length(m.year, m.month);
    if rest > len {
        lemma_month_ahead(m);
        lemma_roll_months_forward(m.add_months(1), rest - len);
    }
}

/// Rolling years backward keeps the day that is meant.
proof fn lemma_roll_years_backward(m: Moment, rest: int)
    requires
        m.in_calendar(),
        m.day == 1,
        rest <= 0,
    ensures
        ({
            let (at, within) = m.roll_years_backward(rest);
            &&& at.in_calendar()
            &&& at.month == m.month
            &&& at.day == 1
            &&& same_time(at, m)
            &&& -366 <= within <= 0
            &&& at.day_number() + within == m.day_number() + rest
        }),
    decreases -rest,
{
    let span = year_span_behind(m.year, m.month);
    if rest < -span {
        lemma_year_behind(m);
        lemma_roll_years_backward(m.add_years(-1), rest + span);
    }
}

/// Rolling months backward keeps the day that is meant and stops on a day of
/// the month reached.
proof fn lemma_roll_months_backward(m: Moment, rest: int)
    requires
        m.in_calendar(),
        m.day == 1,
        rest <= 0,
    ensures
        ({
            let (at, day) = m.roll_months_backward(rest);
            &&& at.in_calendar()
            &&& at.day == 1
            &&& same_time(at, m)
            &&& 1 <= day <= month_length(at.year, at.month)
            &&& at.day_number() + day == m.day_number() + rest
        }),
    decreases 1 - rest,
{
    let prev = m.add_months(-1);
    let next = rest + month_length(prev.year, prev.month);
    lemma_month_behind(m);
    if next < 1 {
        lemma_roll_months_backward(prev, next);
    } else {
        assert(prev.roll_months_backward(next) == (prev, next));
    }
}

/// A shift by days that does not go back behind the first of the month
/// moves the day count by their number, whatever the year, the unset year 0
/// too: the year 0 counts as the year before year 1. It arrives at a day of a
/// month, not in an earlier year, and leaves the time of day alone.
pub proof fn lemma_add_days_forward(m: Moment, delta: int)
    requires
        1 <= m.month <= 12,
        m.day + delta >= 1,
    ensures
        m.add_days(delta).on_a_day(),
        m.add_days(delta).year >= m.year,
        m.year != 0 ==> m.add_days(delta).year != 0,
        same_time(m.add_days(delta), m),
        m.add_days(delta).day_number() == m.day_number() + delta,
{
    let rest = m.day + delta;
    let first = Moment { day: 1, ..m };
    lemma_roll_years_forward(first, rest);
    let (year_start, within_year) = first.roll_years_forward(rest);
    lemma_roll_months_forward(year_start, within_year);
}

/// A shift by days moves the day count by their number, arrives at a date
/// that exists, and leaves the time of day alone. The day that the shift
/// starts from need not exist: it counts on from the first of its month.
pub proof fn lemma_add_days_day_number(m: Moment, delta: int)
    requires
        m.in_calendar(),
    ensures
        m.add_days(delta).is_date(),
        same_time(m.add_days(delta), m),
        m.add_days(delta).day_number() == m.day_number() + delta,
{
    let rest = m.day + delta;
    let first = Moment { day: 1, ..m };
    if rest >= 1 {
        lemma_add_days_forward(m, delta);
    } else {
        lemma_roll_years_backward(first, rest);
        let (year_start, within_year) = first.roll_years_backward(rest);
        lemma_roll_months_backward(year_start, within_year);
    }
}

/// Rolling years forward leaves at least one day to count and does not turn
/// the year back, nor further on than there were days.
proof fn lemma_roll_years_forward_bounds(m: Moment, rest: int)
    requires
        rest >= 1,
    ensures
        ({
            let (at, within) = m.roll_years_forward(rest);
            &&& at.month == m.month
            &&& same_time(at, m)
            &&& 1 <= within <= rest
            &&& m.year <= at.year <= m.year + (rest - within)
        }),
    decreases rest,
{
    let span = year_span_ahead(m.year, m.month);
    if rest > span {
        lemma_roll_years_forward_bounds(m.add_years(1), rest - span);
    }
}

/// Rolling months forward arrives at a day of one of the twelve months.
proof fn lemma_roll_months_forward_bounds(m: Moment, rest: int)
    requires
        rest >= 1,
    ensures
        ({
            let (at, day) = m.roll_months_forward(rest);
            &&& 1 <= at.month <= 12
            &&& same_time(at, m)
            &&& 1 <= day <= month_length(at.year, at.month)
            &&& day <= rest
            &&& 0 <= m.month <= 255 ==> m.year <= at.year <= m.year + (rest - day) + if 1
                <= m.month <= 12 {
                0int
            } else {
                22int
            }
        }),
    decreases rest, (if 1 <= m.month <= 12 { 0int } else { 1int }),
{
    let len = month_length(m.year, m.month);
    if rest > len {
        lemma_roll_months_forward_bounds(m.add_months(1), rest - len);
    }
}

/// Rolling years backward leaves a count that is not positive and does not
/// turn the year on, nor further back than there were days.
proof fn lemma_roll_years_backward_bounds(m: Moment, rest: int)
    requires
        rest <= 0,
    ensures
        ({
            let (at, within) = m.roll_years_backward(rest);
            &&& at.month == m.month
            &&& same_time(at, m)
            &&& rest <= within <= 0
            &&& m.year - (within - rest) <= at.year <= m.year
        }),
    decreases -rest,
{
    let span = year_span_behind(m.year, m.month);
    if rest < -span {
        lemma_roll_years_backward_bounds(m.add_years(-1), rest + span);
    }
}

/// Rolling months backward arrives at a day of one of the twelve months.
proof fn lemma_roll_months_backward_bounds(m: Moment, rest: int)
    requires
        rest <= 0,
    ensures
        ({
            let (at, day) = m.roll_months_backward(rest);
            &&& 1 <= at.month <= 12
            &&& same_time(at, m)
            &&& 1 <= day <= month_length(at.year, at.month)
            &&& 0 <= m.month <= 255 ==> m.year - (day - rest) <= at.year <= m.year + if 1
                <= m.month <= 12 {
                0int
            } else {
                22int
            }
        }),
    decreases 1 - rest,
{
    let prev = m.add_months(-1);
    let next = rest + month_length(prev.year, prev.month);
    assert(1 <= prev.month <= 12);
    if next < 1 {
        lemma_roll_months_backward_bounds(prev, next);
    } else {
        assert(prev.roll_months_backward(next) == (prev, next));
    }
}

/// Whatever a shift by days starts from, it leaves the time of day alone.
pub proof fn lemma_add_days_keeps_time(m: Moment, delta: int)
    ensures
        same_time(m.add_days(delta), m),
{
    let rest = m.day + delta;
    let first = Moment { day: 1, ..m };
    if rest >= 1 {
        lemma_roll_years_forward_bounds(first, rest);
        let (year_start, within_year) = first.roll_years_forward(rest);
        lemma_roll_months_forward_bounds(year_start, within_year);
    } else {
        lemma_roll_years_backward_bounds(first, rest);
        let (year_start, within_year) = first.roll_years_backward(rest);
        lemma_roll_months_backward_bounds(year_start, within_year);
    }
}

/// Whatever a shift by days starts from, it arrives at a day of one of the
/// twelve months. Where the month it starts from fits in a byte, the year it
/// arrives in lies no further from the year it started in than there were
/// days to count, give or take the years that a month beyond the twelve
/// carries.
pub proof fn lemma_add_days_lands(m: Moment, delta: int)
    ensures
        m.add_days(delta).on_a_day(),
        0 <= m.month <= 255 && m.day + delta >= 1 ==> m.year <= m.add_days(delta).year <= m.year
            + (m.day + delta) + 22,
        0 <= m.month <= 255 && m.day + delta < 1 ==> m.year + (m.day + delta) - 31
            <= m.add_days(delta).year <= m.year + 22,
{
    let rest = m.day + delta;
    let first = Moment { day: 1, ..m };
    if rest >= 1 {
        lemma_roll_years_forward_bounds(first, rest);
        let (year_start, within_year) = first.roll_years_forward(rest);
        lemma_roll_months_forward_bounds(year_start, within_year);
    } else {
        lemma_roll_years_backward_bounds(first, rest);
        let (year_start, within_year) = first.roll_years_backward(rest);
        lemma_roll_months_backward_bounds(year_start, within_year);
    }
}

/// The later of two years begins at least a whole year of days after the
/// earlier one.
proof fn lemma_days_before_year_grows(a: int, b: int)
    requires
        a < b,
    ensures
        days_before_year(b) >= days_before_year(a) + 365 + if is_leap(a) {
            1int
        } else {
            0int
        },
    decreases b - a,
{
    lemma_days_before_next_year(b - 1);
    if a < b - 1 {
        lemma_days_before_year_grows(a, b - 1);
    }
}

/// Among dates that exist, the earlier date has the lower day count.
pub proof fn lemma_day_number_orders_dates(a: Moment, b: Moment)
    requires
        a.is_date(),
        b.is_date(),
    ensures
        a.date_only().before(b.date_only()) <==> a.day_number() < b.day_number(),
        a.day_number() == b.day_number() <==> a.date_only() == b.date_only(),
{
    let ya = adjusted_year(a.year);
    let yb = adjusted_year(b.year);
    if ya < yb {
        lemma_days_before_year_grows(ya, yb);
    } else if yb < ya {
        lemma_days_before_year_grows(yb, ya);
    }
}

/// Going forward day by day from a date meets the later date `stop` exactly,
/// with one day counted for each day of the day count between them.
proof fn lemma_catch_up_meets(start: Moment, stop: Moment, count: int)
    requires
        start.is_date(),
        stop.is_date(),
        start == start.date_only(),
        stop == stop.date_only(),
    ensures
        ({
            let (reached, ahead) = start.catch_up(stop, count);
            &&& reached.is_date()
            &&& reached == reached.date_only()
            &&& reached.day_number() == if start.day_number() < stop.day_number() {
                stop.day_number()
            } else {
                start.day_number()
            }
            &&& ahead - count == reached.day_number() - start.day_number()
        }),
    decreases stop.day_number() - start.day_number(),
{
    lemma_day_number_orders_dates(start, stop);
    if start.before(stop) {
        lemma_add_days_day_number(start, 1);
        lemma_catch_up_meets(start.add_days(1), stop, count + 1);
    }
}

/// Going back day by day from a date meets the earlier date `stop` exactly.
proof fn lemma_fall_back_meets(start: Moment, stop: Moment, count: int)
    requires
        start.is_date(),
        stop.is_date(),
        start == start.date_only(),
        stop == stop.date_only(),
    ensures
        ({
            let (reached, behind) = start.fall_back(stop, count);
            &&& reached.is_date()
            &&& reached.day_number() == if stop.day_number() < start.day_number() {
                stop.day_number()
            } else {
                start.day_number()
            }
            &&& behind - count == reached.day_number() - start.day_number()
        }),
    decreases start.day_number() - stop.day_number(),
{
    lemma_day_number_orders_dates(stop, start);
    if stop.before(start) {
        lemma_add_days_day_number(start, -1);
        lemma_fall_back_meets(start.add_days(-1), stop, count - 1);
    }
}

/// From a moment in the calendar to a date that exists, the days counted are
/// the difference of the day counts.
pub proof fn lemma_days_since_is_difference(later: Moment, earlier: Moment)
    requires
        later.is_date(),
        earlier.in_calendar(),
    ensures
        later.days_since(earlier) == later.day_number() - earlier.day_number(),
{
    let stop = later.date_only();
    let start = earlier.date_only();
    let guess = (stop.year - start.year) * 365 + (stop.month - start.month) * 30 + stop.day
        - start.day;
    lemma_add_days_day_number(start, guess);
    let moved = start.add_days(guess);
    lemma_catch_up_meets(moved, stop, guess);
    let (reached, ahead) = moved.catch_up(stop, guess);
    lemma_fall_back_meets(reached, stop, ahead);
}

/// From a moment in the calendar to a date that exists, the seconds counted
/// are the difference of the second counts.
pub proof fn lemma_seconds_since_is_difference(later: Moment, earlier: Moment)
    requires
        later.is_date(),
        earlier.in_calendar(),
    ensures
        later.seconds_since(earlier) == later.second_number() - earlier.second_number(),
{
    lemma_days_since_is_difference(later, earlier);
}

/// A shift by months moves the count of months by their number and stays in
/// the calendar.
pub proof fn lemma_add_months_month_count(m: Moment, delta: int)
    requires
        m.in_calendar(),
    ensures
        m.add_months(delta).in_calendar(),
        same_time(m.add_months(delta), m),
        12 * adjusted_year(m.add_months(delta).year) + m.add_months(delta).month == 12
            * adjusted_year(m.year) + m.month + delta,
{
    let index = m.month + delta - 1;
    lemma_shifted_year_is_addition(m.year, index / 12);
}

/// A shift by hours moves the second count by 3600 for each hour and arrives
/// at a date that exists and an hour of the day.
pub proof fn lemma_add_hours_second_number(m: Moment, delta: int)
    requires
        m.in_calendar(),
    ensures
        m.add_hours(delta).is_date(),
        0 <= m.add_hours(delta).hour < 24,
        m.add_hours(delta).minute == m.minute,
        m.add_hours(delta).second == m.second,
        m.add_hours(delta).second_number() == m.second_number() + 3600 * delta,
{
    let total = m.hour + delta;
    lemma_add_days_day_number(m, total / 24);
}

/// A shift by minutes moves the second count by 60 for each minute and
/// arrives at a date that exists, an hour of the day and a minute of the hour.
pub proof fn lemma_add_minutes_second_number(m: Moment, delta: int)
    requires
        m.in_calendar(),
    ensures
        m.add_minutes(delta).is_date(),
        0 <= m.add_minutes(delta).hour < 24,
        0 <= m.add_minutes(delta).minute < 60,
        m.add_minutes(delta).second == m.second,
        m.add_minutes(delta).second_number() == m.second_number() + 60 * delta,
{
    let total = m.minute + delta;
    lemma_add_hours_second_number(m, total / 60);
}

/// A shift by seconds moves the second count by their number and arrives at
/// a well-formed moment.
pub proof fn lemma_add_seconds_second_number(m: Moment, delta: int)
    requires
        m.in_calendar(),
    ensures
        m.add_seconds(delta).well_formed(),
        m.add_seconds(delta).second_number() == m.second_number() + delta,
{
    let total = m.second + delta;
    lemma_add_minutes_second_number(m, total / 60);
}

/// Among well-formed moments, the earlier moment has the lower second count,
/// and no two moments share one.
pub proof fn lemma_second_number_orders_moments(a: Moment, b: Moment)
    requires
        a.well_formed(),
        b.well_formed(),
    ensures
        a.before(b) <==> a.second_number() < b.second_number(),
        a.second_number() == b.second_number() <==> a == b,
{
    lemma_day_number_orders_dates(a, b);
}

/// A shift by days arrives at the one date whose day count is that many
/// more: to know where a shift arrives, name the date and count its days.
pub proof fn lemma_add_days_arrives_at(m: Moment, delta: int, at: Moment)
    requires
        m.in_calendar(),
        at.is_date(),
        same_time(at, m),
        at.day_number() == m.day_number() + delta,
    ensures
        m.add_days(delta) == at,
{
    lemma_add_days_day_number(m, delta);
    lemma_day_number_orders_dates(m.add_days(delta), at);
}

/// A shift by seconds arrives at the one well-formed moment whose second
/// count is that many more.
pub proof fn lemma_add_seconds_arrives_at(m: Moment, delta: int, at: Moment)
    requires
        m.in_calendar(),
        at.well_formed(),
        at.second_number() == m.second_number() + delta,
    ensures
        m.add_seconds(delta) == at,
{
    lemma_add_seconds_second_number(m, delta);
    lemma_second_number_orders_moments(m.add_seconds(delta), at);
}

} // verus!
