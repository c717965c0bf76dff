//! The laws of the shifts: what holds of every moment, whichever amounts it is
//! shifted by.

use crate::calendar::{adjusted_year, is_leap, shifted_year, Moment};
use crate::day_count::{
    lemma_add_days_day_number, lemma_add_days_keeps_time, lemma_add_hours_second_number,
    lemma_add_minutes_second_number, lemma_add_months_month_count,
    lemma_add_seconds_second_number, lemma_seconds_since_is_difference,
    lemma_shifted_year_is_addition,
};
use vstd::prelude::*;

verus! {

/// Moments are in one line: none comes before itself, of two different ones
/// exactly one comes before the other, and what comes before an earlier one
/// comes before the later one too.
pub proof fn lemma_before_orders_moments(a: Moment, b: Moment, c: Moment)
    ensures
        !a.before(a),
        a.before(b) || b.before(a) || a == b,
        !(a.before(b) && b.before(a)),
        a.before(b) && b.before(c) ==> a.before(c),
{
}

/// Every shift arrives at a well-formed moment where it starts from one: the
/// steady state of a moment is kept.
pub proof fn lemma_shifts_keep_well_formed(m: Moment, delta: int)
    requires
        m.well_formed(),
    ensures
        m.add_years(delta).well_formed(),
        m.add_months(delta).well_formed(),
        m.add_days(delta).well_formed(),
        m.add_hours(delta).well_formed(),
        m.add_minutes(delta).well_formed(),
        m.add_seconds(delta).well_formed(),
{
    lemma_shifted_year_is_addition(m.year, delta);
    lemma_add_months_month_count(m, delta);
    lemma_add_days_day_number(m, delta);
    lemma_add_hours_second_number(m, delta);
    lemma_add_minutes_second_number(m, delta);
    lemma_add_seconds_second_number(m, delta);
}

/// Years added and taken away again restore the moment, as long as its year
/// is set, but for the day of a 29 February: it is restored only where both
/// the year passed through and the year returned to are leap years, and is
/// 28 February otherwise.
pub proof fn lemma_add_years_round_trip(m: Moment, delta: int)
    requires
        m.year != 0,
    ensures
        !(m.month == 2 && m.day > 28) ==> m.add_years(delta).add_years(-delta) == m,
        m.month == 2 && m.day > 28 ==> m.add_years(delta).add_years(-delta) == (Moment {
            day: if is_leap(adjusted_year(shifted_year(m.year, delta))) && is_leap(
                adjusted_year(m.year),
            ) {
                29
            } else {
                28
            },
            ..m
        }),
{
    lemma_shifted_year_is_addition(m.year, delta);
    lemma_shifted_year_is_addition(shifted_year(m.year, delta), -delta);
}

/// From the unset year 0, years added and taken away again do not return to
/// year 0: they arrive at year -1 from above and at year 1 from below.
pub proof fn lemma_add_years_round_trip_from_unset(m: Moment, delta: int)
    requires
        m.year == 0,
    ensures
        m.add_years(delta).add_years(-delta).year == if delta > 0 {
            -1int
        } else if delta < 0 {
            1int
        } else {
            0int
        },
{
}

/// A shift by nothing leaves a moment as it is, whichever field it is
/// measured in, as long as the day is a day of its month and the time a time
/// of day.
pub proof fn lemma_add_nothing(m: Moment)
    requires
        m.on_a_day(),
        m.is_time(),
    ensures
        m.add_years(0) == m,
        m.add_months(0) == m,
        m.add_days(0) == m,
        m.add_hours(0) == m,
        m.add_minutes(0) == m,
        m.add_seconds(0) == m,
{
    let first = Moment { day: 1, ..m };
    assert(first.roll_years_forward(m.day) == (first, m.day));
    assert(first.roll_months_forward(m.day) == (first, m.day));
    assert(m.add_days(0) == m);
    assert(m.add_months(0) == m);
}

/// A shift by the seconds of one day is a shift by one day, whatever the
/// date, as long as the time is a time of day.
pub proof fn lemma_day_of_seconds(m: Moment)
    requires
        m.is_time(),
    ensures
        m.add_seconds(86400) == m.add_days(1),
{
    let minutes = (m.second + 86400) / 60;
    assert(minutes == 1440);
    let hours = (m.minute + minutes) / 60;
    assert(hours == 24);
    let days = (m.hour + hours) / 24;
    assert(days == 1);
    lemma_add_days_keeps_time(m, 1);
}

/// The seconds from one date to another are the seconds back with the sign
/// turned, where both dates exist.
pub proof fn lemma_seconds_since_antisymmetric(a: Moment, b: Moment)
    requires
        a.is_date(),
        b.is_date(),
    ensures
        a.seconds_since(b) == -b.seconds_since(a),
{
    lemma_seconds_since_is_difference(a, b);
    lemma_seconds_since_is_difference(b, a);
}

} // verus!
