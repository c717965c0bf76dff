//! How far a shift can move the year: what a caller needs to know that the
//! year arrived at can be held.

use crate::calendar::Moment;
use crate::day_count::{lemma_add_days_keeps_time, lemma_add_days_lands};
use vstd::prelude::*;

verus! {

/// The size of a number, its sign left out.
pub open spec fn magnitude(n: int) -> int {
    if n < 0 {
        -n
    } else {
        n
    }
}

/// How far a shift by years moves the year: by their number, and one more
/// where it steps over the missing year zero.
pub proof fn lemma_add_years_reach(m: Moment, delta: int)
    ensures
        magnitude(m.add_years(delta).year - m.year) <= magnitude(delta) + 1,
{
}

/// How far a shift by months moves the year, from a moment whose fields lie
/// within bytes.
pub proof fn lemma_add_months_reach(m: Moment, delta: int)
    requires
        m.fields_in_bytes(),
    ensures
        magnitude(m.add_months(delta).year - m.year) <= magnitude(delta) / 12 + 24,
{
}

/// How far a shift by days moves the year, from a moment whose fields lie
/// within bytes.
pub proof fn lemma_add_days_reach(m: Moment, delta: int)
    requires
        m.fields_in_bytes(),
    ensures
        magnitude(m.add_days(delta).year - m.year) <= magnitude(delta) + 300,
        m.add_days(delta).fields_in_bytes(),
{
    lemma_add_days_lands(m, delta);
    lemma_add_days_keeps_time(m, delta);
}

/// How far a shift by hours moves the year, from a moment whose fields lie
/// within bytes.
pub proof fn lemma_add_hours_reach(m: Moment, delta: int)
    requires
        m.fields_in_bytes(),
    ensures
        magnitude(m.add_hours(delta).year - m.year) <= magnitude(delta) / 24 + 300,
        m.add_hours(delta).fields_in_bytes(),
{
    let days = (m.hour + delta) / 24;
    lemma_add_days_lands(m, days);
    lemma_add_days_keeps_time(m, days);
}

/// How far a shift by minutes moves the year, from a moment whose fields lie
/// within bytes.
pub proof fn lemma_add_minutes_reach(m: Moment, delta: int)
    requires
        m.fields_in_bytes(),
    ensures
        magnitude(m.add_minutes(delta).year - m.year) <= magnitude(delta) / 1440 + 300,
        m.add_minutes(delta).fields_in_bytes(),
{
    let hours = (m.minute + delta) / 60;
    let days = (m.hour + hours) / 24;
    lemma_add_days_lands(m, days);
    lemma_add_days_keeps_time(m, days);
}

/// How far a shift by seconds moves the year, from a moment whose fields lie
/// within bytes.
pub proof fn lemma_add_seconds_reach(m: Moment, delta: int)
    requires
        m.fields_in_bytes(),
    ensures
        magnitude(m.add_seconds(delta).year - m.year) <= magnitude(delta) / 86400 + 300,
        m.add_seconds(delta).fields_in_bytes(),
{
    let minutes = (m.second + delta) / 60;
    let hours = (m.minute + minutes) / 60;
    let days = (m.hour + hours) / 24;
    lemma_add_days_lands(m, days);
    lemma_add_days_keeps_time(m, days);
}

} // verus!
