//! The fixed-width form of a moment: `YYYY-MM-DD`, then `hh:mm:ss`, then an
//! offset from UTC, each number at its place.

use crate::calendar::Moment;
use crate::datetime::Datetime;
use crate::day_count::{lemma_add_days_day_number, lemma_day_number_orders_dates};
use crate::decimal::{
    lemma_padded_is_read, lemma_short_number, parse_integer, read_integer, COLON, MINUS, PLUS,
};
use crate::laws::lemma_add_nothing;
use crate::reach::{lemma_add_hours_reach, lemma_add_minutes_reach, magnitude};
use crate::written::{lemma_written_places, moment_text};
use vstd::prelude::*;
use vstd::string::StringSliceAdditionalSpecFns;

verus! {

/// The first place at or after `from` that holds one of the two bytes; the
/// length of the text where none does.
pub open spec fn position(text: Seq<u8>, from: int, first: u8, second: u8) -> int
    decreases text.len() - from,
{
    if from < 0 || from >= text.len() {
        text.len() as int
    } else if text[from] == first || text[from] == second {
        from
    } else {
        position(text, from + 1, first, second)
    }
}

/// A number with its sign turned where `turn` says so.
pub open spec fn turned(value: int, turn: bool) -> int {
    if turn {
        -value
    } else {
        value
    }
}

/// The moment `at` shifted by the number that `text` holds from place `from`
/// up to the next `:` or the end, counted in hours or, where `minutes` says
/// so, in minutes, with its sign turned where `turn` says so.
pub open spec fn shifted_by_number(
    at: Moment,
    text: Seq<u8>,
    from: int,
    minutes: bool,
    turn: bool,
) -> Option<Moment> {
    match parse_integer(text.subrange(from, position(text, from, COLON, COLON))) {
        Some(value) => Some(
            if minutes {
                at.add_minutes(turned(value, turn))
            } else {
                at.add_hours(turned(value, turn))
            },
        ),
        None => None,
    }
}

/// The moment `at` with the offset from UTC taken out that `text` names
/// from place `from` on. The offset begins behind the first `+` or `-` and is
/// a number of hours, then, behind a `:`, a number of minutes. Behind `+` they
/// are taken away, behind `-` they are added. Without a sign there is no
/// offset; with one, the hours must be a number, and so must the minutes where
/// a `:` follows the hours.
pub open spec fn offset_removed(at: Moment, text: Seq<u8>, from: int) -> Option<Moment> {
    let sign = position(text, from, PLUS, MINUS);
    if sign >= text.len() {
        Some(at)
    } else {
        let plus = text[sign] == PLUS;
        let hours_end = position(text, sign + 1, COLON, COLON);
        match shifted_by_number(at, text, sign + 1, false, plus) {
            Some(shifted) => if hours_end >= text.len() {
                Some(shifted)
            } else {
                shifted_by_number(shifted, text, hours_end + 1, true, plus)
            },
            None => None,
        }
    }
}

/// The number of two bytes at place `at`.
pub open spec fn two_digits(text: Seq<u8>, at: int) -> Option<int> {
    parse_integer(text.subrange(at, at + 2))
}

/// The date that the first ten bytes of `text` name as `YYYY-MM-DD`, built
/// from the unset moment by shifting it by the year, by the month and by the
/// day in turn.
pub open spec fn parse_date(text: Seq<u8>) -> Option<Moment> {
    match (parse_integer(text.subrange(0, 4)), two_digits(text, 5), two_digits(text, 8)) {
        (Some(year), Some(month), Some(day)) => Some(
            Moment::unset().add_years(year).add_months(month).add_days(day),
        ),
        _ => None,
    }
}

/// `date` shifted by the time of day that bytes 11 to 18 of `text` name as
/// `hh:mm:ss`.
pub open spec fn parse_time(date: Moment, text: Seq<u8>) -> Option<Moment> {
    match (two_digits(text, 11), two_digits(text, 14), two_digits(text, 17)) {
        (Some(hour), Some(minute), Some(second)) => Some(
            date.add_hours(hour).add_minutes(minute).add_seconds(second),
        ),
        _ => None,
    }
}

/// The moment that `text` names in the fixed-width form `YYYY-MM-DD`, which
/// `hh:mm:ss` may follow one byte later, and an offset from UTC behind that.
/// The numbers stand at fixed places; the bytes between them are not looked
/// at. Each number shifts the moment, so a month 13 or a day 31 of a short
/// month is carried on. A text of fewer than 10 bytes names nothing, nor does
/// one with anything but a number at one of the places, and a text of fewer
/// than 19 bytes names a date alone.
pub open spec fn parse_rfc3339(text: Seq<u8>) -> Option<Moment> {
    if text.len() < 10 {
        None
    } else {
        match parse_date(text) {
            Some(date) => if text.len() < 19 {
                Some(date)
            } else {
                match parse_time(date, text) {
                    Some(at) => offset_removed(at, text, 19),
                    None => None,
                }
            },
            None => None,
        }
    }
}

/// The unset moment shifted by a year, a month and a day of a date that
/// exists, one after the other, is that date at midnight.
proof fn lemma_date_is_built(m: Moment)
    requires
        m.is_date(),
        m.year >= 1,
    ensures
        Moment::unset().add_years(m.year).add_months(m.month).add_days(m.day) == m.date_only(),
{
    let with_year = Moment::unset().add_years(m.year);
    assert(with_year == Moment { year: m.year, ..Moment::unset() });
    let with_month = with_year.add_months(m.month);
    assert(with_month == Moment { year: m.year, month: m.month, ..Moment::unset() });
    let built = with_month.add_days(m.day);
    lemma_add_days_day_number(with_month, m.day);
    lemma_day_number_orders_dates(built, m);
}

/// A date shifted by an hour, a minute and a second of a time of day, one
/// after the other, from midnight, is the date at that time.
proof fn lemma_time_is_built(m: Moment)
    requires
        m.well_formed(),
    ensures
        m.date_only().add_hours(m.hour).add_minutes(m.minute).add_seconds(m.second) == m,
{
    let date = m.date_only();
    lemma_add_nothing(date);
    let with_hour = date.add_hours(m.hour);
    assert(with_hour == Moment { hour: m.hour, ..date });
    lemma_add_nothing(with_hour);
    let with_minute = with_hour.add_minutes(m.minute);
    assert(with_minute == Moment { minute: m.minute, ..with_hour });
    lemma_add_nothing(with_minute);
}

/// Written and read again in the fixed-width form, a well-formed moment of
/// the years 1 to 9999 is what it was. The form has four places for the year
/// and none for the era, so no other year is read back.
pub proof fn lemma_fixed_round_trip(m: Moment)
    requires
        m.well_formed(),
        1 <= m.year <= 9999,
    ensures
        parse_rfc3339(moment_text(m)) == Some(m),
{
    let text = moment_text(m);
    lemma_written_places(m);
    lemma_padded_is_read(m.year as nat, 4);
    lemma_padded_is_read(m.month as nat, 2);
    lemma_padded_is_read(m.day as nat, 2);
    lemma_padded_is_read(m.hour as nat, 2);
    lemma_padded_is_read(m.minute as nat, 2);
    lemma_padded_is_read(m.second as nat, 2);
    lemma_date_is_built(m);
    lemma_time_is_built(m);
    assert(parse_date(text) == Some(m.date_only()));
    assert(parse_time(m.date_only(), text) == Some(m));
    assert(position(text, 19, PLUS, MINUS) == text.len());
}

/// Finds the first place at or after `from` that holds one of the two bytes.
fn find_either(text: &[u8], from: usize, first: u8, second: u8) -> (at: usize)
    requires
        from <= text@.len(),
    ensures
        at == position(text@, from as int, first, second),
        from <= at <= text@.len(),
{
    let mut at: usize = from;
    while at < text.len() && text[at] != first && text[at] != second
        invariant
            from <= at <= text@.len(),
            position(text@, from as int, first, second) == position(
                text@,
                at as int,
                first,
                second,
            ),
        decreases text@.len() - at,
    {
        at = at + 1;
    }
    at
}

/// Reads the date at the head of `text`.
fn read_date(text: &[u8]) -> (r: Option<Datetime>)
    requires
        text@.len() >= 10,
    ensures
        match parse_date(text@) {
            Some(moment) => r.is_some() && r.unwrap()@ == moment,
            None => r.is_none(),
        },
        r.is_some() ==> -20000 <= r.unwrap()@.year <= 20000,
{
    proof {
        lemma_short_number(text@.subrange(0, 4));
        lemma_short_number(text@.subrange(5, 7));
        lemma_short_number(text@.subrange(8, 10));
    }
    let year = match read_integer(text, 0, 4) {
        Some(value) => value,
        None => return None,
    };
    let month = match read_integer(text, 5, 7) {
        Some(value) => value,
        None => return None,
    };
    let day = match read_integer(text, 8, 10) {
        Some(value) => value,
        None => return None,
    };
    let mut dt = Datetime::default();
    dt.add_years(year);
    dt.add_months(month);
    dt.add_days(day);
    Some(dt)
}

/// Shifts `dt` by the time of day in `text`; `false` where there is none.
fn read_time(dt: &mut Datetime, text: &[u8]) -> (found: bool)
    requires
        text@.len() >= 19,
        -20000 <= old(dt)@.year <= 20000,
    ensures
        match parse_time(old(dt)@, text@) {
            Some(moment) => found && final(dt)@ == moment,
            None => !found,
        },
        found ==> -30000 <= final(dt)@.year <= 30000,
{
    proof {
        lemma_short_number(text@.subrange(11, 13));
        lemma_short_number(text@.subrange(14, 16));
        lemma_short_number(text@.subrange(17, 19));
    }
    let hour = match read_integer(text, 11, 13) {
        Some(value) => value,
        None => return false,
    };
    let minute = match read_integer(text, 14, 16) {
        Some(value) => value,
        None => return false,
    };
    let second = match read_integer(text, 17, 19) {
        Some(value) => value,
        None => return false,
    };
    dt.add_hours(hour);
    dt.add_minutes(minute);
    dt.add_seconds(second);
    true
}

/// Shifts `dt` by the number that `text` holds from place `from` up to the
/// next `:` or the end, and gives the place where the number ends; `None`
/// where there is no number.
fn shift_by_number(dt: &mut Datetime, text: &[u8], from: usize, minutes: bool, turn: bool) -> (end:
    Option<usize>)
    requires
        from <= text@.len(),
        -0x4000_0000_0000_0000 <= old(dt)@.year <= 0x4000_0000_0000_0000,
    ensures
        match shifted_by_number(old(dt)@, text@, from as int, minutes, turn) {
            Some(moment) => {
                &&& end.is_some()
                &&& end.unwrap() == position(text@, from as int, COLON, COLON)
                &&& from <= end.unwrap() <= text@.len()
                &&& final(dt)@ == moment
            },
            None => end.is_none(),
        },
        end.is_some() && !minutes ==> magnitude(final(dt)@.year - old(dt)@.year)
            <= 0x1000_0000_0000_0000,
{
    let to = find_either(text, from, COLON, COLON);
    let value: i128 = match read_integer(text, from, to) {
        Some(value) => if turn {
            -(value as i128)
        } else {
            value as i128
        },
        None => return None,
    };
    proof {
        dt.lemma_view_representable();
        lemma_add_hours_reach(dt@, value as int);
        lemma_add_minutes_reach(dt@, value as int);
    }
    if minutes {
        dt.shift_minutes(value);
    } else {
        dt.shift_hours(value);
    }
    Some(to)
}

/// Takes the offset from UTC in `text`, from place `from` on, out of `dt`;
/// `false` where there is a sign with something else than numbers behind it.
fn remove_offset(dt: &mut Datetime, text: &[u8], from: usize) -> (found: bool)
    requires
        from <= text@.len(),
        -30000 <= old(dt)@.year <= 30000,
    ensures
        match offset_removed(old(dt)@, text@, from as int) {
            Some(moment) => found && final(dt)@ == moment,
            None => !found,
        },
{
    let sign = find_either(text, from, PLUS, MINUS);
    if sign >= text.len() {
        return true;
    }
    let plus = text[sign] == PLUS;
    let hours_end = match shift_by_number(dt, text, sign + 1, false, plus) {
        Some(end) => end,
        None => return false,
    };
    if hours_end >= text.len() {
        return true;
    }
    shift_by_number(dt, text, hours_end + 1, true, plus).is_some()
}

impl Datetime {
    /// Reads a moment in the fixed-width form: `YYYY-MM-DD`, then, for a text
    /// of 19 bytes or more, `hh:mm:ss` one byte later, then an offset from UTC
    /// such as `+08:00`, which is taken out of the moment. `None` where the
    /// text is shorter than 10 bytes or holds anything but a number at one of
    /// the places.
    pub fn from_rfc3339(rfc: &str) -> (r: Option<Datetime>)
        ensures
            match parse_rfc3339(rfc.spec_bytes()) {
                Some(moment) => r.is_some() && r.unwrap()@ == moment,
                None => r.is_none(),
            },
    {
        let text = rfc.as_bytes();
        if text.len() < 10 {
            return None;
        }
        let mut dt = match read_date(text) {
            Some(date) => date,
            None => return None,
        };
        if text.len() < 19 {
            return Some(dt);
        }
        if !read_time(&mut dt, text) {
            return None;
        }
        if !remove_offset(&mut dt, text, 19) {
            return None;
        }
        Some(dt)
    }
}

} // verus!
