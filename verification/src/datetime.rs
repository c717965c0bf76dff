//! The executable moment: six machine-sized fields, shifted in place.
//!
//! Every shift is stated against the model in `calendar`: the moment after
//! the call is the model's shift of the moment before it. A shift asks only
//! that the year it arrives at can be held; the steps on the way are taken in
//! a wider type.

use crate::calendar::{adjusted_year, month_length, weekday_name, Moment};
use crate::carry::{
    adjusted, leap, roll_days, split_hours, split_months, split_sixty, step_year, LONG, WIDE,
    YEAR_ROOM,
};
use crate::day_count::{
    lemma_add_days_day_number, lemma_add_days_forward, lemma_add_days_lands,
    lemma_add_hours_second_number, lemma_add_minutes_second_number,
    lemma_add_months_month_count, lemma_add_seconds_second_number,
    lemma_seconds_since_is_difference, lemma_shifted_year_is_addition,
};
use crate::laws::lemma_shifts_keep_well_formed;
use crate::reach::{
    lemma_add_days_reach, lemma_add_hours_reach, lemma_add_minutes_reach, lemma_add_months_reach,
    lemma_add_seconds_reach, lemma_add_years_reach, magnitude,
};
use crate::weekday::lemma_weekday_is_day_number;
use std::time::{Duration, SystemTime};
use vstd::prelude::*;

verus! {

/// A calendar moment: year, month, day, hour, minute and second. The year is
/// negative before the common era and is never 0 once it has been set; the
/// other fields hold whatever they were given until a shift carries them.
#[derive(Clone, Copy, Debug, PartialEq, Eq, Structural)]
pub struct Datetime {
    year: i64,
    month: u8,
    day: u8,
    hour: u8,
    minute: u8,
    second: u8,
}

impl View for Datetime {
    type V = Moment;

    /// The moment that the fields hold.
    closed spec fn view(&self) -> Moment {
        Moment {
            year: self.year as int,
            month: self.month as int,
            day: self.day as int,
            hour: self.hour as int,
            minute: self.minute as int,
            second: self.second as int,
        }
    }
}

/// Whether a year can be held in the year field.
pub open spec fn year_fits(year: int) -> bool {
    i64::MIN <= year <= i64::MAX
}

/// Whether the year of a moment lies further than `count` years and 300 more
/// from the first and from the last year that can be held. With that much
/// room a shift by `count` of any unit arrives at a year that can be held
/// (`reach`).
pub open spec fn has_margin(m: Moment, count: int) -> bool {
    year_fits(m.year - magnitude(count) - 300) && year_fits(m.year + magnitude(count) + 300)
}

/// Whether a moment can be held: the year in the year field, each other field
/// in one byte.
pub open spec fn representable(m: Moment) -> bool {
    year_fits(m.year) && m.fields_in_bytes()
}

/// `Duration::as_secs` of std: the whole seconds of a span of time. Nothing
/// is claimed of the number.
pub assume_specification[ Duration::as_secs ](duration: &Duration) -> (seconds: u64)
;

impl Default for Datetime {
    /// The moment with every field 0: no year, no month, no day yet.
    fn default() -> (r: Datetime)
        ensures
            r@ == Moment::unset(),
    {
        Datetime { year: 0, month: 0, day: 0, hour: 0, minute: 0, second: 0 }
    }
}

/// A moment on its way through a shift: the fields of a `Datetime`, with
/// room in the year for every step.
#[derive(Clone, Copy)]
struct Wide {
    year: i128,
    month: u8,
    day: u8,
    hour: u8,
    minute: u8,
    second: u8,
}

impl View for Wide {
    type V = Moment;

    /// The moment that the fields hold.
    closed spec fn view(&self) -> Moment {
        Moment {
            year: self.year as int,
            month: self.month as int,
            day: self.day as int,
            hour: self.hour as int,
            minute: self.minute as int,
            second: self.second as int,
        }
    }
}

impl Wide {
    /// Whether the year and a count lie within the room that a shift has.
    spec fn has_room(&self, count: i128) -> bool {
        -WIDE <= self.year <= WIDE && -LONG <= count <= LONG
    }

    /// The moment, where its year can be held.
    fn narrow(self) -> (dt: Datetime)
        requires
            year_fits(self@.year),
        ensures
            dt@ == self@,
    {
        Datetime {
            year: self.year as i64,
            month: self.month,
            day: self.day,
            hour: self.hour,
            minute: self.minute,
            second: self.second,
        }
    }

    /// The moment, or `None` where its year cannot be held.
    fn narrowed(self) -> (r: Option<Datetime>)
        ensures
            match r {
                Some(dt) => dt@ == self@,
                None => !year_fits(self@.year),
            },
    {
        if -0x8000_0000_0000_0000 <= self.year && self.year <= 0x7fff_ffff_ffff_ffff {
            Some(self.narrow())
        } else {
            None
        }
    }

    /// The date alone, at midnight.
    fn at_midnight(self) -> (r: Wide)
        ensures
            r@ == self@.date_only(),
    {
        Wide { hour: 0, minute: 0, second: 0, ..self }
    }

    /// Whether `self` comes before `other`, field by field from the year down.
    fn before(&self, other: &Wide) -> (r: bool)
        ensures
            r == self@.before(other@),
    {
        if self.year != other.year {
            self.year < other.year
        } else if self.month != other.month {
            self.month < other.month
        } else if self.day != other.day {
            self.day < other.day
        } else if self.hour != other.hour {
            self.hour < other.hour
        } else if self.minute != other.minute {
            self.minute < other.minute
        } else {
            self.second < other.second
        }
    }

    /// The day pulled back to the last that February has, where it lies
    /// beyond.
    fn pull_into_february(&mut self)
        requires
            -YEAR_ROOM <= old(self).year <= YEAR_ROOM,
        ensures
            final(self)@ == (Moment {
                day: if old(self)@.month == 2 && old(self)@.day > 28 {
                    month_length(old(self)@.year, 2)
                } else {
                    old(self)@.day
                },
                ..old(self)@
            }),
    {
        if self.month == 2 && self.day > 28 {
            if leap(adjusted(self.year)) {
                self.day = 29;
            } else {
                self.day = 28;
            }
        }
    }

    /// The moment `years` years away.
    fn add_years(self, years: i128) -> (r: Wide)
        requires
            self.has_room(years),
        ensures
            r@ == self@.add_years(years as int),
    {
        let mut moved = self;
        moved.year = step_year(self.year, years);
        moved.pull_into_february();
        moved
    }

    /// The moment `months` months away.
    fn add_months(self, months: i128) -> (r: Wide)
        requires
            self.has_room(months),
        ensures
            r@ == self@.add_months(months as int),
    {
        let (years, month) = split_months(self.month as i128 + months);
        let mut moved = self;
        moved.month = month;
        moved.year = step_year(self.year, years);
        moved.pull_into_february();
        if (month == 4 || month == 6 || month == 9 || month == 11) && moved.day > 30 {
            moved.day = 30;
        }
        moved
    }

    /// The moment `days` days away.
    fn add_days(self, days: i128) -> (r: Wide)
        requires
            self.has_room(days),
        ensures
            r@ == self@.add_days(days as int),
    {
        let ghost from = Moment { day: self.day as int + days as int, ..self@ };
        let (year, month, day) = roll_days(
            self.year,
            self.month,
            self.day as i128 + days,
            Ghost(from),
        );
        assert(self@.add_days(days as int) == from.add_days(0));
        let mut moved = self;
        moved.year = year;
        moved.month = month;
        moved.day = day;
        moved
    }

    /// The moment `hours` hours away.
    fn add_hours(self, hours: i128) -> (r: Wide)
        requires
            self.has_room(hours),
        ensures
            r@ == self@.add_hours(hours as int),
    {
        let (days, hour) = split_hours(self.hour as i128 + hours);
        let mut moved = self.add_days(days);
        moved.hour = hour;
        moved
    }

    /// The moment `minutes` minutes away.
    fn add_minutes(self, minutes: i128) -> (r: Wide)
        requires
            self.has_room(minutes),
        ensures
            r@ == self@.add_minutes(minutes as int),
    {
        let (hours, minute) = split_sixty(self.minute as i128 + minutes);
        let mut moved = self.add_hours(hours);
        moved.minute = minute;
        moved
    }

    /// The moment `seconds` seconds away.
    fn add_seconds(self, seconds: i128) -> (r: Wide)
        requires
            self.has_room(seconds),
        ensures
            r@ == self@.add_seconds(seconds as int),
    {
        let (minutes, second) = split_sixty(self.second as i128 + seconds);
        let mut moved = self.add_minutes(minutes);
        moved.second = second;
        moved
    }
}

/// The widest count of hours or minutes that a shift within the crate is
/// asked for.
pub(crate) const FAR: i128 = 0x1_0000_0000_0000_0000;

impl Datetime {
    /// The moment with the given fields, as they are.
    pub fn from_fields(
        year: i64,
        month: u8,
        day: u8,
        hour: u8,
        minute: u8,
        second: u8,
    ) -> (r: Datetime)
        ensures
            r@ == (Moment {
                year: year as int,
                month: month as int,
                day: day as int,
                hour: hour as int,
                minute: minute as int,
                second: second as int,
            }),
    {
        Datetime { year, month, day, hour, minute, second }
    }

    /// Every moment that is held is representable.
    pub proof fn lemma_view_representable(self)
        ensures
            representable(self@),
    {
    }

    /// Two moments with the same fields are the same moment.
    pub proof fn lemma_view_injective(self, other: Datetime)
        ensures
            self@ == other@ <==> self == other,
    {
    }

    /// The moment with room in its year.
    fn widen(&self) -> (wide: Wide)
        ensures
            wide@ == self@,
    {
        Wide {
            year: self.year as i128,
            month: self.month,
            day: self.day,
            hour: self.hour,
            minute: self.minute,
            second: self.second,
        }
    }

    /// Shifts the moment by `years` years, stepping over the missing year
    /// zero. A 29 February that arrives in a year without one becomes 28
    /// February.
    ///
    /// The year arrived at must be one that can be held. It is one wherever
    /// the year has a margin of `years` years and 300 more to both ends, and
    /// `checked_add_years` tells whether it is one for any moment.
    pub fn add_years(&mut self, years: i64) -> (ret: &mut Self)
        requires
            has_margin(old(self)@, years as int) || year_fits(
                old(self)@.add_years(years as int).year,
            ),
        ensures
            ret@ == old(self)@.add_years(years as int),
            magnitude(ret@.year - old(self)@.year) <= magnitude(years as int) + 1,
            old(self)@.well_formed() ==> ret@.well_formed(),
            old(self)@.year != 0 ==> ret@.year != 0 && adjusted_year(ret@.year) == adjusted_year(
                old(self)@.year,
            ) + years,
            *final(self) == *final(ret),
    {
        proof {
            self.lemma_view_representable();
            lemma_add_years_reach(self@, years as int);
            if self@.well_formed() {
                lemma_shifts_keep_well_formed(self@, years as int);
            }
            if self@.year != 0 {
                lemma_shifted_year_is_addition(self@.year, years as int);
            }
        }
        *self = self.widen().add_years(years as i128).narrow();
        self
    }

    /// The moment `years` years away, or `None` where its year cannot be
    /// held.
    pub fn checked_add_years(&self, years: i64) -> (r: Option<Datetime>)
        ensures
            match r {
                Some(moved) => moved@ == self@.add_years(years as int),
                None => !year_fits(self@.add_years(years as int).year),
            },
    {
        self.widen().add_years(years as i128).narrowed()
    }

    /// Shifts the moment by `months` months, carrying whole years. A day that
    /// the month arrived at does not have is pulled back to its 30th, in
    /// February as `add_years` does.
    ///
    /// The year arrived at must be one that can be held. It is one wherever
    /// the year has a margin of `months` years and 300 more to both ends, and
    /// `checked_add_months` tells whether it is one for any moment.
    pub fn add_months(&mut self, months: i64) -> (ret: &mut Self)
        requires
            has_margin(old(self)@, months as int) || year_fits(
                old(self)@.add_months(months as int).year,
            ),
        ensures
            ret@ == old(self)@.add_months(months as int),
            magnitude(ret@.year - old(self)@.year) <= magnitude(months as int) / 12 + 24,
            old(self)@.well_formed() ==> ret@.well_formed(),
            old(self)@.in_calendar() ==> ret@.in_calendar() && 12 * adjusted_year(ret@.year)
                + ret@.month == 12 * adjusted_year(old(self)@.year) + old(self)@.month + months,
            *final(self) == *final(ret),
    {
        proof {
            self.lemma_view_representable();
            lemma_add_months_reach(self@, months as int);
            if self@.well_formed() {
                lemma_shifts_keep_well_formed(self@, months as int);
            }
            if self@.in_calendar() {
                lemma_add_months_month_count(self@, months as int);
            }
        }
        *self = self.widen().add_months(months as i128).narrow();
        self
    }

    /// The moment `months` months away, or `None` where its year cannot be
    /// held.
    pub fn checked_add_months(&self, months: i64) -> (r: Option<Datetime>)
        ensures
            match r {
                Some(moved) => moved@ == self@.add_months(months as int),
                None => !year_fits(self@.add_months(months as int).year),
            },
    {
        self.widen().add_months(months as i128).narrowed()
    }

    /// Shifts the moment by `days` days. The days are counted from the first
    /// of the month and rolled off a year at a time, then a month at a time,
    /// so that a day which its month does not have is carried as well. From a
    /// moment in the calendar the shift arrives at the date whose day count
    /// is `days` more.
    ///
    /// The year arrived at must be one that can be held. It is one wherever
    /// the year has a margin of `days` years and 300 more to both ends, and
    /// `checked_add_days` tells whether it is one for any moment.
    pub fn add_days(&mut self, days: i64) -> (ret: &mut Self)
        requires
            has_margin(old(self)@, days as int) || year_fits(
                old(self)@.add_days(days as int).year,
            ),
        ensures
            ret@ == old(self)@.add_days(days as int),
            magnitude(ret@.year - old(self)@.year) <= magnitude(days as int) + 300,
            old(self)@.well_formed() ==> ret@.well_formed(),
            ret@.on_a_day(),
            old(self)@.in_calendar() ==> ret@.is_date(),
            old(self)@.in_calendar() || (1 <= old(self)@.month <= 12 && old(self)@.day + days >= 1)
                ==> ret@.day_number() == old(self)@.day_number() + days,
            *final(self) == *final(ret),
    {
        proof {
            self.lemma_view_representable();
            lemma_add_days_reach(self@, days as int);
            if self@.well_formed() {
                lemma_shifts_keep_well_formed(self@, days as int);
            }
            lemma_add_days_lands(self@, days as int);
            if self@.in_calendar() {
                lemma_add_days_day_number(self@, days as int);
            }
            if 1 <= self@.month <= 12 && self@.day + days >= 1 {
                lemma_add_days_forward(self@, days as int);
            }
        }
        *self = self.widen().add_days(days as i128).narrow();
        self
    }

    /// The moment `days` days away, or `None` where its year cannot be held.
    pub fn checked_add_days(&self, days: i64) -> (r: Option<Datetime>)
        ensures
            match r {
                Some(moved) => moved@ == self@.add_days(days as int),
                None => !year_fits(self@.add_days(days as int).year),
            },
    {
        self.widen().add_days(days as i128).narrowed()
    }

    /// Shifts the moment by `hours` hours; the hours beyond the day carry into
    /// the days.
    ///
    /// The year arrived at must be one that can be held. It is one wherever
    /// the year has a margin of `hours` years and 300 more to both ends, and
    /// `checked_add_hours` tells whether it is one for any moment.
    pub fn add_hours(&mut self, hours: i64) -> (ret: &mut Self)
        requires
            has_margin(old(self)@, hours as int) || year_fits(
                old(self)@.add_hours(hours as int).year,
            ),
        ensures
            ret@ == old(self)@.add_hours(hours as int),
            magnitude(ret@.year - old(self)@.year) <= magnitude(hours as int) / 24 + 300,
            old(self)@.well_formed() ==> ret@.well_formed(),
            old(self)@.in_calendar() ==> ret@.is_date() && ret@.second_number() == old(
                self,
            )@.second_number() + 3600 * hours,
            *final(self) == *final(ret),
    {
        proof {
            self.lemma_view_representable();
            lemma_add_hours_reach(self@, hours as int);
            if self@.well_formed() {
                lemma_shifts_keep_well_formed(self@, hours as int);
            }
            if self@.in_calendar() {
                lemma_add_hours_second_number(self@, hours as int);
            }
        }
        self.shift_hours(hours as i128);
        self
    }

    /// The moment `hours` hours away, or `None` where its year cannot be
    /// held.
    pub fn checked_add_hours(&self, hours: i64) -> (r: Option<Datetime>)
        ensures
            match r {
                Some(moved) => moved@ == self@.add_hours(hours as int),
                None => !year_fits(self@.add_hours(hours as int).year),
            },
    {
        self.widen().add_hours(hours as i128).narrowed()
    }

    /// `add_hours` for a count of hours that may lie beyond 64 bits.
    pub(crate) fn shift_hours(&mut self, hours: i128)
        requires
            -FAR <= hours <= FAR,
            year_fits(old(self)@.add_hours(hours as int).year),
        ensures
            final(self)@ == old(self)@.add_hours(hours as int),
    {
        *self = self.widen().add_hours(hours).narrow();
    }

    /// Shifts the moment by `minutes` minutes; the minutes beyond the hour
    /// carry into the hours.
    ///
    /// The year arrived at must be one that can be held. It is one wherever
    /// the year has a margin of `minutes` years and 300 more to both ends,
    /// and `checked_add_minutes` tells whether it is one for any moment.
    pub fn add_minutes(&mut self, minutes: i64) -> (ret: &mut Self)
        requires
            has_margin(old(self)@, minutes as int) || year_fits(
                old(self)@.add_minutes(minutes as int).year,
            ),
        ensures
            ret@ == old(self)@.add_minutes(minutes as int),
            magnitude(ret@.year - old(self)@.year) <= magnitude(minutes as int) / 1440 + 300,
            old(self)@.well_formed() ==> ret@.well_formed(),
            old(self)@.in_calendar() ==> ret@.is_date() && ret@.second_number() == old(
                self,
            )@.second_number() + 60 * minutes,
            *final(self) == *final(ret),
    {
        proof {
            self.lemma_view_representable();
            lemma_add_minutes_reach(self@, minutes as int);
            if self@.well_formed() {
                lemma_shifts_keep_well_formed(self@, minutes as int);
            }
            if self@.in_calendar() {
                lemma_add_minutes_second_number(self@, minutes as int);
            }
        }
        self.shift_minutes(minutes as i128);
        self
    }

    /// The moment `minutes` minutes away, or `None` where its year cannot be
    /// held.
    pub fn checked_add_minutes(&self, minutes: i64) -> (r: Option<Datetime>)
        ensures
            match r {
                Some(moved) => moved@ == self@.add_minutes(minutes as int),
                None => !year_fits(self@.add_minutes(minutes as int).year),
            },
    {
        self.widen().add_minutes(minutes as i128).narrowed()
    }

    /// `add_minutes` for a count of minutes that may lie beyond 64 bits.
    pub(crate) fn shift_minutes(&mut self, minutes: i128)
        requires
            -FAR <= minutes <= FAR,
            year_fits(old(self)@.add_minutes(minutes as int).year),
        ensures
            final(self)@ == old(self)@.add_minutes(minutes as int),
    {
        *self = self.widen().add_minutes(minutes).narrow();
    }

    /// Shifts the moment by `seconds` seconds; the seconds beyond the minute
    /// carry into the minutes. From a moment in the calendar the shift
    /// arrives at the well-formed moment whose second count is `seconds`
    /// more.
    ///
    /// The year arrived at must be one that can be held. It is one wherever
    /// the year has a margin of `seconds` years and 300 more to both ends,
    /// and `checked_add_seconds` tells whether it is one for any moment.
    pub fn add_seconds(&mut self, seconds: i64) -> (ret: &mut Self)
        requires
            has_margin(old(self)@, seconds as int) || year_fits(
                old(self)@.add_seconds(seconds as int).year,
            ),
        ensures
            ret@ == old(self)@.add_seconds(seconds as int),
            magnitude(ret@.year - old(self)@.year) <= magnitude(seconds as int) / 86400 + 300,
            old(self)@.well_formed() ==> ret@.well_formed(),
            old(self)@.in_calendar() ==> ret@.well_formed() && ret@.second_number() == old(
                self,
            )@.second_number() + seconds,
            *final(self) == *final(ret),
    {
        proof {
            self.lemma_view_representable();
            lemma_add_seconds_reach(self@, seconds as int);
            if self@.well_formed() {
                lemma_shifts_keep_well_formed(self@, seconds as int);
            }
            if self@.in_calendar() {
                lemma_add_seconds_second_number(self@, seconds as int);
            }
        }
        *self = self.widen().add_seconds(seconds as i128).narrow();
        self
    }

    /// The moment `seconds` seconds away, or `None` where its year cannot be
    /// held.
    pub fn checked_add_seconds(&self, seconds: i64) -> (r: Option<Datetime>)
        ensures
            match r {
                Some(moved) => moved@ == self@.add_seconds(seconds as int),
                None => !year_fits(self@.add_seconds(seconds as int).year),
            },
    {
        self.widen().add_seconds(seconds as i128).narrowed()
    }

    /// The name of the day of the week, for dates from 1 March of year 0 on.
    /// For an earlier date the name is that of `weekday_index`, which is not
    /// the day of the week.
    pub fn day_of_week(&self) -> (name: &'static str)
        ensures
            name@ == weekday_name(self@.weekday_index()),
            self@.has_weekday() ==> name@ == weekday_name((self@.day_number() + 5) % 7),
    {
        proof {
            if self@.has_weekday() {
                lemma_weekday_is_day_number(self@);
            }
        }
        let mut year: i128 = self.year as i128;
        let mut month: i128 = self.month as i128;
        let day: i128 = self.day as i128;
        month = month - 2;
        if month < 1 {
            month = month + 12;
            year = year - 1;
        }
        let century: i128 = year / 100;
        year = year % 100;
        let sum: i128 = (26 * month - 2) / 10 + day + year + year / 4 + century / 4 + 5 * century;
        assert(sum == self@.weekday_sum());
        let index: i128 = if sum >= 0 {
            sum % 7
        } else {
            (sum + 0x1_0000_0000_0000_0000) % 7
        };
        if index == 0 {
            "Sunday"
        } else if index == 1 {
            "Monday"
        } else if index == 2 {
            "Tuesday"
        } else if index == 3 {
            "Wednesday"
        } else if index == 4 {
            "Thursday"
        } else if index == 5 {
            "Friday"
        } else {
            "Saturday"
        }
    }

    /// The whole seconds from `earlier` to `self`, negative where `self` is
    /// the earlier one: between a date that exists and a moment in the
    /// calendar, the difference of their second counts. The count must be one
    /// that 64 bits hold; `checked_seconds_since` tells whether it is.
    pub fn seconds_since(&self, earlier: Datetime) -> (r: i64)
        requires
            i64::MIN <= self@.seconds_since(earlier@) <= i64::MAX,
        ensures
            r == self@.seconds_since(earlier@),
            self@.is_date() && earlier@.in_calendar() ==> r == self@.second_number()
                - earlier@.second_number(),
    {
        self.wide_seconds_since(earlier) as i64
    }

    /// The whole seconds from `earlier` to `self`, or `None` where 64 bits do
    /// not hold their count.
    pub fn checked_seconds_since(&self, earlier: Datetime) -> (r: Option<i64>)
        ensures
            match r {
                Some(seconds) => seconds == self@.seconds_since(earlier@),
                None => !(i64::MIN <= self@.seconds_since(earlier@) <= i64::MAX),
            },
            r is Some && self@.is_date() && earlier@.in_calendar() ==> r.unwrap()
                == self@.second_number() - earlier@.second_number(),
    {
        let seconds = self.wide_seconds_since(earlier);
        if -0x8000_0000_0000_0000 <= seconds && seconds <= 0x7fff_ffff_ffff_ffff {
            Some(seconds as i64)
        } else {
            None
        }
    }

    /// The whole seconds from `earlier` to `self`, however many.
    fn wide_seconds_since(&self, earlier: Datetime) -> (r: i128)
        ensures
            r == self@.seconds_since(earlier@),
            self@.is_date() && earlier@.in_calendar() ==> r == self@.second_number()
                - earlier@.second_number(),
    {
        let stop = self.widen().at_midnight();
        let begin = earlier.widen().at_midnight();
        let guess: i128 = (stop.year - begin.year) * 365 + (stop.month as i128
            - begin.month as i128) * 30 + stop.day as i128 - begin.day as i128;
        proof {
            lemma_add_days_lands(begin@, guess as int);
            if self@.is_date() && earlier@.in_calendar() {
                lemma_seconds_since_is_difference(self@, earlier@);
            }
        }
        let ghost moved = begin@.add_days(guess as int);
        let mut start = begin.add_days(guess);
        let mut count: i128 = guess;
        while start.before(&stop)
            invariant
                start@.on_a_day(),
                moved.on_a_day(),
                moved.catch_up(stop@, guess as int) == start@.catch_up(stop@, count as int),
                -LONG <= moved.year <= start@.year,
                start@.year <= moved.year || start@.year <= stop@.year + 2,
                year_fits(stop@.year),
                -LONG <= guess <= count,
                guess <= LONG,
                count + start@.room_ahead(stop@) <= guess + moved.room_ahead(stop@),
            decreases start@.room_ahead(stop@),
        {
            proof {
                start@.lemma_add_one_day();
            }
            start = start.add_days(1);
            count = count + 1;
        }
        let ghost reached = start@;
        let ghost ahead = count as int;
        while stop.before(&start)
            invariant
                start@.on_a_day(),
                reached.on_a_day(),
                reached.fall_back(stop@, ahead) == start@.fall_back(stop@, count as int),
                start@.year <= reached.year <= LONG + LONG,
                reached.year <= start@.year || stop@.year - 2 <= start@.year,
                year_fits(stop@.year),
                -LONG <= ahead,
                count <= ahead <= LONG * 2000,
                ahead + start@.room_behind(stop@) <= count + reached.room_behind(stop@),
            decreases start@.room_behind(stop@),
        {
            proof {
                start@.lemma_subtract_one_day();
            }
            start = start.add_days(-1);
            count = count - 1;
        }
        let hours: i128 = count * 24 + self.hour as i128 - earlier.hour as i128;
        let minutes: i128 = hours * 60 + self.minute as i128 - earlier.minute as i128;
        minutes * 60 + self.second as i128 - earlier.second as i128
    }

    /// The time that has passed since the Unix epoch, as the system's clock
    /// has it: `SystemTime::now` of std, measured from `UNIX_EPOCH`, and no
    /// time at all where the clock stands before the epoch. Nothing is claimed
    /// of the span.
    #[verifier::external_body]
    pub fn timestamp() -> (span: Duration) {
        SystemTime::now().duration_since(SystemTime::UNIX_EPOCH).unwrap_or_default()
    }

    /// The moment `seconds` seconds after the Unix epoch, or before it for a
    /// negative count.
    pub fn from_unix_seconds(seconds: i64) -> (r: Datetime)
        ensures
            r@ == Moment::unix_epoch().add_seconds(seconds as int),
            r@.well_formed(),
            r@.second_number() == Moment::unix_epoch().second_number() + seconds,
    {
        let mut epoch = Datetime { year: 1970, month: 1, day: 1, hour: 0, minute: 0, second: 0 };
        proof {
            lemma_add_seconds_reach(epoch@, seconds as int);
        }
        epoch.add_seconds(seconds);
        epoch
    }

    /// The moment that the system's clock shows, in UTC: the Unix epoch
    /// shifted by the whole seconds of `timestamp`, taken as a signed number
    /// of 64 bits.
    pub fn now() -> (r: Datetime)
        ensures
            r@.well_formed(),
            exists|seconds: int|
                {
                    &&& i64::MIN <= seconds <= i64::MAX
                    &&& r@ == #[trigger] Moment::unix_epoch().add_seconds(seconds)
                },
    {
        let passed: u64 = Datetime::timestamp().as_secs();
        let seconds: i64 = if passed <= 0x7fff_ffff_ffff_ffff {
            passed as i64
        } else {
            (passed as i128 - 0x1_0000_0000_0000_0000) as i64
        };
        Datetime::from_unix_seconds(seconds)
    }

    /// The year; negative before the common era.
    #[inline(always)]
    pub fn year(&self) -> (r: i64)
        ensures
            r == self@.year,
    {
        self.year
    }

    /// The month.
    #[inline(always)]
    pub fn month(&self) -> (r: i64)
        ensures
            r == self@.month,
    {
        self.month as i64
    }

    /// The day of the month.
    #[inline(always)]
    pub fn day(&self) -> (r: i64)
        ensures
            r == self@.day,
    {
        self.day as i64
    }

    /// The hour of the day.
    #[inline(always)]
    pub fn hour(&self) -> (r: i64)
        ensures
            r == self@.hour,
    {
        self.hour as i64
    }

    /// The minute of the hour.
    #[inline(always)]
    pub fn minute(&self) -> (r: i64)
        ensures
            r == self@.minute,
    {
        self.minute as i64
    }

    /// The second of the minute.
    #[inline(always)]
    pub fn second(&self) -> (r: i64)
        ensures
            r == self@.second,
    {
        self.second as i64
    }

    /// Whether `self` comes before `other`, field by field from the year down.
    pub fn before(&self, other: &Datetime) -> (r: bool)
        ensures
            r == self@.before(other@),
    {
        if self.year != other.year {
            self.year < other.year
        } else if self.month != other.month {
            self.month < other.month
        } else if self.day != other.day {
            self.day < other.day
        } else if self.hour != other.hour {
            self.hour < other.hour
        } else if self.minute != other.minute {
            self.minute < other.minute
        } else {
            self.second < other.second
        }
    }
}

} // verus!
