//! The mathematical model of the calendar: moments over unbounded integers,
//! the field-by-field shifts with their carries, and the day count that the
//! shifts are measured against.
//!
//! The calendar is the proleptic Gregorian one with no year zero: year -1 is
//! followed by year 1. A year field of 0 marks a moment that has not been
//! given a year yet; the shifts accept it, the day count does not speak of it.

use vstd::prelude::*;

verus! {

/// A calendar moment with unbounded fields. Nothing is assumed of the fields:
/// a moment may hold month 0 or day 40, and the shifts say what becomes of it.
pub struct Moment {
    pub year: int,
    pub month: int,
    pub day: int,
    pub hour: int,
    pub minute: int,
    pub second: int,
}

/// The Gregorian leap rule, on a year counted with a year zero.
pub open spec fn is_leap(y: int) -> bool {
    y % 4 == 0 && (y % 100 != 0 || y % 400 == 0)
}

/// The year counted with a year zero: year -1 becomes 0, year -2 becomes -1,
/// positive years stay. This is the year that the leap rule is applied to.
pub open spec fn adjusted_year(year: int) -> int {
    if year < 0 {
        year + 1
    } else {
        year
    }
}

/// The year `delta` years away from `year`, stepping over the missing year
/// zero. From the unset year 0 the result is `delta` itself.
pub open spec fn shifted_year(year: int, delta: int) -> int {
    if year < 0 {
        if year + delta >= 0 {
            year + delta + 1
        } else {
            year + delta
        }
    } else if year > 0 {
        if year + delta <= 0 {
            year + delta - 1
        } else {
            year + delta
        }
    } else {
        delta
    }
}

/// The number of days of `month` in `year`; 0 for a month outside 1..=12.
pub open spec fn month_length(year: int, month: int) -> int {
    if month == 2 {
        if is_leap(adjusted_year(year)) {
            29
        } else {
            28
        }
    } else if month == 4 || month == 6 || month == 9 || month == 11 {
        30
    } else if 1 <= month <= 12 {
        31
    } else {
        0
    }
}

/// The days from the first of `month` in `year` to the first of the same month
/// one year later: the February in between decides.
pub open spec fn year_span_ahead(year: int, month: int) -> int {
    if is_leap(adjusted_year(year) + if month > 2 { 1int } else { 0int }) {
        366
    } else {
        365
    }
}

/// The days from the first of `month` one year earlier to the first of `month`
/// in `year`.
pub open spec fn year_span_behind(year: int, month: int) -> int {
    if is_leap(adjusted_year(year) - if month <= 2 { 1int } else { 0int }) {
        366
    } else {
        365
    }
}

/// Days from 1 January of adjusted year 0 to 1 January of adjusted year `a`.
pub open spec fn days_before_year(a: int) -> int {
    365 * a + (a + 3) / 4 - (a + 99) / 100 + (a + 399) / 400
}

/// Days from 1 January to the first of `month`, in a leap year or not.
pub open spec fn days_before_month(leap: bool, month: int) -> int {
    let shift: int = if leap && month > 2 { 1 } else { 0 };
    shift + if month <= 1 {
        0int
    } else if month == 2 {
        31
    } else if month == 3 {
        59
    } else if month == 4 {
        90
    } else if month == 5 {
        120
    } else if month == 6 {
        151
    } else if month == 7 {
        181
    } else if month == 8 {
        212
    } else if month == 9 {
        243
    } else if month == 10 {
        273
    } else if month == 11 {
        304
    } else {
        334
    }
}

/// The quotient rounded toward zero, for a positive divisor.
pub open spec fn truncating_div(a: int, b: int) -> int {
    if a >= 0 {
        a / b
    } else {
        -((-a) / b)
    }
}

/// The name of the day of the week with the given index, Sunday being 0.
pub open spec fn weekday_name(index: int) -> Seq<char> {
    if index == 0 {
        "Sunday"@
    } else if index == 1 {
        "Monday"@
    } else if index == 2 {
        "Tuesday"@
    } else if index == 3 {
        "Wednesday"@
    } else if index == 4 {
        "Thursday"@
    } else if index == 5 {
        "Friday"@
    } else {
        "Saturday"@
    }
}

/// Whether two moments have the same time of day.
pub open spec fn same_time(a: Moment, b: Moment) -> bool {
    a.hour == b.hour && a.minute == b.minute && a.second == b.second
}

impl Moment {
    /// The moment that has been given nothing yet: every field is 0.
    pub open spec fn unset() -> Moment {
        Moment { year: 0, month: 0, day: 0, hour: 0, minute: 0, second: 0 }
    }

    /// Midnight before 1 January 1970.
    pub open spec fn unix_epoch() -> Moment {
        Moment { year: 1970, month: 1, day: 1, hour: 0, minute: 0, second: 0 }
    }

    /// Every field but the year lies within a byte: 0 ..= 255.
    pub open spec fn fields_in_bytes(self) -> bool {
        &&& 0 <= self.month <= 255
        &&& 0 <= self.day <= 255
        &&& 0 <= self.hour <= 255
        &&& 0 <= self.minute <= 255
        &&& 0 <= self.second <= 255
    }

    /// The year is set and the month is one of the twelve.
    pub open spec fn in_calendar(self) -> bool {
        self.year != 0 && 1 <= self.month <= 12
    }

    /// The date exists: the year is set, the month is one of the twelve and
    /// the day lies within the month.
    pub open spec fn is_date(self) -> bool {
        self.in_calendar() && 1 <= self.day <= month_length(self.year, self.month)
    }

    /// The month is one of the twelve and the day lies within it, whatever
    /// the year: what every shift by days arrives at.
    pub open spec fn on_a_day(self) -> bool {
        1 <= self.month <= 12 && 1 <= self.day <= month_length(self.year, self.month)
    }

    /// A day of a month on or after 1 March of year 0: where the congruence
    /// for the day of the week holds.
    pub open spec fn has_weekday(self) -> bool {
        self.on_a_day() && (self.year >= 1 || (self.year == 0 && self.month >= 3))
    }

    /// The time of day lies within 00:00:00 ..= 23:59:59.
    pub open spec fn is_time(self) -> bool {
        0 <= self.hour < 24 && 0 <= self.minute < 60 && 0 <= self.second < 60
    }

    /// The steady state of a moment: an existing date and a time of day.
    pub open spec fn well_formed(self) -> bool {
        self.is_date() && self.is_time()
    }

    /// The date alone, at midnight.
    pub open spec fn date_only(self) -> Moment {
        Moment { hour: 0, minute: 0, second: 0, ..self }
    }

    /// Whether `self` comes before `other`, field by field from the year down.
    pub open spec fn before(self, other: Moment) -> bool {
        if self.year != other.year {
            self.year < other.year
        } else if self.month != other.month {
            self.month < other.month
        } else if self.day != other.day {
            self.day < other.day
        } else if self.hour != other.hour {
            self.hour < other.hour
        } else if self.minute != other.minute {
            self.minute < other.minute
        } else {
            self.second < other.second
        }
    }

    /// The count of the day among all days: 1 for 1 January of adjusted year 0,
    /// one more for each day after. Meant for moments that are `in_calendar`;
    /// the day itself may lie outside its month and counts on linearly. The
    /// unset year 0 counts as the year before year 1, which is right of it as
    /// long as nothing goes back from it.
    pub open spec fn day_number(self) -> int {
        let a = adjusted_year(self.year);
        days_before_year(a) + days_before_month(is_leap(a), self.month) + self.day
    }

    /// The count of the second among all seconds, on top of `day_number`.
    pub open spec fn second_number(self) -> int {
        ((self.day_number() * 24 + self.hour) * 60 + self.minute) * 60 + self.second
    }

    /// The moment `delta` years away. The year steps over the missing year
    /// zero; a day past 28 February is pulled back to the last day that the
    /// new February has.
    pub open spec fn add_years(self, delta: int) -> Moment {
        let year = shifted_year(self.year, delta);
        let day = if self.month == 2 && self.day > 28 {
            month_length(year, 2)
        } else {
            self.day
        };
        Moment { year, day, ..self }
    }

    /// The moment `delta` months away. The months beyond the twelve carry into
    /// the year; a day past the 30th is pulled back where the new month has 30
    /// days, a day past 28 February as `add_years` does.
    pub open spec fn add_months(self, delta: int) -> Moment {
        let index = self.month + delta - 1;
        let month = index % 12 + 1;
        let moved = Moment { month, ..self }.add_years(index / 12);
        let day = if (month == 4 || month == 6 || month == 9 || month == 11) && moved.day > 30 {
            30
        } else {
            moved.day
        };
        Moment { day, ..moved }
    }

    /// Rolls whole years off `rest` days counted from the first of the month
    /// of `self`, going forward, until `rest` lies within one year.
    pub open spec fn roll_years_forward(self, rest: int) -> (Moment, int)
        decreases rest,
    {
        let span = year_span_ahead(self.year, self.month);
        if rest <= span {
            (self, rest)
        } else {
            self.add_years(1).roll_years_forward(rest - span)
        }
    }

    /// Rolls whole months off `rest`, going forward, until `rest` is a day of
    /// the month reached. A month outside the twelve has no days to roll off
    /// and is left for the next month.
    pub open spec fn roll_months_forward(self, rest: int) -> (Moment, int)
        decreases rest, (if 1 <= self.month <= 12 { 0int } else { 1int }),
    {
        let len = month_length(self.year, self.month);
        if rest <= len {
            (self, rest)
        } else {
            self.add_months(1).roll_months_forward(rest - len)
        }
    }

    /// Rolls whole years onto `rest`, going backward, while `rest` lies more
    /// than one year back.
    pub open spec fn roll_years_backward(self, rest: int) -> (Moment, int)
        decreases -rest,
    {
        let span = year_span_behind(self.year, self.month);
        if rest >= -span {
            (self, rest)
        } else {
            self.add_years(-1).roll_years_backward(rest + span)
        }
    }

    /// Rolls whole months onto `rest`, going backward, until `rest` is a day
    /// of the month reached.
    pub open spec fn roll_months_backward(self, rest: int) -> (Moment, int)
        decreases (if rest >= 1 { 0 } else { 1 - rest }),
        via Self::roll_months_backward_decreases
    {
        if rest >= 1 {
            (self, rest)
        } else {
            let prev = self.add_months(-1);
            prev.roll_months_backward(rest + month_length(prev.year, prev.month))
        }
    }

    /// Each month rolled back has days, so the days still to roll get fewer.
    #[via_fn]
    proof fn roll_months_backward_decreases(self, rest: int) {
        if rest < 1 {
            let prev = self.add_months(-1);
            assert(1 <= prev.month <= 12);
            assert(month_length(prev.year, prev.month) >= 28);
        }
    }

    /// The moment `delta` days away. The day and `delta` together are counted
    /// from the first of the month and rolled off year by year, then month by
    /// month, in the direction of their sign. For a moment in the calendar
    /// this is the date whose day count is `delta` more
    /// (`day_count::lemma_add_days_day_number`).
    pub open spec fn add_days(self, delta: int) -> Moment {
        let rest = self.day + delta;
        let first = Moment { day: 1, ..self };
        let (at, day) = if rest >= 1 {
            let (year_start, within_year) = first.roll_years_forward(rest);
            year_start.roll_months_forward(within_year)
        } else {
            let (year_start, within_year) = first.roll_years_backward(rest);
            year_start.roll_months_backward(within_year)
        };
        Moment { day, ..at }
    }

    /// The moment `delta` hours away: the hours beyond the day carry into the
    /// days.
    pub open spec fn add_hours(self, delta: int) -> Moment {
        let total = self.hour + delta;
        Moment { hour: total % 24, ..self.add_days(total / 24) }
    }

    /// The moment `delta` minutes away: the minutes beyond the hour carry
    /// into the hours.
    pub open spec fn add_minutes(self, delta: int) -> Moment {
        let total = self.minute + delta;
        Moment { minute: total % 60, ..self.add_hours(total / 60) }
    }

    /// The moment `delta` seconds away: the seconds beyond the minute carry
    /// into the minutes.
    pub open spec fn add_seconds(self, delta: int) -> Moment {
        let total = self.second + delta;
        Moment { second: total % 60, ..self.add_minutes(total / 60) }
    }

    /// The day after a day of a month.
    pub open spec fn next_day(self) -> Moment {
        if self.day < month_length(self.year, self.month) {
            Moment { day: self.day + 1, ..self }
        } else if self.month < 12 {
            Moment { month: self.month + 1, day: 1, ..self }
        } else {
            Moment { year: shifted_year(self.year, 1), month: 1, day: 1, ..self }
        }
    }

    /// The day before a day of a month.
    pub open spec fn previous_day(self) -> Moment {
        if self.day > 1 {
            Moment { day: self.day - 1, ..self }
        } else if self.month > 1 {
            Moment { month: self.month - 1, day: month_length(self.year, self.month - 1), ..self }
        } else {
            Moment { year: shifted_year(self.year, -1), month: 12, day: 31, ..self }
        }
    }

    /// A shift by one day from a day of a month arrives at the day after.
    pub proof fn lemma_add_one_day(self)
        requires
            self.on_a_day(),
        ensures
            self.add_days(1) == self.next_day(),
            self.next_day().on_a_day(),
    {
        reveal_with_fuel(Moment::roll_months_forward, 2);
        let first = Moment { day: 1, ..self };
        let rest = self.day + 1;
        assert(first.roll_years_forward(rest) == (first, rest));
        if rest > month_length(self.year, self.month) {
            assert(first.add_months(1) == Moment { day: 1, ..self.next_day() });
        }
    }

    /// A shift by one day back from a day of a month arrives at the day
    /// before.
    pub proof fn lemma_subtract_one_day(self)
        requires
            self.on_a_day(),
        ensures
            self.add_days(-1) == self.previous_day(),
            self.previous_day().on_a_day(),
    {
        reveal_with_fuel(Moment::roll_months_backward, 2);
        let first = Moment { day: 1, ..self };
        let rest = self.day - 1;
        if rest >= 1 {
            assert(first.roll_years_forward(rest) == (first, rest));
            assert(first.roll_months_forward(rest) == (first, rest));
        } else {
            assert(first.roll_years_backward(rest) == (first, rest));
            let prev = first.add_months(-1);
            assert(prev == Moment { day: 1, ..self.previous_day() });
        }
    }

    /// How far `self` may still lie before `stop`, in a count that every day
    /// gone forward lowers: 0 once `self` is no longer before `stop`.
    pub open spec fn room_ahead(self, stop: Moment) -> int {
        if self.before(stop) {
            (stop.year - self.year + 1) * 500 - (self.month * 31 + self.day)
        } else {
            0
        }
    }

    /// How far `self` may still lie after `stop`, in a count that every day
    /// gone back lowers: 0 once `self` is no longer after `stop`.
    pub open spec fn room_behind(self, stop: Moment) -> int {
        if stop.before(self) {
            (self.year - stop.year) * 500 + (self.month * 31 + self.day)
        } else {
            0
        }
    }

    /// Goes forward day by day while `self` lies before `stop`, counting the
    /// days onto `count`.
    pub open spec fn catch_up(self, stop: Moment, count: int) -> (Moment, int)
        decreases self.room_ahead(stop),
        when self.on_a_day()
        via Self::catch_up_decreases
    {
        if self.before(stop) {
            self.add_days(1).catch_up(stop, count + 1)
        } else {
            (self, count)
        }
    }

    /// The day after lies nearer to `stop`.
    #[via_fn]
    proof fn catch_up_decreases(self, stop: Moment, count: int) {
        if self.before(stop) {
            self.lemma_add_one_day();
        }
    }

    /// Goes back day by day while `self` lies after `stop`, counting the days
    /// off `count`.
    pub open spec fn fall_back(self, stop: Moment, count: int) -> (Moment, int)
        decreases self.room_behind(stop),
        when self.on_a_day()
        via Self::fall_back_decreases
    {
        if stop.before(self) {
            self.add_days(-1).fall_back(stop, count - 1)
        } else {
            (self, count)
        }
    }

    /// The day before lies nearer to `stop`.
    #[via_fn]
    proof fn fall_back_decreases(self, stop: Moment, count: int) {
        if stop.before(self) {
            self.lemma_subtract_one_day();
        }
    }

    /// The whole days from the date of `earlier` to the date of `self`,
    /// negative where `self` is the earlier one. A first guess of 365 days to
    /// the year and 30 to the month is gone from `earlier`, and then corrected
    /// day by day until the date of `self` is met or, where that date does not
    /// exist, the last date before it.
    pub open spec fn days_since(self, earlier: Moment) -> int {
        let stop = self.date_only();
        let start = earlier.date_only();
        let guess = (stop.year - start.year) * 365 + (stop.month - start.month) * 30 + stop.day
            - start.day;
        let (reached, ahead) = start.add_days(guess).catch_up(stop, guess);
        reached.fall_back(stop, ahead).1
    }

    /// The whole seconds from `earlier` to `self`, negative where `self` is
    /// the earlier one.
    pub open spec fn seconds_since(self, earlier: Moment) -> int {
        ((self.days_since(earlier) * 24 + self.hour - earlier.hour) * 60 + self.minute
            - earlier.minute) * 60 + self.second - earlier.second
    }

    /// The sum of the congruence for the day of the week. The year is taken
    /// to begin in March, so that February comes last; it is split into its
    /// century and the year of the century; every quotient is rounded toward
    /// zero. The year is taken as it stands, with no allowance for the missing
    /// year zero.
    pub open spec fn weekday_sum(self) -> int {
        let year = if self.month < 3 {
            self.year - 1
        } else {
            self.year
        };
        let month = if self.month < 3 {
            self.month + 10
        } else {
            self.month - 2
        };
        let century = truncating_div(year, 100);
        let of_century = year - 100 * century;
        truncating_div(26 * month - 2, 10) + self.day + of_century + truncating_div(of_century, 4)
            + truncating_div(century, 4) + 5 * century
    }

    /// The index of the day of the week, Sunday being 0. It is the day of the
    /// week for dates from 1 March of year 0 on. Before that the sum is
    /// negative, and what is taken modulo 7 is the sum as an unsigned number
    /// of 64 bits: an index, but not the day of the week.
    pub open spec fn weekday_index(self) -> int {
        let sum = self.weekday_sum();
        if sum >= 0 {
            sum % 7
        } else {
            (sum + 0x1_0000_0000_0000_0000) % 7
        }
    }
}

} // verus!
