//! Moments as they stand in a database column or a serialized document: which
//! form a column of a given type holds for a given kind of database, and the
//! moment that each form means.

use crate::calendar::{truncating_div, Moment};
use crate::datetime::Datetime;
use crate::written::{lemma_written_places, moment_text};
use crate::fixed::{lemma_fixed_round_trip, parse_rfc3339};
use crate::loose::parse_loose;
use vstd::prelude::*;
use vstd::string::StringSliceAdditionalSpecFns;
use vstd::utf8::{encode_utf8, encode_utf8_decode_utf8};

verus! {

/// The kind of database that a column comes from.
#[derive(Clone, Copy, Debug, PartialEq, Eq, Structural)]
pub enum Backend {
    /// PostgreSQL, which hands out times as counts from the year 2000.
    Postgres,
    /// MySQL, which hands out times as packed bytes.
    MySql,
    /// Any other database: times are text.
    Other,
}

/// The form in which a column holds a moment.
#[derive(Clone, Copy, Debug, PartialEq, Eq, Structural)]
pub enum Wire {
    /// The microseconds since midnight before 1 January 2000, in 64 bits.
    Microseconds,
    /// The days since 1 January 2000, in 32 bits.
    Days,
    /// Packed bytes: a length, the year in two bytes, the low one first, the
    /// month, the day and, where the length is above 4, the hour, the minute
    /// and the second.
    Packed,
    /// Text, in the fixed-width form or the loose one.
    Text,
}

/// A text that names no moment.
#[derive(Clone, Copy, Debug, PartialEq, Eq, Structural)]
pub struct FormatError {}

impl FormatError {
    /// What went wrong, in words.
    pub fn message(&self) -> (words: &'static str)
        ensures
            words@ == "The data format is not correct"@,
    {
        "The data format is not correct"
    }
}

/// Whether the name of a column type is one of those that hold a time and
/// nothing but a time.
pub open spec fn names_time(backend: Backend, column_type: Seq<char>) -> bool {
    match backend {
        Backend::Postgres => {
            ||| column_type == "TIMESTAMP"@
            ||| column_type == "TIMESTAMPTZ"@
            ||| column_type == "DATE"@
        },
        _ => {
            ||| column_type == "TIMESTAMP"@
            ||| column_type == "DATETIME"@
            ||| column_type == "DATE"@
        },
    }
}

/// Whether a column of the named type can hold a moment: a type that holds a
/// time, or one of the two that hold text.
pub open spec fn is_compatible(backend: Backend, column_type: Seq<char>) -> bool {
    names_time(backend, column_type) || column_type == "VARCHAR"@ || column_type == "TEXT"@
}

/// The form in which a column of the named type holds a moment. PostgreSQL
/// counts microseconds in its timestamps and days in its dates; MySQL packs
/// bytes for every type that holds a time; everything else is text.
pub open spec fn wire_of(backend: Backend, column_type: Seq<char>) -> Wire {
    match backend {
        Backend::Postgres => if column_type == "TIMESTAMP"@ || column_type == "TIMESTAMPTZ"@ {
            Wire::Microseconds
        } else if column_type == "DATE"@ {
            Wire::Days
        } else {
            Wire::Text
        },
        Backend::MySql => if names_time(backend, column_type) {
            Wire::Packed
        } else {
            Wire::Text
        },
        Backend::Other => Wire::Text,
    }
}

/// Midnight before 1 January 2000, from which PostgreSQL counts.
pub open spec fn year_2000() -> Moment {
    Moment { year: 2000, month: 1, day: 1, hour: 0, minute: 0, second: 0 }
}

/// The moment that packed bytes hold; `None` where there are fewer bytes than
/// the form has.
pub open spec fn packed_moment(bytes: Seq<u8>) -> Option<Moment> {
    if bytes.len() < 5 || (bytes[0] > 4 && bytes.len() < 8) {
        None
    } else {
        Some(
            Moment {
                year: bytes[2] * 256 + bytes[1],
                month: bytes[3] as int,
                day: bytes[4] as int,
                hour: if bytes[0] > 4 {
                    bytes[5] as int
                } else {
                    0
                },
                minute: if bytes[0] > 4 {
                    bytes[6] as int
                } else {
                    0
                },
                second: if bytes[0] > 4 {
                    bytes[7] as int
                } else {
                    0
                },
            },
        )
    }
}

/// The moment that a text names in either form, the fixed-width form first.
pub open spec fn text_moment(text: Seq<u8>) -> Option<Moment> {
    match parse_rfc3339(text) {
        Some(moment) => Some(moment),
        None => parse_loose(text),
    }
}

/// The moment that a serialized text names: the unset moment for an empty
/// text, else what the text names in either form.
pub open spec fn serialized_moment(text: Seq<u8>) -> Option<Moment> {
    if text.len() == 0 {
        Some(Moment::unset())
    } else {
        text_moment(text)
    }
}

/// Serialized as its text and read again, a well-formed moment of the years
/// 1 to 9999 is what it was. The fixed-width form is tried first and has four
/// places for the year and none for the era: a moment of another year is not
/// read back as itself.
pub proof fn lemma_serialized_round_trip(m: Moment)
    requires
        m.well_formed(),
        1 <= m.year <= 9999,
    ensures
        serialized_moment(moment_text(m)) == Some(m),
{
    lemma_fixed_round_trip(m);
    lemma_written_places(m);
}

/// Whether two texts are the same.
fn same_text(text: &str, word: &str) -> (same: bool)
    ensures
        same == (text@ == word@),
{
    let left = text.as_bytes();
    let right = word.as_bytes();
    proof {
        encode_utf8_decode_utf8(text@);
        encode_utf8_decode_utf8(word@);
    }
    if left.len() != right.len() {
        return false;
    }
    let mut at: usize = 0;
    while at < left.len()
        invariant
            at <= left@.len(),
            left@.len() == right@.len(),
            left@ == encode_utf8(text@),
            right@ == encode_utf8(word@),
            left@.subrange(0, at as int) == right@.subrange(0, at as int),
        decreases left@.len() - at,
    {
        if left[at] != right[at] {
            return false;
        }
        at = at + 1;
        assert(left@.subrange(0, at as int) =~= left@.subrange(0, at - 1).push(left@[at - 1]));
        assert(right@.subrange(0, at as int) =~= right@.subrange(0, at - 1).push(right@[at - 1]));
    }
    assert(left@ =~= left@.subrange(0, at as int));
    assert(right@ =~= right@.subrange(0, at as int));
    true
}

/// Whether the name of a column type is one that holds a time.
fn holds_time(backend: Backend, column_type: &str) -> (r: bool)
    ensures
        r == names_time(backend, column_type@),
{
    match backend {
        Backend::Postgres => same_text(column_type, "TIMESTAMP") || same_text(
            column_type,
            "TIMESTAMPTZ",
        ) || same_text(column_type, "DATE"),
        _ => same_text(column_type, "TIMESTAMP") || same_text(column_type, "DATETIME") || same_text(
            column_type,
            "DATE",
        ),
    }
}

/// Whether a column of the named type can hold a moment.
pub fn compatible(backend: Backend, column_type: &str) -> (r: bool)
    ensures
        r == is_compatible(backend, column_type@),
{
    holds_time(backend, column_type) || same_text(column_type, "VARCHAR") || same_text(
        column_type,
        "TEXT",
    )
}

/// The form in which a column of the named type holds a moment.
pub fn wire(backend: Backend, column_type: &str) -> (r: Wire)
    ensures
        r == wire_of(backend, column_type@),
{
    match backend {
        Backend::Postgres => if same_text(column_type, "TIMESTAMP") || same_text(
            column_type,
            "TIMESTAMPTZ",
        ) {
            Wire::Microseconds
        } else if same_text(column_type, "DATE") {
            Wire::Days
        } else {
            Wire::Text
        },
        Backend::MySql => if holds_time(backend, column_type) {
            Wire::Packed
        } else {
            Wire::Text
        },
        Backend::Other => Wire::Text,
    }
}

impl Datetime {
    /// The moment that a count of microseconds since the year 2000 means, to
    /// the whole second, the part of a second being cut off toward 2000.
    pub fn from_microseconds(microseconds: i64) -> (r: Datetime)
        ensures
            r@ == year_2000().add_seconds(truncating_div(microseconds as int, 1_000_000)),
            r@.well_formed(),
            r@.second_number() == year_2000().second_number() + truncating_div(
                microseconds as int,
                1_000_000,
            ),
    {
        let seconds: i64 = microseconds / 1_000_000;
        let mut epoch = Datetime::from_fields(2000, 1, 1, 0, 0, 0);
        epoch.add_seconds(seconds);
        epoch
    }

    /// The date that a count of days since 1 January 2000 means, at midnight.
    pub fn from_days(days: i32) -> (r: Datetime)
        ensures
            r@ == year_2000().add_days(days as int),
            r@.well_formed(),
            r@.day_number() == year_2000().day_number() + days,
    {
        let mut epoch = Datetime::from_fields(2000, 1, 1, 0, 0, 0);
        epoch.add_days(days as i64);
        epoch
    }

    /// The microseconds from the year 2000 to the moment, or `None` where 64
    /// bits do not hold their count.
    pub fn to_microseconds(&self) -> (r: Option<i64>)
        ensures
            match r {
                Some(microseconds) => microseconds == 1_000_000 * self@.seconds_since(year_2000()),
                None => !(i64::MIN <= 1_000_000 * self@.seconds_since(year_2000()) <= i64::MAX),
            },
    {
        let epoch = Datetime::from_fields(2000, 1, 1, 0, 0, 0);
        match self.checked_seconds_since(epoch) {
            Some(seconds) => seconds.checked_mul(1_000_000),
            None => None,
        }
    }

    /// The moment that packed bytes hold, as they are; `None` where there are
    /// fewer bytes than the form has.
    pub fn from_packed(bytes: &[u8]) -> (r: Option<Datetime>)
        ensures
            match packed_moment(bytes@) {
                Some(moment) => r.is_some() && r.unwrap()@ == moment,
                None => r.is_none(),
            },
    {
        if bytes.len() < 5 {
            return None;
        }
        let year: i64 = bytes[2] as i64 * 256 + bytes[1] as i64;
        if bytes[0] > 4 {
            if bytes.len() < 8 {
                return None;
            }
            Some(Datetime::from_fields(year, bytes[3], bytes[4], bytes[5], bytes[6], bytes[7]))
        } else {
            Some(Datetime::from_fields(year, bytes[3], bytes[4], 0, 0, 0))
        }
    }

    /// The moment that a text names: in the fixed-width form where it is in
    /// that form, else in the loose form, else none.
    pub fn from_text(text: &str) -> (r: Option<Datetime>)
        ensures
            match text_moment(text.spec_bytes()) {
                Some(moment) => r.is_some() && r.unwrap()@ == moment,
                None => r.is_none(),
            },
    {
        match Datetime::from_rfc3339(text) {
            Some(moment) => Some(moment),
            None => Datetime::from_str(text),
        }
    }

    /// The moment that a column of text holds: what the text names, and the
    /// unset moment where it names none.
    pub fn from_column_text(text: &str) -> (r: Datetime)
        ensures
            r@ == match text_moment(text.spec_bytes()) {
                Some(moment) => moment,
                None => Moment::unset(),
            },
    {
        match Datetime::from_text(text) {
            Some(moment) => moment,
            None => Datetime::default(),
        }
    }

    /// The moment that a serialized text holds: the unset moment for an empty
    /// text, what the text names otherwise, and an error where it names none.
    pub fn from_serialized(text: &str) -> (r: Result<Datetime, FormatError>)
        ensures
            match serialized_moment(text.spec_bytes()) {
                Some(moment) => r.is_ok() && r.unwrap()@ == moment,
                None => r.is_err(),
            },
    {
        if text.as_bytes().len() == 0 {
            return Ok(Datetime::default());
        }
        match Datetime::from_text(text) {
            Some(moment) => Ok(moment),
            None => Err(FormatError {  }),
        }
    }
}

} // verus!
