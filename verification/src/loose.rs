//! The loose form of a moment: runs of digits with anything between them.
//!
//! Text is taken as bytes. A digit is an ASCII digit; every other byte,
//! whatever character it is part of, separates.

use crate::calendar::Moment;
use crate::datetime::Datetime;
use crate::decimal::{
    bounded_number, is_digit, read_number, DIGIT_NINE, DIGIT_ZERO, LETTER_B, LETTER_C,
};
use vstd::prelude::*;
use vstd::string::StringSliceAdditionalSpecFns;

verus! {

/// The number of digits that `text` begins with.
pub open spec fn leading_digits(text: Seq<u8>) -> nat
    decreases text.len(),
{
    if text.len() > 0 && is_digit(text[0]) {
        1 + leading_digits(text.drop_first())
    } else {
        0
    }
}

/// The number of bytes other than digits that `text` begins with.
pub open spec fn leading_others(text: Seq<u8>) -> nat
    decreases text.len(),
{
    if text.len() > 0 && !is_digit(text[0]) {
        1 + leading_others(text.drop_first())
    } else {
        0
    }
}

/// `text` from its first digit on.
pub open spec fn from_digit(text: Seq<u8>) -> Seq<u8> {
    text.subrange(leading_others(text) as int, text.len() as int)
}

/// The digits that `text` begins with.
pub open spec fn head_run(text: Seq<u8>) -> Seq<u8> {
    text.subrange(0, leading_digits(text) as int)
}

/// `text` behind the digits that it begins with.
pub open spec fn after_run(text: Seq<u8>) -> Seq<u8> {
    text.subrange(leading_digits(text) as int, text.len() as int)
}

/// Whether `text` holds the mark of the era before the common one: `BC`.
pub open spec fn has_era_mark(text: Seq<u8>) -> bool {
    exists|i: int|
        0 <= i && i + 1 < text.len() && text[i] == LETTER_B && #[trigger] text[i + 1] == LETTER_C
}

/// The number that a run of digits writes where it fits in a byte, else 0.
pub open spec fn byte_or_zero(digits: Seq<u8>) -> int {
    match bounded_number(digits, 255) {
        Some(value) => value,
        None => 0,
    }
}

/// `text` from its run of digits number `n` on, the first run being number
/// 0; empty where there are not that many runs.
pub open spec fn at_run(text: Seq<u8>, n: nat) -> Seq<u8>
    decreases n,
{
    if n == 0 {
        from_digit(text)
    } else {
        from_digit(after_run(at_run(text, (n - 1) as nat)))
    }
}

/// The run of digits number `n` of `text`; empty where there are not that
/// many runs.
pub open spec fn run(text: Seq<u8>, n: nat) -> Seq<u8> {
    head_run(at_run(text, n))
}

/// What follows the run of digits number `n` of `text` before the next
/// digit.
pub open spec fn behind_run(text: Seq<u8>, n: nat) -> Seq<u8> {
    let rest = after_run(at_run(text, n));
    rest.subrange(0, leading_others(rest) as int)
}

/// The moment that `text` names in the loose form: the first six runs of
/// digits are the year, month, day, hour, minute and second, whatever stands
/// between them. The year, the month and the day must be there and must fit
/// their fields; an hour, minute or second that is not there or does not fit
/// is 0. Where all six are there and `BC` stands in what follows the second
/// before the next digit, the year is before the common era.
pub open spec fn parse_loose(text: Seq<u8>) -> Option<Moment> {
    match (
        bounded_number(run(text, 0), 0x7fff_ffff_ffff_ffff),
        bounded_number(run(text, 1), 255),
        bounded_number(run(text, 2), 255),
    ) {
        (Some(year), Some(month), Some(day)) => Some(
            Moment {
                year: if has_era_mark(behind_run(text, 5)) {
                    -year
                } else {
                    year
                },
                month,
                day,
                hour: byte_or_zero(run(text, 3)),
                minute: byte_or_zero(run(text, 4)),
                second: byte_or_zero(run(text, 5)),
            },
        ),
        _ => None,
    }
}

/// Finds the end of the digits that stand at `from`.
fn skip_digits(text: &[u8], from: usize) -> (to: usize)
    requires
        from <= text@.len(),
    ensures
        from <= to <= text@.len(),
        to - from == leading_digits(text@.subrange(from as int, text@.len() as int)),
{
    let mut to: usize = from;
    while to < text.len() && DIGIT_ZERO <= text[to] && text[to] <= DIGIT_NINE
        invariant
            from <= to <= text@.len(),
            leading_digits(text@.subrange(from as int, text@.len() as int)) == (to - from)
                + leading_digits(text@.subrange(to as int, text@.len() as int)),
        decreases text@.len() - to,
    {
        assert(text@.subrange(to as int, text@.len() as int).drop_first() =~= text@.subrange(
            to + 1,
            text@.len() as int,
        ));
        to = to + 1;
    }
    to
}

/// Finds the first digit at or behind `from`.
fn skip_others(text: &[u8], from: usize) -> (to: usize)
    requires
        from <= text@.len(),
    ensures
        from <= to <= text@.len(),
        to - from == leading_others(text@.subrange(from as int, text@.len() as int)),
{
    let mut to: usize = from;
    while to < text.len() && !(DIGIT_ZERO <= text[to] && text[to] <= DIGIT_NINE)
        invariant
            from <= to <= text@.len(),
            leading_others(text@.subrange(from as int, text@.len() as int)) == (to - from)
                + leading_others(text@.subrange(to as int, text@.len() as int)),
        decreases text@.len() - to,
    {
        assert(text@.subrange(to as int, text@.len() as int).drop_first() =~= text@.subrange(
            to + 1,
            text@.len() as int,
        ));
        to = to + 1;
    }
    to
}

/// Finds the run of digits number `n`, given where the run before it ends:
/// where it begins and where it ends.
fn next_run(text: &[u8], from: usize, Ghost(n): Ghost<nat>) -> (found: (usize, usize))
    requires
        from <= text@.len(),
        n == 0 ==> from == 0,
        n > 0 ==> text@.subrange(from as int, text@.len() as int) == after_run(
            at_run(text@, (n - 1) as nat),
        ),
    ensures
        from <= found.0 <= found.1 <= text@.len(),
        text@.subrange(found.0 as int, found.1 as int) == run(text@, n),
        text@.subrange(found.1 as int, text@.len() as int) == after_run(at_run(text@, n)),
{
    let begin = skip_others(text, from);
    let end = skip_digits(text, begin);
    let ghost behind = text@.subrange(from as int, text@.len() as int);
    let ghost at = text@.subrange(begin as int, text@.len() as int);
    assert(from_digit(behind) =~= at);
    assert(text@.subrange(0, text@.len() as int) =~= text@);
    assert(at == at_run(text@, n));
    assert(head_run(at) =~= text@.subrange(begin as int, end as int));
    assert(after_run(at) =~= text@.subrange(end as int, text@.len() as int));
    (begin, end)
}

/// Whether `text[from..to]` holds `BC`.
fn holds_era_mark(text: &[u8], from: usize, to: usize) -> (found: bool)
    requires
        from <= to <= text@.len(),
    ensures
        found == has_era_mark(text@.subrange(from as int, to as int)),
{
    let ghost tail = text@.subrange(from as int, to as int);
    let mut at: usize = from;
    while at < to && at + 1 < to
        invariant
            from <= at <= to <= text@.len(),
            tail == text@.subrange(from as int, to as int),
            forall|i: int|
                0 <= i < at - from && i + 1 < tail.len() ==> !(tail[i] == LETTER_B
                    && #[trigger] tail[i + 1] == LETTER_C),
        decreases to - at,
    {
        if text[at] == LETTER_B && text[at + 1] == LETTER_C {
            assert(tail[at - from] == LETTER_B && tail[at - from + 1] == LETTER_C);
            return true;
        }
        at = at + 1;
    }
    false
}

/// Reads a run of digits as a byte, or as 0 where it does not write one.
fn read_byte_or_zero(text: &[u8], from: usize, to: usize) -> (r: u8)
    requires
        from <= to <= text@.len(),
    ensures
        r == byte_or_zero(text@.subrange(from as int, to as int)),
{
    match read_number(text, from, to, 255) {
        Some(value) => value as u8,
        None => 0,
    }
}

impl Datetime {
    /// Reads a moment in the loose form: six runs of digits with anything
    /// between them, of which the last three may be missing, and `BC` behind
    /// the sixth for a year before the common era. `None` where there are
    /// fewer than three runs, or where the year, the month or the day does not
    /// fit its field.
    pub fn from_str(dt: &str) -> (r: Option<Datetime>)
        ensures
            match parse_loose(dt.spec_bytes()) {
                Some(moment) => r.is_some() && r.unwrap()@ == moment,
                None => r.is_none(),
            },
    {
        let text = dt.as_bytes();
        let (year_from, year_to) = next_run(text, 0, Ghost(0));
        let (month_from, month_to) = next_run(text, year_to, Ghost(1));
        let (day_from, day_to) = next_run(text, month_to, Ghost(2));
        let (hour_from, hour_to) = next_run(text, day_to, Ghost(3));
        let (minute_from, minute_to) = next_run(text, hour_to, Ghost(4));
        let (second_from, second_to) = next_run(text, minute_to, Ghost(5));
        let tail_to = skip_others(text, second_to);
        assert(behind_run(text@, 5) =~= text@.subrange(second_to as int, tail_to as int));
        let year = match read_number(text, year_from, year_to, 0x7fff_ffff_ffff_ffff) {
            Some(value) => value as i64,
            None => return None,
        };
        let month = match read_number(text, month_from, month_to, 255) {
            Some(value) => value as u8,
            None => return None,
        };
        let day = match read_number(text, day_from, day_to, 255) {
            Some(value) => value as u8,
            None => return None,
        };
        let hour = read_byte_or_zero(text, hour_from, hour_to);
        let minute = read_byte_or_zero(text, minute_from, minute_to);
        let second = read_byte_or_zero(text, second_from, second_to);
        let year = if holds_era_mark(text, second_to, tail_to) {
            -year
        } else {
            year
        };
        Some(Datetime::from_fields(year, month, day, hour, minute, second))
    }
}

} // verus!
