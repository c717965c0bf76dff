//! The form in which a moment is written, and the law that the loose form
//! reads it back.

use crate::calendar::Moment;
use crate::datetime::Datetime;
use crate::decimal::{
    all_digits, is_digit, lemma_padded, lemma_padded_width, padded, power_of_ten, write_padded,
    COLON, DIGIT_ZERO, LETTER_B, LETTER_C, MINUS, SPACE,
};
use crate::loose::{
    after_run, at_run, behind_run, from_digit, head_run, leading_digits, leading_others,
    parse_loose, run,
};
use crate::reach::magnitude;
use vstd::prelude::*;
use vstd::utf8::{encode_utf8, is_ascii_chars, is_ascii_chars_encode_utf8};

verus! {

/// The mark of the era before the common one, for a negative year: ` BC`.
pub open spec fn era_mark(year: int) -> Seq<u8> {
    if year < 0 {
        seq![SPACE, LETTER_B, LETTER_C]
    } else {
        Seq::<u8>::empty()
    }
}

/// The text of a moment whose fields lie within bytes:
/// `YYYY-MM-DD hh:mm:ss`, each number with zeros before it up to its width,
/// the year without its sign and with ` BC` at the end where it is negative.
pub open spec fn moment_text(m: Moment) -> Seq<u8> {
    padded(magnitude(m.year) as nat, 4) + seq![MINUS]
        + padded(m.month as nat, 2) + seq![MINUS]
        + padded(m.day as nat, 2) + seq![SPACE]
        + padded(m.hour as nat, 2) + seq![COLON]
        + padded(m.minute as nat, 2) + seq![COLON]
        + padded(m.second as nat, 2)
        + era_mark(m.year)
}

/// The characters that the bytes of an ASCII text are.
pub open spec fn as_chars(bytes: Seq<u8>) -> Seq<char> {
    Seq::new(bytes.len(), |i: int| bytes[i] as char)
}

/// Whether the byte is one that the text of a moment is written with.
pub open spec fn is_written(byte: u8) -> bool {
    is_digit(byte) || byte == SPACE || byte == MINUS || byte == COLON || byte == LETTER_B
        || byte == LETTER_C
}

/// The text of a moment is written with digits and the five other bytes of
/// its form.
proof fn lemma_moment_text_is_written(m: Moment)
    ensures
        forall|i: int| 0 <= i < moment_text(m).len() ==> is_written(#[trigger] moment_text(m)[i]),
{
    lemma_padded(magnitude(m.year) as nat, 4);
    lemma_padded(m.month as nat, 2);
    lemma_padded(m.day as nat, 2);
    lemma_padded(m.hour as nat, 2);
    lemma_padded(m.minute as nat, 2);
    lemma_padded(m.second as nat, 2);
}

/// The bytes of a text of ASCII characters are the characters themselves.
proof fn lemma_ascii_bytes(bytes: Seq<u8>)
    requires
        forall|i: int| 0 <= i < bytes.len() ==> #[trigger] bytes[i] < 128,
    ensures
        encode_utf8(as_chars(bytes)) == bytes,
{
    let chars = as_chars(bytes);
    assert(is_ascii_chars(chars)) by {
        assert forall|i: int| 0 <= i < chars.len() implies (#[trigger] chars[i] as u32) < 128 by {
            assert(chars[i] == bytes[i] as char);
        }
    }
    is_ascii_chars_encode_utf8(chars);
    assert(encode_utf8(chars) =~= bytes);
}

/// Digits that are followed by something else than a digit are the digits
/// that the text begins with.
proof fn lemma_leading_digits_joined(digits: Seq<u8>, rest: Seq<u8>)
    requires
        all_digits(digits),
        rest.len() == 0 || !is_digit(rest[0]),
    ensures
        leading_digits(digits + rest) == digits.len(),
    decreases digits.len(),
{
    let whole = digits + rest;
    if digits.len() > 0 {
        let shorter = digits.drop_first();
        assert(whole.drop_first() =~= shorter + rest);
        assert(is_digit(digits[0]));
        assert forall|i: int| 0 <= i < shorter.len() implies is_digit(#[trigger] shorter[i]) by {
            assert(shorter[i] == digits[i + 1]);
        }
        lemma_leading_digits_joined(shorter, rest);
    } else {
        assert(whole =~= rest);
    }
}

/// Bytes other than digits that are followed by a digit, or by nothing, are
/// the others that the text begins with.
proof fn lemma_leading_others_joined(others: Seq<u8>, rest: Seq<u8>)
    requires
        forall|i: int| 0 <= i < others.len() ==> !is_digit(#[trigger] others[i]),
        rest.len() == 0 || is_digit(rest[0]),
    ensures
        leading_others(others + rest) == others.len(),
    decreases others.len(),
{
    let whole = others + rest;
    if others.len() > 0 {
        let shorter = others.drop_first();
        assert(whole.drop_first() =~= shorter + rest);
        assert(!is_digit(others[0]));
        assert forall|i: int| 0 <= i < shorter.len() implies !is_digit(#[trigger] shorter[i]) by {
            assert(shorter[i] == others[i + 1]);
        }
        lemma_leading_others_joined(shorter, rest);
    } else {
        assert(whole =~= rest);
    }
}

/// In a text of digits, one other byte and a text that begins with a digit,
/// the digits are the first run and the text behind the byte begins the
/// next.
proof fn lemma_run_then_next(digits: Seq<u8>, between: u8, next: Seq<u8>)
    requires
        digits.len() >= 1,
        all_digits(digits),
        !is_digit(between),
        next.len() >= 1,
        is_digit(next[0]),
    ensures
        from_digit(digits + (seq![between] + next)) == digits + (seq![between] + next),
        head_run(digits + (seq![between] + next)) == digits,
        from_digit(after_run(digits + (seq![between] + next))) == next,
{
    let behind = seq![between] + next;
    let whole = digits + behind;
    assert(is_digit(digits[0]));
    assert(whole[0] == digits[0]);
    assert(leading_others(whole) == 0);
    assert(from_digit(whole) =~= whole);
    lemma_leading_digits_joined(digits, behind);
    assert(head_run(whole) =~= digits);
    assert(after_run(whole) =~= behind);
    lemma_leading_others_joined(seq![between], next);
    assert(from_digit(behind) =~= next);
}

/// Where `text` from its run number `n` on is digits, one other byte and a
/// text that begins with a digit, the digits are run number `n` and the text
/// behind the byte is where run number `n + 1` begins.
proof fn lemma_run_step(text: Seq<u8>, n: nat, digits: Seq<u8>, between: u8, next: Seq<u8>)
    requires
        at_run(text, n) == digits + (seq![between] + next),
        digits.len() >= 1,
        all_digits(digits),
        !is_digit(between),
        next.len() >= 1,
        is_digit(next[0]),
    ensures
        run(text, n) == digits,
        at_run(text, n + 1) == next,
{
    lemma_run_then_next(digits, between, next);
}

/// Six runs of digits with one other byte between each two, and `tail`
/// behind the last.
spec fn six_runs(
    year: Seq<u8>,
    month: Seq<u8>,
    day: Seq<u8>,
    hour: Seq<u8>,
    minute: Seq<u8>,
    second: Seq<u8>,
    tail: Seq<u8>,
) -> Seq<u8> {
    let from_minute = minute + (seq![COLON] + (second + tail));
    let from_day = day + (seq![SPACE] + (hour + (seq![COLON] + from_minute)));
    year + (seq![MINUS] + (month + (seq![MINUS] + from_day)))
}

/// Whether the bytes are at least one and all digits.
spec fn is_run(digits: Seq<u8>) -> bool {
    digits.len() >= 1 && all_digits(digits)
}

/// The six runs of such a text are the six that it was made of, and what
/// follows the sixth is its tail.
proof fn lemma_six_runs(
    year: Seq<u8>,
    month: Seq<u8>,
    day: Seq<u8>,
    hour: Seq<u8>,
    minute: Seq<u8>,
    second: Seq<u8>,
    tail: Seq<u8>,
)
    requires
        is_run(year),
        is_run(month),
        is_run(day),
        is_run(hour),
        is_run(minute),
        is_run(second),
        forall|i: int| 0 <= i < tail.len() ==> !is_digit(#[trigger] tail[i]),
    ensures
        ({
            let text = six_runs(year, month, day, hour, minute, second, tail);
            &&& run(text, 0) == year
            &&& run(text, 1) == month
            &&& run(text, 2) == day
            &&& run(text, 3) == hour
            &&& run(text, 4) == minute
            &&& run(text, 5) == second
            &&& behind_run(text, 5) == tail
        }),
{
    let at_second = second + tail;
    let at_minute = minute + (seq![COLON] + at_second);
    let at_hour = hour + (seq![COLON] + at_minute);
    let at_day = day + (seq![SPACE] + at_hour);
    let at_month = month + (seq![MINUS] + at_day);
    let text = year + (seq![MINUS] + at_month);
    assert(is_digit(second[0]) && at_second[0] == second[0]);
    assert(is_digit(minute[0]) && at_minute[0] == minute[0]);
    assert(is_digit(hour[0]) && at_hour[0] == hour[0]);
    assert(is_digit(day[0]) && at_day[0] == day[0]);
    assert(is_digit(month[0]) && at_month[0] == month[0]);
    assert(at_run(text, 0) == text) by {
        lemma_run_then_next(year, MINUS, at_month);
    }
    lemma_run_step(text, 0, year, MINUS, at_month);
    lemma_run_step(text, 1, month, MINUS, at_day);
    lemma_run_step(text, 2, day, SPACE, at_hour);
    lemma_run_step(text, 3, hour, COLON, at_minute);
    lemma_run_step(text, 4, minute, COLON, at_second);
    assert(run(text, 5) == second && behind_run(text, 5) == tail) by {
        lemma_leading_digits_joined(second, tail);
        assert(head_run(at_second) =~= second);
        assert(after_run(at_second) =~= tail);
        lemma_leading_others_joined(tail, Seq::<u8>::empty());
        assert(tail + Seq::<u8>::empty() =~= tail);
        assert(tail.subrange(0, tail.len() as int) =~= tail);
    }
}

/// Joining texts does not depend on which two are joined first.
proof fn lemma_join(a: Seq<u8>, b: Seq<u8>, c: Seq<u8>)
    ensures
        (a + b) + c == a + (b + c),
{
    assert((a + b) + c =~= a + (b + c));
}

/// The text of a moment is six runs: its six numbers, and the mark of the era
/// behind them for a negative year.
proof fn lemma_moment_text_runs(m: Moment)
    ensures
        moment_text(m) == six_runs(
            padded(magnitude(m.year) as nat, 4),
            padded(m.month as nat, 2),
            padded(m.day as nat, 2),
            padded(m.hour as nat, 2),
            padded(m.minute as nat, 2),
            padded(m.second as nat, 2),
            era_mark(m.year),
        ),
{
    let year = padded(magnitude(m.year) as nat, 4);
    let month = padded(m.month as nat, 2);
    let day = padded(m.day as nat, 2);
    let hour = padded(m.hour as nat, 2);
    let minute = padded(m.minute as nat, 2);
    let second = padded(m.second as nat, 2);
    let tail = era_mark(m.year);
    let dash = seq![MINUS];
    let space = seq![SPACE];
    let colon = seq![COLON];
    let to_first_dash = year + dash;
    let to_month = to_first_dash + month;
    let to_second_dash = to_month + dash;
    let to_day = to_second_dash + day;
    let to_space = to_day + space;
    let to_hour = to_space + hour;
    let to_first_colon = to_hour + colon;
    let to_minute = to_first_colon + minute;
    let to_second_colon = to_minute + colon;
    let to_second = to_second_colon + second;
    let from_second = second + tail;
    let from_second_colon = colon + from_second;
    let from_minute = minute + from_second_colon;
    let from_first_colon = colon + from_minute;
    let from_hour = hour + from_first_colon;
    let from_space = space + from_hour;
    let from_day = day + from_space;
    let from_second_dash = dash + from_day;
    let from_month = month + from_second_dash;
    let from_first_dash = dash + from_month;
    lemma_join(to_second_colon, second, tail);
    lemma_join(to_minute, colon, from_second);
    lemma_join(to_first_colon, minute, from_second_colon);
    lemma_join(to_hour, colon, from_minute);
    lemma_join(to_space, hour, from_first_colon);
    lemma_join(to_day, space, from_hour);
    lemma_join(to_second_dash, day, from_space);
    lemma_join(to_month, dash, from_day);
    lemma_join(to_first_dash, month, from_second_dash);
    lemma_join(year, dash, from_month);
    assert(to_second + tail == year + from_first_dash);
}

/// The text of a moment with a year of at most four digits and every other
/// field of at most two has each number at a fixed place, and nothing behind
/// the second unless the year is negative.
pub proof fn lemma_written_places(m: Moment)
    requires
        -9999 <= m.year <= 9999,
        0 <= m.month <= 99,
        0 <= m.day <= 99,
        0 <= m.hour <= 99,
        0 <= m.minute <= 99,
        0 <= m.second <= 99,
    ensures
        moment_text(m).len() == 19 + era_mark(m.year).len(),
        moment_text(m).subrange(0, 4) == padded(magnitude(m.year) as nat, 4),
        moment_text(m).subrange(5, 7) == padded(m.month as nat, 2),
        moment_text(m).subrange(8, 10) == padded(m.day as nat, 2),
        moment_text(m).subrange(11, 13) == padded(m.hour as nat, 2),
        moment_text(m).subrange(14, 16) == padded(m.minute as nat, 2),
        moment_text(m).subrange(17, 19) == padded(m.second as nat, 2),
{
    assert(power_of_ten(4) == 10000 && power_of_ten(2) == 100) by {
        reveal_with_fuel(power_of_ten, 5);
    }
    lemma_padded_width(magnitude(m.year) as nat, 4);
    lemma_padded_width(m.month as nat, 2);
    lemma_padded_width(m.day as nat, 2);
    lemma_padded_width(m.hour as nat, 2);
    lemma_padded_width(m.minute as nat, 2);
    lemma_padded_width(m.second as nat, 2);
    let text = moment_text(m);
    assert(text.subrange(0, 4) =~= padded(magnitude(m.year) as nat, 4));
    assert(text.subrange(5, 7) =~= padded(m.month as nat, 2));
    assert(text.subrange(8, 10) =~= padded(m.day as nat, 2));
    assert(text.subrange(11, 13) =~= padded(m.hour as nat, 2));
    assert(text.subrange(14, 16) =~= padded(m.minute as nat, 2));
    assert(text.subrange(17, 19) =~= padded(m.second as nat, 2));
}

/// Written and read again in the loose form, a moment is what it was, as
/// long as its fields lie within bytes and its year, with the sign turned,
/// can still be held.
pub proof fn lemma_text_round_trip(m: Moment)
    requires
        m.fields_in_bytes(),
        -0x7fff_ffff_ffff_ffff <= m.year <= 0x7fff_ffff_ffff_ffff,
    ensures
        parse_loose(moment_text(m)) == Some(m),
{
    let tail = era_mark(m.year);
    lemma_padded(magnitude(m.year) as nat, 4);
    lemma_padded(m.month as nat, 2);
    lemma_padded(m.day as nat, 2);
    lemma_padded(m.hour as nat, 2);
    lemma_padded(m.minute as nat, 2);
    lemma_padded(m.second as nat, 2);
    lemma_moment_text_runs(m);
    lemma_six_runs(
        padded(magnitude(m.year) as nat, 4),
        padded(m.month as nat, 2),
        padded(m.day as nat, 2),
        padded(m.hour as nat, 2),
        padded(m.minute as nat, 2),
        padded(m.second as nat, 2),
        tail,
    );
    if m.year < 0 {
        let at: int = 1;
        assert(tail[at] == LETTER_B && tail[at + 1] == LETTER_C);
    }
}

/// Appends one byte of a moment's text as a character.
fn push_written(out: &mut String, byte: u8)
    requires
        is_written(byte),
    ensures
        final(out)@ == old(out)@.push(byte as char),
{
    proof {
        reveal_strlit("0");
        reveal_strlit("1");
        reveal_strlit("2");
        reveal_strlit("3");
        reveal_strlit("4");
        reveal_strlit("5");
        reveal_strlit("6");
        reveal_strlit("7");
        reveal_strlit("8");
        reveal_strlit("9");
        reveal_strlit(" ");
        reveal_strlit("-");
        reveal_strlit(":");
        reveal_strlit("B");
        reveal_strlit("C");
    }
    let piece: &str = if byte == SPACE {
        " "
    } else if byte == MINUS {
        "-"
    } else if byte == COLON {
        ":"
    } else if byte == LETTER_B {
        "B"
    } else if byte == LETTER_C {
        "C"
    } else {
        let digit = byte - DIGIT_ZERO;
        if digit == 0 {
            "0"
        } else if digit == 1 {
            "1"
        } else if digit == 2 {
            "2"
        } else if digit == 3 {
            "3"
        } else if digit == 4 {
            "4"
        } else if digit == 5 {
            "5"
        } else if digit == 6 {
            "6"
        } else if digit == 7 {
            "7"
        } else if digit == 8 {
            "8"
        } else {
            "9"
        }
    };
    assert(piece@ =~= seq![byte as char]);
    out.append(piece);
    assert(out@ =~= old(out)@.push(byte as char));
}

impl Datetime {
    /// The bytes of the moment's text: `YYYY-MM-DD hh:mm:ss`, the year
    /// without its sign, and ` BC` at the end for a year before the common
    /// era.
    pub fn to_bytes(&self) -> (text: Vec<u8>)
        ensures
            text@ == moment_text(self@),
            self@.year > i64::MIN ==> parse_loose(text@) == Some(self@),
    {
        proof {
            self.lemma_view_representable();
            if self@.year > i64::MIN {
                lemma_text_round_trip(self@);
            }
        }
        let year = self.year();
        let size: u64 = if year < 0 {
            (-(year as i128)) as u64
        } else {
            year as u64
        };
        let mut text: Vec<u8> = Vec::new();
        write_padded(&mut text, size, 4);
        text.push(MINUS);
        write_padded(&mut text, self.month() as u64, 2);
        text.push(MINUS);
        write_padded(&mut text, self.day() as u64, 2);
        text.push(SPACE);
        write_padded(&mut text, self.hour() as u64, 2);
        text.push(COLON);
        write_padded(&mut text, self.minute() as u64, 2);
        text.push(COLON);
        write_padded(&mut text, self.second() as u64, 2);
        if year < 0 {
            text.push(SPACE);
            text.push(66);
            text.push(67);
        }
        proof {
            self.lemma_view_representable();
            assert(text@ =~= moment_text(self@));
        }
        text
    }

    /// The moment's text: `YYYY-MM-DD hh:mm:ss`, each number with zeros before
    /// it up to its width, the year without its sign, and ` BC` at the end for
    /// a year before the common era. The text is ASCII, so its bytes are
    /// those of `moment_text`, and the loose form reads the moment back from
    /// it, but for the one year whose size cannot be held.
    pub fn to_string(&self) -> (text: String)
        ensures
            text@ == as_chars(moment_text(self@)),
            encode_utf8(text@) == moment_text(self@),
            self@.year > i64::MIN ==> parse_loose(encode_utf8(text@)) == Some(self@),
    {
        let bytes = self.to_bytes();
        proof {
            self.lemma_view_representable();
            lemma_moment_text_is_written(self@);
        }
        let mut text = String::new();
        let mut at: usize = 0;
        while at < bytes.len()
            invariant
                at <= bytes@.len(),
                forall|i: int| 0 <= i < bytes@.len() ==> is_written(#[trigger] bytes@[i]),
                text@ == as_chars(bytes@.subrange(0, at as int)),
            decreases bytes@.len() - at,
        {
            push_written(&mut text, bytes[at]);
            at = at + 1;
            assert(text@ =~= as_chars(bytes@.subrange(0, at as int)));
        }
        proof {
            assert(bytes@.subrange(0, at as int) =~= bytes@);
            lemma_ascii_bytes(bytes@);
        }
        text
    }
}

} // verus!
