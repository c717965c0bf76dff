//! Numbers as decimal digits: the number that a run of digits writes, with a
//! sign or within a bound, and the digits that write a number, with zeros
//! before them up to a width.
//!
//! Text is taken as bytes. A digit is an ASCII digit.

use vstd::prelude::*;

verus! {

/// The byte of the digit `0`.
pub const DIGIT_ZERO: u8 = 48;

/// The byte of the digit `9`.
pub const DIGIT_NINE: u8 = 57;

/// The byte of `+`.
pub const PLUS: u8 = 43;

/// The byte of `-`.
pub const MINUS: u8 = 45;

/// The byte of `:`.
pub const COLON: u8 = 58;

/// The byte of a space.
pub const SPACE: u8 = 32;

/// The byte of `B`.
pub const LETTER_B: u8 = 66;

/// The byte of `C`.
pub const LETTER_C: u8 = 67;

/// Whether the byte is an ASCII digit.
pub open spec fn is_digit(byte: u8) -> bool {
    DIGIT_ZERO <= byte <= DIGIT_NINE
}

/// Whether every byte is a digit.
pub open spec fn all_digits(text: Seq<u8>) -> bool {
    forall|i: int| 0 <= i < text.len() ==> is_digit(#[trigger] text[i])
}

/// The number that the digits write in base ten; 0 for no digits.
pub open spec fn digits_value(digits: Seq<u8>) -> nat
    decreases digits.len(),
{
    if digits.len() == 0 {
        0
    } else {
        digits_value(digits.drop_last()) * 10 + (digits.last() - DIGIT_ZERO) as nat
    }
}

/// The number that `digits` writes, where there is at least one digit, there
/// is nothing but digits, and the number is at most `most`.
pub open spec fn bounded_number(digits: Seq<u8>, most: int) -> Option<int> {
    if digits.len() > 0 && all_digits(digits) && digits_value(digits) <= most {
        Some(digits_value(digits) as int)
    } else {
        None
    }
}

/// The signed number that `text` writes: one `+` or `-` may come first, at
/// least one digit follows and nothing else, and the number can be held in 64
/// bits.
pub open spec fn parse_integer(text: Seq<u8>) -> Option<int> {
    if text.len() > 0 && text[0] == MINUS {
        match bounded_number(text.subrange(1, text.len() as int), 0x8000_0000_0000_0000) {
            Some(value) => Some(-value),
            None => None,
        }
    } else if text.len() > 0 && text[0] == PLUS {
        bounded_number(text.subrange(1, text.len() as int), 0x7fff_ffff_ffff_ffff)
    } else {
        bounded_number(text, 0x7fff_ffff_ffff_ffff)
    }
}

/// Digits that are written after others make the number no smaller.
proof fn lemma_digits_value_grows(digits: Seq<u8>, upto: int)
    requires
        0 <= upto <= digits.len(),
        all_digits(digits),
    ensures
        digits_value(digits.subrange(0, upto)) <= digits_value(digits),
    decreases digits.len() - upto,
{
    if upto == digits.len() {
        assert(digits.subrange(0, upto) =~= digits);
    } else {
        let shorter = digits.drop_last();
        assert(shorter.subrange(0, upto) =~= digits.subrange(0, upto));
        lemma_digits_value_grows(shorter, upto);
    }
}

/// Reads `text[from..to]` as a number of at most `most`.
pub(crate) fn read_number(text: &[u8], from: usize, to: usize, most: u64) -> (r: Option<u64>)
    requires
        from <= to <= text@.len(),
    ensures
        match bounded_number(text@.subrange(from as int, to as int), most as int) {
            Some(value) => r == Some(value as u64),
            None => r.is_none(),
        },
{
    let ghost digits = text@.subrange(from as int, to as int);
    if from == to {
        return None;
    }
    let mut value: u128 = 0;
    let mut at: usize = from;
    while at < to
        invariant
            from <= at <= to <= text@.len(),
            digits == text@.subrange(from as int, to as int),
            all_digits(digits.subrange(0, at - from)),
            value == digits_value(digits.subrange(0, at - from)),
            value <= most,
        decreases to - at,
    {
        let byte = text[at];
        if byte < DIGIT_ZERO || byte > DIGIT_NINE {
            assert(!is_digit(digits[at - from]));
            return None;
        }
        let ghost read = digits.subrange(0, at - from + 1);
        assert(read.drop_last() =~= digits.subrange(0, at - from));
        assert(read.last() == byte);
        value = value * 10 + (byte - DIGIT_ZERO) as u128;
        if value > most as u128 {
            proof {
                if all_digits(digits) {
                    lemma_digits_value_grows(digits, at - from + 1);
                }
            }
            return None;
        }
        at = at + 1;
    }
    assert(digits.subrange(0, at - from) =~= digits);
    Some(value as u64)
}

/// Reads `text[from..to]` as a signed number.
pub(crate) fn read_integer(text: &[u8], from: usize, to: usize) -> (r: Option<i64>)
    requires
        from <= to <= text@.len(),
    ensures
        match parse_integer(text@.subrange(from as int, to as int)) {
            Some(value) => r == Some(value as i64),
            None => r.is_none(),
        },
{
    let ghost piece = text@.subrange(from as int, to as int);
    if from < to && text[from] == MINUS {
        assert(piece.subrange(1, piece.len() as int) =~= text@.subrange(from + 1, to as int));
        match read_number(text, from + 1, to, 0x8000_0000_0000_0000) {
            Some(value) => Some((-(value as i128)) as i64),
            None => None,
        }
    } else if from < to && text[from] == PLUS {
        assert(piece.subrange(1, piece.len() as int) =~= text@.subrange(from + 1, to as int));
        match read_number(text, from + 1, to, 0x7fff_ffff_ffff_ffff) {
            Some(value) => Some(value as i64),
            None => None,
        }
    } else {
        match read_number(text, from, to, 0x7fff_ffff_ffff_ffff) {
            Some(value) => Some(value as i64),
            None => None,
        }
    }
}

/// A number written in at most four bytes has at most four digits, one
/// written in at most two bytes at most two.
pub(crate) proof fn lemma_short_number(text: Seq<u8>)
    requires
        text.len() <= 4,
    ensures
        parse_integer(text) matches Some(value) ==> -9999 <= value <= 9999,
        text.len() <= 2 ==> (parse_integer(text) matches Some(value) ==> -99 <= value <= 99),
{
    reveal_with_fuel(digits_value, 5);
    if text.len() > 0 && (text[0] == MINUS || text[0] == PLUS) {
        let digits = text.subrange(1, text.len() as int);
        if all_digits(digits) && digits.len() > 0 {
            lemma_digits_bound(digits);
        }
    } else if all_digits(text) && text.len() > 0 {
        lemma_digits_bound(text);
    }
}

/// At most four digits write a number below ten thousand, at most two a
/// number below one hundred.
proof fn lemma_digits_bound(digits: Seq<u8>)
    requires
        digits.len() <= 4,
        all_digits(digits),
    ensures
        digits_value(digits) <= 9999,
        digits.len() <= 2 ==> digits_value(digits) <= 99,
    decreases digits.len(),
{
    if digits.len() > 0 {
        let shorter = digits.drop_last();
        assert(is_digit(digits[digits.len() - 1]));
        assert forall|i: int| 0 <= i < shorter.len() implies is_digit(#[trigger] shorter[i]) by {
            assert(shorter[i] == digits[i]);
        }
        lemma_digits_bound_three(shorter);
    }
}

/// At most three digits write a number below one thousand.
proof fn lemma_digits_bound_three(digits: Seq<u8>)
    requires
        digits.len() <= 3,
        all_digits(digits),
    ensures
        digits_value(digits) <= 999,
        digits.len() <= 1 ==> digits_value(digits) <= 9,
{
    reveal_with_fuel(digits_value, 4);
    if digits.len() == 3 {
        assert(is_digit(digits[0]) && is_digit(digits[1]) && is_digit(digits[2]));
        assert(digits.drop_last().drop_last().drop_last().len() == 0);
    } else if digits.len() == 2 {
        assert(is_digit(digits[0]) && is_digit(digits[1]));
    } else if digits.len() == 1 {
        assert(is_digit(digits[0]));
    }
}

/// The digits that write `n` in base ten, without leading zeros.
pub open spec fn decimal(n: nat) -> Seq<u8>
    decreases n,
{
    if n < 10 {
        seq![(DIGIT_ZERO + n) as u8]
    } else {
        decimal(n / 10).push((DIGIT_ZERO + n % 10) as u8)
    }
}

/// `count` zeros.
pub open spec fn zeros(count: nat) -> Seq<u8> {
    Seq::new(count, |i: int| DIGIT_ZERO)
}

/// The digits that write `n`, with zeros before them up to `width` digits.
pub open spec fn padded(n: nat, width: nat) -> Seq<u8> {
    let digits = decimal(n);
    if digits.len() < width {
        zeros((width - digits.len()) as nat) + digits
    } else {
        digits
    }
}

/// The digits that write a number are digits, at least one, and write it.
pub proof fn lemma_decimal(n: nat)
    ensures
        decimal(n).len() >= 1,
        all_digits(decimal(n)),
        digits_value(decimal(n)) == n,
    decreases n,
{
    if n >= 10 {
        lemma_decimal(n / 10);
        let shorter = decimal(n / 10);
        let whole = decimal(n);
        assert(whole.drop_last() =~= shorter);
        assert(whole.last() == DIGIT_ZERO + n % 10);
        assert forall|i: int| 0 <= i < whole.len() implies is_digit(#[trigger] whole[i]) by {
            if i < shorter.len() {
                assert(whole[i] == shorter[i]);
            }
        }
    } else {
        let whole = decimal(n);
        assert(whole.drop_last() =~= Seq::<u8>::empty());
        assert(whole.last() == DIGIT_ZERO + n);
        assert(digits_value(whole.drop_last()) == 0);
    }
}

/// Ten to the power of `k`.
pub open spec fn power_of_ten(k: nat) -> nat
    decreases k,
{
    if k == 0 {
        1
    } else {
        10 * power_of_ten((k - 1) as nat)
    }
}

/// A number below ten to the power of `k` is written in at most `k` digits.
pub proof fn lemma_decimal_length(n: nat, k: nat)
    requires
        k >= 1,
        n < power_of_ten(k),
    ensures
        decimal(n).len() <= k,
    decreases k,
{
    if n >= 10 {
        if k == 1 {
            assert(power_of_ten(1) == 10) by {
                reveal_with_fuel(power_of_ten, 2);
            }
        } else {
            lemma_decimal_length(n / 10, (k - 1) as nat);
        }
    }
}

/// Zeros before digits do not change the number that they write.
proof fn lemma_leading_zeros(count: nat, digits: Seq<u8>)
    ensures
        digits_value(zeros(count) + digits) == digits_value(digits),
    decreases digits.len(), count,
{
    let whole = zeros(count) + digits;
    if digits.len() > 0 {
        assert(whole.drop_last() =~= zeros(count) + digits.drop_last());
        lemma_leading_zeros(count, digits.drop_last());
    } else if count > 0 {
        assert(whole.drop_last() =~= zeros((count - 1) as nat) + digits);
        lemma_leading_zeros((count - 1) as nat, digits);
    } else {
        assert(whole =~= digits);
    }
}

/// A number written with zeros before it is written in digits, at least as
/// many as the width and at least one, and they write the number.
pub proof fn lemma_padded(n: nat, width: nat)
    ensures
        padded(n, width).len() >= 1,
        padded(n, width).len() >= width,
        all_digits(padded(n, width)),
        digits_value(padded(n, width)) == n,
{
    lemma_decimal(n);
    let digits = decimal(n);
    if digits.len() < width {
        lemma_leading_zeros((width - digits.len()) as nat, digits);
    }
}

/// A number below ten to the power of the width is written in exactly as
/// many digits as the width.
pub proof fn lemma_padded_width(n: nat, width: nat)
    requires
        width >= 1,
        n < power_of_ten(width),
    ensures
        padded(n, width).len() == width,
{
    lemma_decimal_length(n, width);
}

/// A number written in digits, with zeros before it or not, is read as
/// itself where it can be held.
pub proof fn lemma_padded_is_read(n: nat, width: nat)
    requires
        n <= 0x7fff_ffff_ffff_ffff,
    ensures
        parse_integer(padded(n, width)) == Some(n as int),
{
    lemma_padded(n, width);
    let digits = padded(n, width);
    assert(is_digit(digits[0]));
}

/// Counts the digits that write `n`.
fn count_digits(n: u64) -> (count: usize)
    ensures
        count == decimal(n as nat).len(),
        1 <= count <= 20,
    decreases n,
{
    proof {
        assert(power_of_ten(20) == 100_000_000_000_000_000_000) by {
            reveal_with_fuel(power_of_ten, 21);
        }
        lemma_decimal_length(n as nat, 20);
    }
    if n < 10 {
        1
    } else {
        count_digits(n / 10) + 1
    }
}

/// Writes the digits of `n`.
fn write_decimal(out: &mut Vec<u8>, n: u64)
    ensures
        final(out)@ == old(out)@ + decimal(n as nat),
    decreases n,
{
    if n >= 10 {
        write_decimal(out, n / 10);
    }
    out.push(DIGIT_ZERO + (n % 10) as u8);
    assert(final(out)@ =~= old(out)@ + decimal(n as nat));
}

/// Writes `n` with zeros before it up to `width` digits.
pub(crate) fn write_padded(out: &mut Vec<u8>, n: u64, width: usize)
    ensures
        final(out)@ == old(out)@ + padded(n as nat, width as nat),
{
    let count = count_digits(n);
    let mut written: usize = count;
    while written < width
        invariant
            count <= written,
            written <= width || written == count,
            out@ == old(out)@ + zeros((written - count) as nat),
        decreases width - written,
    {
        out.push(DIGIT_ZERO);
        written = written + 1;
        assert(out@ =~= old(out)@ + zeros((written - count) as nat));
    }
    let ghost before = out@;
    write_decimal(out, n);
    assert(out@ =~= old(out)@ + padded(n as nat, width as nat));
}

} // verus!
