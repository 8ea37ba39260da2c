//! The timestamps of the PLC: which texts are timestamps, and what time each
//! one gives.

use vstd::arithmetic::div_mod::{
    lemma_fundamental_div_mod, lemma_fundamental_div_mod_converse,
};
use vstd::prelude::*;
use vstd::string::*;

use crate::numeral::{digit_value, digits_value, lemma_digits_bound, pow10};

verus! {

/// Whether a year of the Gregorian calendar has a leap day.
pub open spec fn is_leap(year: int) -> bool {
    year % 4 == 0 && (year % 100 != 0 || year % 400 == 0)
}

/// The number of days of a month; no other month has any.
pub open spec fn month_days(year: int, month: int) -> int {
    if month == 4 || month == 6 || month == 9 || month == 11 {
        30
    } else if month == 2 {
        if is_leap(year) {
            29
        } else {
            28
        }
    } else if 1 <= month <= 12 {
        31
    } else {
        0
    }
}

/// The decimal number of `length` digits at `start`.
pub open spec fn number_at(text: Seq<char>, start: int, length: int) -> Option<nat> {
    digits_value(text.subrange(start, start + length), 10)
}

/// Whether `text` has the shape `YYYY-MM-DDTHH:MM:SS+HH:MM`, with either sign.
pub open spec fn has_timestamp_shape(text: Seq<char>) -> bool {
    &&& text.len() == 25
    &&& text[4] == '-'
    &&& text[7] == '-'
    &&& text[10] == 'T'
    &&& text[13] == ':'
    &&& text[16] == ':'
    &&& text[19] == '+' || text[19] == '-'
    &&& text[22] == ':'
    &&& number_at(text, 0, 4) is Some
    &&& number_at(text, 5, 2) is Some
    &&& number_at(text, 8, 2) is Some
    &&& number_at(text, 11, 2) is Some
    &&& number_at(text, 14, 2) is Some
    &&& number_at(text, 17, 2) is Some
    &&& number_at(text, 20, 2) is Some
    &&& number_at(text, 23, 2) is Some
}

/// Whether `text` is a timestamp of the PLC: of the right shape, with a date
/// that exists, a time of day and an offset of less than a day.
pub open spec fn is_timestamp(text: Seq<char>) -> bool {
    &&& has_timestamp_shape(text)
    &&& 1 <= number_at(text, 8, 2)->0 <= month_days(
        number_at(text, 0, 4)->0 as int,
        number_at(text, 5, 2)->0 as int,
    )
    &&& number_at(text, 11, 2)->0 <= 23
    &&& number_at(text, 14, 2)->0 <= 59
    &&& number_at(text, 17, 2)->0 <= 59
    &&& number_at(text, 20, 2)->0 <= 23
    &&& number_at(text, 23, 2)->0 <= 59
}

/// The days from the start of year 0 to the start of a year.
pub open spec fn days_before_year(year: int) -> int
    decreases year,
{
    if year <= 0 {
        0
    } else {
        days_before_year(year - 1) + (if is_leap(year - 1) {
            366int
        } else {
            365int
        })
    }
}

/// The days from the start of a year to the start of one of its months.
pub open spec fn days_before_month(year: int, month: int) -> int
    decreases month,
{
    if month <= 1 {
        0
    } else {
        days_before_month(year, month - 1) + month_days(year, month - 1)
    }
}

/// The days from 1970-01-01 to a date of the Gregorian calendar.
pub open spec fn unix_days(year: int, month: int, day: int) -> int {
    days_before_year(year) + days_before_month(year, month) + (day - 1) - 719528
}

/// The milliseconds from 1970-01-01T00:00:00Z to a timestamp.
pub open spec fn timestamp_millis(text: Seq<char>) -> int {
    let days = unix_days(
        number_at(text, 0, 4)->0 as int,
        number_at(text, 5, 2)->0 as int,
        number_at(text, 8, 2)->0 as int,
    );
    let time = number_at(text, 11, 2)->0 * 3600 + number_at(text, 14, 2)->0 * 60 + number_at(
        text,
        17,
        2,
    )->0;
    let offset = number_at(text, 20, 2)->0 * 3600 + number_at(text, 23, 2)->0 * 60;
    (days * 86400 + time - (if text[19] == '-' {
        -(offset as int)
    } else {
        offset as int
    })) * 1000
}

/// Whether a year of the Gregorian calendar has a leap day.
pub fn is_leap_year(year: u32) -> (leap: bool)
    ensures
        leap == is_leap(year as int),
{
    year % 4 == 0 && (year % 100 != 0 || year % 400 == 0)
}

/// Bytes read as the characters with those codes.
pub open spec fn byte_chars(bytes: Seq<u8>) -> Seq<char> {
    bytes.map_values(|byte: u8| byte as char)
}

/// Whether no run of digits from the start stands for more than 32 bits hold.
pub open spec fn digits_fit(bytes: Seq<u8>) -> bool {
    forall|n: int|
        0 <= n <= bytes.len() ==> (#[trigger] digits_value(byte_chars(bytes).take(n), 10) matches Some(
            value,
        ) ==> value <= u32::MAX)
}

/// Reads a decimal number of `length` digits at `start`; `None` where the
/// bytes end early or hold something else.
pub fn parse_digits(bytes: &[u8], start: usize, length: usize) -> (number: Option<u32>)
    requires
        start + length <= usize::MAX,
        start + length <= bytes@.len() ==> digits_fit(
            bytes@.subrange(start as int, start + length),
        ),
    ensures
        number is Some <==> start + length <= bytes@.len() && digits_value(
            byte_chars(bytes@.subrange(start as int, start + length)),
            10,
        ) is Some,
        number matches Some(value) ==> digits_value(
            byte_chars(bytes@.subrange(start as int, start + length)),
            10,
        ) == Some(value as nat),
{
    if start + length > bytes.len() {
        return None;
    }
    let ghost digits = byte_chars(bytes@.subrange(start as int, start + length));
    let mut value: u32 = 0;
    let mut i: usize = 0;
    assert(digits.take(0) =~= Seq::empty());
    while i < length
        invariant
            i <= length,
            start + length <= bytes@.len(),
            digits == byte_chars(bytes@.subrange(start as int, start + length)),
            digits_fit(bytes@.subrange(start as int, start + length)),
            digits_value(digits.take(i as int), 10) == Some(value as nat),
        decreases length - i,
    {
        let byte = bytes[start + i];
        assert(digits.take(i + 1).drop_last() =~= digits.take(i as int));
        assert(digits.take(i + 1).last() == byte as char);
        if byte < 0x30 || byte > 0x39 {
            proof {
                lemma_bad_digit(digits, i as int);
            }
            return None;
        }
        proof {
            assert(digits_value(digits.take(i + 1), 10) == Some(
                (value * 10 + (byte - 48)) as nat,
            ));
        }
        value = value * 10 + (byte - 0x30) as u32;
        i += 1;
    }
    assert(digits.take(length as int) =~= digits);
    Some(value)
}

/// A run of characters with one that is no digit is no number.
proof fn lemma_bad_digit(digits: Seq<char>, bad: int)
    requires
        0 <= bad < digits.len(),
        digit_value(digits[bad], 10) is None,
    ensures
        digits_value(digits, 10) is None,
    decreases digits.len(),
{
    if bad < digits.len() - 1 {
        lemma_bad_digit(digits.drop_last(), bad);
    }
}

/// Up to nine digits stand for a number that 32 bits hold.
proof fn lemma_digits_fit(bytes: Seq<u8>)
    requires
        bytes.len() <= 9,
    ensures
        digits_fit(bytes),
{
    assert forall|n: int| 0 <= n <= bytes.len() implies (#[trigger] digits_value(
        byte_chars(bytes).take(n),
        10,
    ) matches Some(value) ==> value <= u32::MAX) by {
        lemma_digits_bound(byte_chars(bytes).take(n));
        reveal_with_fuel(pow10, 10);
    }
}

/// In a timestamp every character is ASCII.
proof fn lemma_timestamp_is_ascii(text: Seq<char>)
    requires
        has_timestamp_shape(text),
    ensures
        vstd::utf8::is_ascii_chars(text),
{
    assert forall|i: int| 0 <= i < text.len() implies '\0' <= #[trigger] text[i] <= '\u{7f}' by {
        lemma_digit_at(text, 0, 4, i);
        lemma_digit_at(text, 5, 2, i);
        lemma_digit_at(text, 8, 2, i);
        lemma_digit_at(text, 11, 2, i);
        lemma_digit_at(text, 14, 2, i);
        lemma_digit_at(text, 17, 2, i);
        lemma_digit_at(text, 20, 2, i);
        lemma_digit_at(text, 23, 2, i);
    }
}

/// Where a number stands, every character is a digit.
proof fn lemma_digit_at(text: Seq<char>, start: int, length: int, i: int)
    requires
        0 <= start,
        0 <= length,
        start + length <= text.len(),
        number_at(text, start, length) is Some,
    ensures
        start <= i < start + length ==> '0' <= text[i] <= '9',
{
    if start <= i < start + length {
        let digits = text.subrange(start, start + length);
        if digit_value(digits[i - start], 10) is None {
            lemma_bad_digit(digits, i - start);
        }
    }
}

/// Reads the number of `length` digits at `start` of an ASCII text.
fn ascii_number(text: &str, start: usize, length: usize) -> (number: Option<u32>)
    requires
        text.is_ascii(),
        length <= 9,
        start + length <= text@.len(),
        text@.len() == 25,
    ensures
        number is Some <==> number_at(text@, start as int, length as int) is Some,
        number matches Some(value) ==> number_at(text@, start as int, length as int) == Some(
            value as nat,
        ),
{
    broadcast use is_ascii_spec_bytes;

    let bytes = text.as_bytes();
    proof {
        lemma_digits_fit(bytes@.subrange(start as int, start + length));
        assert(byte_chars(bytes@.subrange(start as int, start + length)) =~= text@.subrange(
            start as int,
            start + length,
        ));
    }
    parse_digits(bytes, start, length)
}

/// Whether `value` is a timestamp `YYYY-MM-DDTHH:MM:SS+HH:MM`, with either
/// sign, of a date that exists.
pub fn is_plc_timestamp(value: &str) -> (is: bool)
    ensures
        is == is_timestamp(value@),
{
    broadcast use is_ascii_spec_bytes;

    if !value.is_ascii() {
        proof {
            if has_timestamp_shape(value@) {
                lemma_timestamp_is_ascii(value@);
            }
        }
        return false;
    }
    if value.as_bytes().len() != 25 {
        return false;
    }
    if value.get_char(4) != '-' || value.get_char(7) != '-' || value.get_char(10) != 'T'
        || value.get_char(13) != ':' || value.get_char(16) != ':' || (value.get_char(19) != '+'
        && value.get_char(19) != '-') || value.get_char(22) != ':' {
        return false;
    }
    let (year, month, day) = match (
        ascii_number(value, 0, 4),
        ascii_number(value, 5, 2),
        ascii_number(value, 8, 2),
    ) {
        (Some(year), Some(month), Some(day)) => (year, month, day),
        _ => {
            return false;
        },
    };
    let (hour, minute, second) = match (
        ascii_number(value, 11, 2),
        ascii_number(value, 14, 2),
        ascii_number(value, 17, 2),
    ) {
        (Some(hour), Some(minute), Some(second)) => (hour, minute, second),
        _ => {
            return false;
        },
    };
    let (offset_hour, offset_minute) = match (
        ascii_number(value, 20, 2),
        ascii_number(value, 23, 2),
    ) {
        (Some(offset_hour), Some(offset_minute)) => (offset_hour, offset_minute),
        _ => {
            return false;
        },
    };
    let days: u32 = match month {
        1 | 3 | 5 | 7 | 8 | 10 | 12 => 31,
        4 | 6 | 9 | 11 => 30,
        2 => if is_leap_year(year) {
            29
        } else {
            28
        },
        _ => {
            return false;
        },
    };
    1 <= day && day <= days && hour <= 23 && minute <= 59 && second <= 59 && offset_hour <= 23
        && offset_minute <= 59
}

proof fn lemma_days_before_year(year: int)
    requires
        0 <= year,
    ensures
        0 <= days_before_year(year) <= 366 * year,
    decreases year,
{
    if year > 0 {
        lemma_days_before_year(year - 1);
    }
}

proof fn lemma_days_before_month(year: int, month: int)
    ensures
        0 <= days_before_month(year, month),
        1 <= month ==> days_before_month(year, month) <= 31 * (month - 1),
    decreases month,
{
    if month > 1 {
        lemma_days_before_month(year, month - 1);
    }
}

/// Every timestamp lies within ten thousand years.
pub proof fn lemma_timestamp_range(text: Seq<char>)
    requires
        is_timestamp(text),
    ensures
        -260_000_000_000_000 <= timestamp_millis(text) <= 260_000_000_000_000,
{
    let year = number_at(text, 0, 4)->0 as int;
    let month = number_at(text, 5, 2)->0 as int;
    lemma_digits_bound(text.subrange(0, 4));
    reveal_with_fuel(pow10, 5);
    lemma_days_before_year(year);
    lemma_days_before_month(year, month);
}

/// Whether a decimal digit stands at a place.
pub open spec fn is_digit_at(text: Seq<char>, i: int) -> bool {
    48 <= text[i] as int <= 57
}

/// The number that two digits at a place give.
pub open spec fn pair_at(text: Seq<char>, i: int) -> int {
    10 * (text[i] as int - 48) + (text[i + 1] as int - 48)
}

/// Whether a day exists: no month has more than 31, four have 30, and February
/// has 29 in every fourth year but three of four centuries, and 28 otherwise.
pub open spec fn is_calendar_day(year: int, month: int, day: int) -> bool {
    &&& 1 <= month <= 12
    &&& 1 <= day <= 31
    &&& (month == 4 || month == 6 || month == 9 || month == 11) ==> day <= 30
    &&& month == 2 ==> day <= 29
    &&& month == 2 && day == 29 ==> year % 4 == 0 && (year % 100 == 0 ==> year % 400 == 0)
}

proof fn lemma_pair_at(text: Seq<char>, start: int)
    requires
        0 <= start,
        start + 2 <= text.len(),
    ensures
        number_at(text, start, 2) is Some <==> is_digit_at(text, start) && is_digit_at(
            text,
            start + 1,
        ),
        number_at(text, start, 2) matches Some(value) ==> value == pair_at(text, start),
{
    let digits = text.subrange(start, start + 2);
    assert(digits.drop_last() =~= seq![text[start]]);
    assert(digits.drop_last().drop_last() =~= Seq::empty());
    reveal_with_fuel(digits_value, 3);
}

proof fn lemma_year_at(text: Seq<char>)
    requires
        4 <= text.len(),
    ensures
        number_at(text, 0, 4) is Some <==> is_digit_at(text, 0) && is_digit_at(text, 1)
            && is_digit_at(text, 2) && is_digit_at(text, 3),
        number_at(text, 0, 4) matches Some(value) ==> value == 100 * pair_at(text, 0) + pair_at(
            text,
            2,
        ),
{
    let digits = text.subrange(0, 4);
    let three = digits.drop_last();
    assert(three =~= text.subrange(0, 3));
    assert(three.drop_last() =~= text.subrange(0, 2));
    lemma_pair_at(text, 0);
    assert(digits_value(three, 10) is Some <==> number_at(text, 0, 2) is Some && digit_value(
        text[2],
        10,
    ) is Some);
}

/// Whether a text is `YYYY-MM-DDTHH:MM:SS` and an offset `+HH:MM` or `-HH:MM`,
/// of a day that exists, a time of day and an offset of less than a day, told
/// by its characters.
pub open spec fn writes_a_time(text: Seq<char>) -> bool {
    &&& text.len() == 25
    &&& text[4] == '-' && text[7] == '-' && text[10] == 'T' && text[13] == ':' && text[16] == ':'
    &&& (text[19] == '+' || text[19] == '-') && text[22] == ':'
    &&& is_digit_at(text, 0) && is_digit_at(text, 1) && is_digit_at(text, 2) && is_digit_at(text, 3)
    &&& is_digit_at(text, 5) && is_digit_at(text, 6)
    &&& is_digit_at(text, 8) && is_digit_at(text, 9)
    &&& is_digit_at(text, 11) && is_digit_at(text, 12)
    &&& is_digit_at(text, 14) && is_digit_at(text, 15)
    &&& is_digit_at(text, 17) && is_digit_at(text, 18)
    &&& is_digit_at(text, 20) && is_digit_at(text, 21)
    &&& is_digit_at(text, 23) && is_digit_at(text, 24)
    &&& is_calendar_day(
        100 * pair_at(text, 0) + pair_at(text, 2),
        pair_at(text, 5),
        pair_at(text, 8),
    )
    &&& pair_at(text, 11) < 24 && pair_at(text, 14) < 60 && pair_at(text, 17) < 60
    &&& pair_at(text, 20) < 24 && pair_at(text, 23) < 60
}

proof fn lemma_numbers_at(text: Seq<char>)
    requires
        text.len() == 25,
    ensures
        has_timestamp_shape(text) ==> {
            &&& number_at(text, 0, 4) == Some((100 * pair_at(text, 0) + pair_at(text, 2)) as nat)
            &&& number_at(text, 5, 2) == Some(pair_at(text, 5) as nat) && pair_at(text, 5) >= 0
            &&& number_at(text, 8, 2) == Some(pair_at(text, 8) as nat) && pair_at(text, 8) >= 0
            &&& number_at(text, 11, 2) == Some(pair_at(text, 11) as nat) && pair_at(text, 11) >= 0
            &&& number_at(text, 14, 2) == Some(pair_at(text, 14) as nat) && pair_at(text, 14) >= 0
            &&& number_at(text, 17, 2) == Some(pair_at(text, 17) as nat) && pair_at(text, 17) >= 0
            &&& number_at(text, 20, 2) == Some(pair_at(text, 20) as nat) && pair_at(text, 20) >= 0
            &&& number_at(text, 23, 2) == Some(pair_at(text, 23) as nat) && pair_at(text, 23) >= 0
            &&& 100 * pair_at(text, 0) + pair_at(text, 2) >= 0
        },
{
    lemma_year_at(text);
    lemma_pair_at(text, 5);
    lemma_pair_at(text, 8);
    lemma_pair_at(text, 11);
    lemma_pair_at(text, 14);
    lemma_pair_at(text, 17);
    lemma_pair_at(text, 20);
    lemma_pair_at(text, 23);
}

/// A text is a timestamp exactly where its characters write a time: every day
/// of the calendar from year 0 to year 9999 is accepted with every time of day
/// and every offset of less than a day, and nothing else is.
pub proof fn timestamps_are_the_times_of_the_calendar(text: Seq<char>)
    ensures
        is_timestamp(text) <==> writes_a_time(text),
{
    if text.len() == 25 {
        lemma_numbers_at(text);
        lemma_year_at(text);
        lemma_pair_at(text, 5);
        lemma_pair_at(text, 8);
        lemma_pair_at(text, 11);
        lemma_pair_at(text, 14);
        lemma_pair_at(text, 17);
        lemma_pair_at(text, 20);
        lemma_pair_at(text, 23);
    }
}

/// The decimal digit of a number below ten.
pub open spec fn written_digit(value: int) -> char {
    (48 + value) as char
}

/// A time as text.
pub open spec fn written_time(
    year: int,
    month: int,
    day: int,
    hour: int,
    minute: int,
    second: int,
    sign: char,
    offset_hour: int,
    offset_minute: int,
) -> Seq<char> {
    seq![
        written_digit(year / 1000),
        written_digit(year / 100 % 10),
        written_digit(year / 10 % 10),
        written_digit(year % 10),
        '-',
        written_digit(month / 10),
        written_digit(month % 10),
        '-',
        written_digit(day / 10),
        written_digit(day % 10),
        'T',
        written_digit(hour / 10),
        written_digit(hour % 10),
        ':',
        written_digit(minute / 10),
        written_digit(minute % 10),
        ':',
        written_digit(second / 10),
        written_digit(second % 10),
        sign,
        written_digit(offset_hour / 10),
        written_digit(offset_hour % 10),
        ':',
        written_digit(offset_minute / 10),
        written_digit(offset_minute % 10),
    ]
}

/// Every time of the calendar, written out, is a timestamp.
pub proof fn every_time_is_a_timestamp(
    year: int,
    month: int,
    day: int,
    hour: int,
    minute: int,
    second: int,
    sign: char,
    offset_hour: int,
    offset_minute: int,
)
    requires
        0 <= year <= 9999,
        is_calendar_day(year, month, day),
        0 <= hour <= 23,
        0 <= minute <= 59,
        0 <= second <= 59,
        sign == '+' || sign == '-',
        0 <= offset_hour <= 23,
        0 <= offset_minute <= 59,
    ensures
        is_timestamp(
            written_time(
                year,
                month,
                day,
                hour,
                minute,
                second,
                sign,
                offset_hour,
                offset_minute,
            ),
        ),
{
    let text = written_time(
        year,
        month,
        day,
        hour,
        minute,
        second,
        sign,
        offset_hour,
        offset_minute,
    );
    assert(pair_at(text, 0) == year / 100);
    assert(pair_at(text, 2) == year % 100);
    assert(pair_at(text, 5) == month);
    assert(pair_at(text, 8) == day);
    assert(pair_at(text, 11) == hour);
    assert(pair_at(text, 14) == minute);
    assert(pair_at(text, 17) == second);
    assert(pair_at(text, 20) == offset_hour);
    assert(pair_at(text, 23) == offset_minute);
    timestamps_are_the_times_of_the_calendar(text);
}

/// One more number up to the next multiple.
proof fn lemma_multiples_before(number: int, divisor: int)
    requires
        0 < number,
        divisor > 0,
    ensures
        (number + divisor - 1) / divisor == (number - 1 + divisor - 1) / divisor + (if (number - 1)
            % divisor == 0 {
            1int
        } else {
            0int
        }),
{
    let before = number - 1;
    let quotient = before / divisor;
    let rest = before % divisor;
    lemma_fundamental_div_mod(before, divisor);
    if rest == 0 {
        lemma_fundamental_div_mod_converse(before + divisor - 1, divisor, quotient, divisor - 1);
        assert(divisor * (quotient + 1) == divisor * quotient + divisor) by (nonlinear_arith);
        assert((quotient + 1) * divisor == divisor * (quotient + 1)) by (nonlinear_arith);
        assert(quotient * divisor == divisor * quotient) by (nonlinear_arith);
        lemma_fundamental_div_mod_converse(number + divisor - 1, divisor, quotient + 1, 0);
    } else {
        assert(divisor * (quotient + 1) == divisor * quotient + divisor) by (nonlinear_arith);
        assert((quotient + 1) * divisor == divisor * (quotient + 1)) by (nonlinear_arith);
        lemma_fundamental_div_mod_converse(
            before + divisor - 1,
            divisor,
            quotient + 1,
            rest - 1,
        );
        lemma_fundamental_div_mod_converse(number + divisor - 1, divisor, quotient + 1, rest);
    }
}

proof fn lemma_year_days(year: int)
    requires
        0 <= year,
    ensures
        days_before_year(year) == 365 * year + (year + 3) / 4 - (year + 99) / 100 + (year + 399)
            / 400,
    decreases year,
{
    if year > 0 {
        lemma_year_days(year - 1);
        lemma_multiples_before(year, 4);
        lemma_multiples_before(year, 100);
        lemma_multiples_before(year, 400);
        lemma_leap_counts(year - 1);
    }
}

proof fn lemma_leap_counts(year: int)
    requires
        0 <= year,
    ensures
        year % 100 == 0 ==> year % 4 == 0,
        year % 400 == 0 ==> year % 100 == 0,
{
}

/// The days of a common year before one of its months.
pub open spec fn common_days_before(month: int) -> int {
    if month <= 1 {
        0
    } else if month == 2 {
        31
    } else if month == 3 {
        59
    } else if month == 4 {
        90
    } else if month == 5 {
        120
    } else if month == 6 {
        151
    } else if month == 7 {
        181
    } else if month == 8 {
        212
    } else if month == 9 {
        243
    } else if month == 10 {
        273
    } else if month == 11 {
        304
    } else {
        334
    }
}

/// A timestamp stands for the days since 1970-01-01, leap days counted, and the
/// time of day, less the offset.
pub proof fn timestamps_count_from_1970(text: Seq<char>)
    requires
        is_timestamp(text),
    ensures
        ({
            let year = 100 * pair_at(text, 0) + pair_at(text, 2);
            let month = pair_at(text, 5);
            let leap_day: int = if month > 2 && year % 4 == 0 && (year % 100 == 0 ==> year % 400
                == 0) {
                1
            } else {
                0
            };
            let days = 365 * year + (year + 3) / 4 - (year + 99) / 100 + (year + 399) / 400
                + common_days_before(month) + leap_day + pair_at(text, 8) - 1 - 719528;
            let time = 3600 * pair_at(text, 11) + 60 * pair_at(text, 14) + pair_at(text, 17);
            let offset = 3600 * pair_at(text, 20) + 60 * pair_at(text, 23);
            timestamp_millis(text) == 1000 * (86400 * days + time + (if text[19] == '-' {
                offset
            } else {
                -offset
            }))
        }),
{
    lemma_numbers_at(text);
    let year = 100 * pair_at(text, 0) + pair_at(text, 2);
    lemma_year_days(year);
    reveal_with_fuel(days_before_month, 13);
}

} // verus!
