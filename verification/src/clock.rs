//! The offset of the PLC clock: receipt time minus PLC clock time.

use vstd::arithmetic::div_mod::lemma_fundamental_div_mod;
use vstd::arithmetic::power2::pow2;
use vstd::prelude::*;
use vstd::string::*;

use crate::double::{
    double_unit, doubles_are_the_nearest_of_53_bits, is_nearest, lemma_nearest_is_close, nearest,
    nearest_double, rounded_quotient, Wide,
};
use crate::json::{is_decimal_around, is_plain_decimal};
use crate::numeral::{
    append_decimal, decimal, decimals_read_back, digit_char, digits_count_by_their_place,
    digits_value, lemma_decimal_shape, pow10,
};
use crate::timestamp::{is_plc_timestamp, is_timestamp, lemma_timestamp_range, timestamp_millis};

verus! {

/// The wall-clock time at which a message was received, as its distance from
/// 1970-01-01T00:00:00Z.
#[derive(Debug, Clone, Copy, PartialEq, Eq)]
pub struct ReceiptTime {
    /// Whether the time lies before 1970.
    pub before_epoch: bool,
    pub seconds: u64,
    pub nanos: u32,
}

/// `chrono::DateTime::parse_from_rfc3339`, then
/// `chrono::DateTime::timestamp_millis`: the milliseconds from
/// 1970-01-01T00:00:00Z to the time that the text gives. A timestamp of the
/// PLC is RFC 3339 text and never fails to parse.
#[verifier::external_body]
fn rfc3339_millis(text: &str) -> (millis: Option<i64>)
    requires
        is_timestamp(text@),
    ensures
        millis is Some,
        millis->0 == timestamp_millis(text@),
{
    chrono::DateTime::parse_from_rfc3339(text).ok().map(|clock| clock.timestamp_millis())
}

/// The time that a timestamp of the PLC gives, in milliseconds since
/// 1970-01-01T00:00:00Z; `None` where the text is no such timestamp.
pub fn plc_clock_millis(text: &str) -> (millis: Option<i64>)
    ensures
        millis is Some <==> is_timestamp(text@),
        millis matches Some(value) ==> value == timestamp_millis(text@),
{
    if is_plc_timestamp(text) {
        rfc3339_millis(text)
    } else {
        None
    }
}

/// How many steps a second has.
pub const STEPS_PER_SECOND: u128 = 0x4_0000_0000_0000_0000_0000;

/// A number of seconds that is a double, in steps, with its sign.
#[derive(Debug, Clone, Copy, PartialEq, Eq)]
pub struct Seconds {
    pub negative: bool,
    pub steps: Wide,
}

impl View for Seconds {
    type V = int;

    open spec fn view(&self) -> int {
        if self.negative {
            -(self.steps@ as int)
        } else {
            self.steps@ as int
        }
    }
}

/// How far a number is from zero.
pub open spec fn magnitude(number: int) -> nat {
    if number < 0 {
        (-number) as nat
    } else {
        number as nat
    }
}

/// A receipt time as a double, in steps since 1970-01-01T00:00:00Z: the seconds
/// and the fraction of a second are rounded, and so is their sum.
pub open spec fn unix_seconds(received: ReceiptTime) -> int {
    let whole = nearest_double((received.seconds * STEPS_PER_SECOND) as nat, 1);
    let part = nearest_double((received.nanos * STEPS_PER_SECOND) as nat, 1_000_000_000);
    let distance = nearest_double(whole + part, 1);
    if received.before_epoch {
        -distance
    } else {
        distance as int
    }
}

/// A time in milliseconds as a double, in steps of a second.
pub open spec fn plc_seconds(millis: int) -> int {
    let steps = nearest_double((magnitude(millis) * STEPS_PER_SECOND) as nat, 1);
    let distance = nearest_double(steps, 1000);
    if millis < 0 {
        -distance
    } else {
        distance as int
    }
}

/// Receipt time minus PLC clock time as a double, in steps.
pub open spec fn offset_seconds(received: ReceiptTime, plc_millis: int) -> int {
    let difference = unix_seconds(received) - plc_seconds(plc_millis);
    let distance = nearest_double(magnitude(difference), 1);
    if difference < 0 {
        -distance
    } else {
        distance as int
    }
}

/// An offset to the nearest millisecond, its sign left aside; half a
/// millisecond counts as a whole one.
pub open spec fn rounded_millis(offset: int) -> nat {
    let millis = nearest_double(magnitude(offset) * 1000, 1);
    ((millis + STEPS_PER_SECOND / 2) / STEPS_PER_SECOND as int) as nat
}

/// An offset as a decimal number of seconds with three decimals.
pub open spec fn seconds_text(offset: int) -> Seq<char> {
    let millis = rounded_millis(offset);
    let sign = if offset < 0 {
        seq!['-']
    } else {
        Seq::empty()
    };
    sign + decimal(millis / 1000) + seq![
        '.',
        digit_char(millis / 100 % 10),
        digit_char(millis / 10 % 10),
        digit_char(millis % 10),
    ]
}

/// Reads a receipt time as seconds since 1970-01-01T00:00:00Z.
pub fn system_time_unix_seconds(received: &ReceiptTime) -> (seconds: Seconds)
    ensures
        seconds@ == unix_seconds(*received),
        seconds.steps.high < 0x100_0000_0000_0000_0000_0000,
{
    let whole = nearest(&Wide::shifted(received.seconds as u128 * 0x4_0000), 1);
    let part = nearest(&Wide::shifted(received.nanos as u128 * 0x4_0000), 1_000_000_000);
    let steps = nearest(&whole.plus(&part), 1);
    Seconds { negative: received.before_epoch, steps }
}

/// Reads a time in milliseconds as seconds.
pub fn millis_unix_seconds(millis: i64) -> (seconds: Seconds)
    ensures
        seconds@ == plc_seconds(millis as int),
        seconds.steps.high < 0x100_0000_0000_0000_0000_0000,
{
    let distance: u64 = if millis < 0 {
        (-(millis as i128)) as u64
    } else {
        millis as u64
    };
    let exact = nearest(&Wide::shifted(distance as u128 * 0x4_0000), 1);
    Seconds { negative: millis < 0, steps: nearest(&exact, 1000) }
}

/// Receipt time minus PLC clock time: positive where the PLC clock is behind.
pub fn clock_offset(received: &ReceiptTime, plc_millis: i64) -> (offset: Seconds)
    ensures
        offset@ == offset_seconds(*received, plc_millis as int),
        offset.steps.high < 0x1000_0000_0000_0000_0000_0000,
{
    let receipt = system_time_unix_seconds(received);
    let plc = millis_unix_seconds(plc_millis);
    let (negative, distance) = if receipt.negative != plc.negative {
        (receipt.negative, receipt.steps.plus(&plc.steps))
    } else if receipt.steps.less_than(&plc.steps) {
        (!receipt.negative, plc.steps.minus(&receipt.steps))
    } else {
        (receipt.negative, receipt.steps.minus(&plc.steps))
    };
    assert(magnitude(receipt@ - plc@) == distance@);
    let steps = nearest(&distance, 1);
    proof {
        lemma_nothing_stays_nothing();
        if distance@ > 0 {
            assert(negative == (receipt@ - plc@ < 0));
        }
    }
    Seconds { negative, steps }
}

proof fn lemma_nothing_stays_nothing()
    ensures
        nearest_double(0, 1) == 0,
{
    assert(double_unit(0) == 1);
    assert(rounded_quotient(0, 1) == 0);
}

/// What `seconds_text` gives is a plain decimal numeral.
pub proof fn lemma_seconds_text_is_plain(offset: int)
    requires
        rounded_millis(offset) < 0x1_0000_0000_0000_0000_0000_0000_0000,
    ensures
        is_plain_decimal(seconds_text(offset)),
{
    let millis = rounded_millis(offset);
    let whole = decimal(millis / 1000);
    assert(millis / 1000 < pow10(40)) by {
        reveal_with_fuel(pow10, 41);
    }
    lemma_decimal_shape(millis / 1000, 40);
    let text = seconds_text(offset);
    let start: int = if offset < 0 {
        1
    } else {
        0
    };
    let point = start + whole.len();
    assert forall|i: int| start <= i < text.len() && i != point implies '0' <= #[trigger] text[i]
        <= '9' by {
        if i < point {
            assert(text[i] == whole[i - start]);
        }
    }
    if offset >= 0 {
        assert(text[0] == whole[0]);
    }
    assert(is_decimal_around(text, point));
}

/// Writes an offset as seconds with three decimals.
pub fn offset_seconds_text(offset: &Seconds) -> (text: String)
    requires
        offset.steps.high < 0x1000_0000_0000_0000_0000_0000,
    ensures
        text@ == seconds_text(offset@),
        rounded_millis(offset@) < 0x1_0000_0000_0000_0000_0000_0000_0000,
{
    let exact = offset.steps.times(1000);
    let thousandfold = nearest(&exact, 1);
    assert(magnitude(offset@) == offset.steps@);
    let millis: u128 = (thousandfold.high + 0x2_0000) / 0x4_0000;
    assert(millis == rounded_millis(offset@));
    let nothing = offset.steps.high == 0 && offset.steps.low == 0;
    let mut text = String::new();
    if offset.negative && !nothing {
        text.push('-');
    }
    append_decimal(&mut text, millis / 1000);
    text.push('.');
    append_decimal(&mut text, millis / 100 % 10);
    append_decimal(&mut text, millis / 10 % 10);
    append_decimal(&mut text, millis % 10);
    assert(text@ =~= seconds_text(offset@));
    text
}

/// The nanoseconds from 1970-01-01T00:00:00Z to a receipt time.
pub open spec fn receipt_nanos(received: ReceiptTime) -> int {
    let distance = received.seconds * 1_000_000_000 + received.nanos;
    if received.before_epoch {
        -distance
    } else {
        distance
    }
}

/// The offset that is published, in milliseconds.
pub open spec fn offset_millis(received: ReceiptTime, plc_millis: int) -> int {
    let offset = offset_seconds(received, plc_millis);
    if offset < 0 {
        -rounded_millis(offset)
    } else {
        rounded_millis(offset) as int
    }
}

/// Whether two numbers are at most so far apart.
pub open spec fn within(left: int, right: int, bound: int) -> bool {
    -bound <= left - right <= bound
}

/// A receipt time as a double is close to the exact one.
proof fn lemma_receipt_is_close(received: ReceiptTime, limit: int)
    requires
        limit >= 0x20_0000_0000_0000_0000_0000,
        received.seconds * STEPS_PER_SECOND <= 64 * limit,
    ensures
        within(
            0x20_0000_0000_0000 * (1_000_000_000 * unix_seconds(received)),
            0x20_0000_0000_0000 * (receipt_nanos(received) * STEPS_PER_SECOND),
            1_000_000_000 * (130 * limit),
        ),
        magnitude(unix_seconds(received)) <= 66 * limit,
{
    let exact = (received.seconds * STEPS_PER_SECOND) as nat;
    let rest = (received.nanos * STEPS_PER_SECOND) as nat;
    let whole = nearest_double(exact, 1);
    let part = nearest_double(rest, 1_000_000_000);
    lemma_nearest_is_close(exact, 1, (64 * limit) as nat);
    lemma_nearest_is_close(rest, 1_000_000_000, 0x20_0000_0000_0000_0000_0000);
    lemma_nearest_is_close(whole + part, 1, (65 * limit) as nat);
    let sum = nearest_double(whole + part, 1);
    let distance = received.seconds * 1_000_000_000 + received.nanos;
    assert(distance * STEPS_PER_SECOND == 1_000_000_000 * exact + rest);
    assert(within(
        0x20_0000_0000_0000 * (1_000_000_000 * (sum as int)),
        0x20_0000_0000_0000 * (distance * STEPS_PER_SECOND),
        1_000_000_000 * (130 * limit),
    ));
}

/// A time of the PLC as a double is close to the exact one.
proof fn lemma_plc_is_close(millis: int, limit: int)
    requires
        limit >= 0x20_0000_0000_0000_0000_0000,
        magnitude(millis) * STEPS_PER_SECOND <= 64_000 * limit,
    ensures
        within(
            0x20_0000_0000_0000 * (1000 * plc_seconds(millis)),
            0x20_0000_0000_0000 * (millis * STEPS_PER_SECOND),
            129_000 * limit,
        ),
        magnitude(plc_seconds(millis)) <= 66 * limit,
{
    let exact = (magnitude(millis) * STEPS_PER_SECOND) as nat;
    let steps = nearest_double(exact, 1);
    lemma_nearest_is_close(exact, 1, (64_000 * limit) as nat);
    lemma_nearest_is_close(steps, 1000, (65 * limit) as nat);
    if millis < 0 {
        assert(millis * STEPS_PER_SECOND == -(exact as int));
    }
}

/// The offset before it is rounded to milliseconds, with its sign.
spec fn exact_millis(received: ReceiptTime, plc_millis: int) -> int {
    let offset = offset_seconds(received, plc_millis);
    let millis = nearest_double(magnitude(offset) * 1000, 1);
    if offset < 0 {
        -millis
    } else {
        millis as int
    }
}

/// The offset as a double is close to the exact one.
proof fn lemma_offset_is_close(received: ReceiptTime, plc_millis: int, limit: int)
    requires
        limit >= 0x20_0000_0000_0000_0000_0000,
        received.seconds * STEPS_PER_SECOND <= 64 * limit,
        magnitude(plc_millis) * STEPS_PER_SECOND <= 64_000 * limit,
    ensures
        within(
            0x20_0000_0000_0000 * (1_000_000 * exact_millis(received, plc_millis)),
            0x20_0000_0000_0000 * ((receipt_nanos(received) - 1_000_000 * plc_millis)
                * STEPS_PER_SECOND),
            1_000_000_000 * (524 * limit),
        ),
{
    lemma_receipt_is_close(received, limit);
    lemma_plc_is_close(plc_millis, limit);
    let difference = unix_seconds(received) - plc_seconds(plc_millis);
    lemma_nearest_is_close(magnitude(difference), 1, (132 * limit) as nat);
    let offset = offset_seconds(received, plc_millis);
    assert(magnitude(offset) <= 133 * limit);
    lemma_nearest_is_close(magnitude(offset) * 1000, 1, (133_000 * limit) as nat);
    assert((receipt_nanos(received) - 1_000_000 * plc_millis) * STEPS_PER_SECOND == receipt_nanos(
        received,
    ) * STEPS_PER_SECOND - 1_000_000 * (plc_millis * STEPS_PER_SECOND));
}

/// The published offset tells which clock is behind: it is positive only where
/// the PLC clock is behind the receipt time, and negative only where it is
/// ahead. Up to the year 2242 it is off by half a millisecond and ten
/// microseconds at most, and by three quarters of a millisecond at most while the
/// receipt lies within some eight thousand years of 1970.
pub proof fn offset_tells_which_clock_is_behind(received: ReceiptTime, clock: Seq<char>)
    requires
        is_timestamp(clock),
    ensures
        ({
            let plc = timestamp_millis(clock);
            let millis = offset_millis(received, plc);
            let behind = receipt_nanos(received) - 1_000_000 * plc;
            &&& millis > 0 ==> behind > 0
            &&& millis < 0 ==> behind < 0
            &&& received.seconds < 0x2_0000_0000 && magnitude(plc) < 1000 * 0x2_0000_0000 ==> within(
                1_000_000 * millis,
                behind,
                510_000,
            )
            &&& received.seconds <= 0x40_0000_0000 ==> within(1_000_000 * millis, behind, 750_000)
            &&& seconds_text(offset_seconds(received, plc))[0] == '-' <==> offset_seconds(
                received,
                plc,
            ) < 0
        }),
{
    let plc = timestamp_millis(clock);
    let offset = offset_seconds(received, plc);
    lemma_timestamp_range(clock);
    let whole = rounded_millis(offset) / 1000;
    lemma_decimal_starts_with_digit(whole);
    if offset >= 0 {
        assert(seconds_text(offset)[0] == decimal(whole)[0]);
    }
    if received.seconds <= 0x40_0000_0000 {
        lemma_published_is_close(
            received,
            plc,
            0x4_0000_0000_0000_0000_0000_0000_0000,
            750_000,
        );
    } else {
        lemma_far_receipt(received, plc);
        lemma_nothing_stays_nothing();
    }
    if received.seconds < 0x2_0000_0000 && magnitude(plc) < 1000 * 0x2_0000_0000 {
        lemma_published_is_close(received, plc, 0x2000_0000_0000_0000_0000_0000_0000, 510_000);
    }
}

/// The offset that is published is at most half a millisecond off the offset
/// as a double.
proof fn lemma_millis_are_close(received: ReceiptTime, plc_millis: int)
    ensures
        within(
            2 * (STEPS_PER_SECOND * offset_millis(received, plc_millis)),
            2 * exact_millis(received, plc_millis),
            STEPS_PER_SECOND as int,
        ),
{
    let offset = offset_seconds(received, plc_millis);
    let millis = nearest_double(magnitude(offset) * 1000, 1);
    let raised = millis + STEPS_PER_SECOND / 2;
    lemma_fundamental_div_mod(raised, STEPS_PER_SECOND as int);
    assert(raised / STEPS_PER_SECOND as int >= 0);
    let rounded = rounded_millis(offset);
    assert(rounded == raised / STEPS_PER_SECOND as int);
    if offset < 0 {
        assert(STEPS_PER_SECOND * offset_millis(received, plc_millis) == -(STEPS_PER_SECOND
            * rounded));
    }
}

/// The offset that is published is close to the exact one.
proof fn lemma_published_is_close(received: ReceiptTime, plc_millis: int, limit: int, bound: int)
    requires
        limit >= 0x20_0000_0000_0000_0000_0000,
        received.seconds * STEPS_PER_SECOND <= 64 * limit,
        magnitude(plc_millis) * STEPS_PER_SECOND <= 64_000 * limit,
        1_000_000_000 * (524 * limit) <= 0x20_0000_0000_0000 * ((bound - 500_000)
            * STEPS_PER_SECOND),
    ensures
        within(
            1_000_000 * offset_millis(received, plc_millis),
            receipt_nanos(received) - 1_000_000 * plc_millis,
            bound,
        ),
{
    lemma_offset_is_close(received, plc_millis, limit);
    lemma_millis_are_close(received, plc_millis);
}

/// A receipt time that no timestamp of the PLC reaches decides the sign.
proof fn lemma_far_receipt(received: ReceiptTime, plc_millis: int)
    requires
        received.seconds > 0x40_0000_0000,
        magnitude(plc_millis) <= 260_000_000_000_000,
    ensures
        received.before_epoch ==> offset_seconds(received, plc_millis) <= 0,
        !received.before_epoch ==> offset_seconds(received, plc_millis) >= 0,
{
    let exact = (received.seconds * STEPS_PER_SECOND) as nat;
    let rest = (received.nanos * STEPS_PER_SECOND) as nat;
    let whole = nearest_double(exact, 1);
    let part = nearest_double(rest, 1_000_000_000);
    lemma_nearest_is_close(exact, 1, exact);
    lemma_nearest_is_close(whole + part, 1, whole + part);
    let steps = (magnitude(plc_millis) * STEPS_PER_SECOND) as nat;
    let top = (260_000_000_000_000 * STEPS_PER_SECOND) as nat;
    lemma_nearest_is_close(steps, 1, top);
    lemma_nearest_is_close(nearest_double(steps, 1), 1000, (261_000_000_000 * STEPS_PER_SECOND) as nat);
    assert(magnitude(plc_seconds(plc_millis)) <= 262_000_000_000 * STEPS_PER_SECOND);
    assert(magnitude(unix_seconds(received)) >= 262_000_000_000 * STEPS_PER_SECOND);
}

proof fn lemma_decimal_starts_with_digit(number: nat)
    ensures
        decimal(number).len() >= 1,
        '0' <= decimal(number)[0] <= '9',
    decreases number,
{
    if number >= 10 {
        lemma_decimal_starts_with_digit(number / 10);
    }
}

/// The published text writes the offset in seconds with three places: without
/// its point and its sign it is the decimal of so many milliseconds, and it has
/// a minus sign in front of it where the offset is negative.
pub proof fn offsets_are_written_to_the_millisecond(offset: int)
    ensures
        ({
            let text = seconds_text(offset);
            let body = if offset < 0 {
                text.drop_first()
            } else {
                text
            };
            let point = body.len() - 4;
            &&& offset < 0 <==> text[0] == '-'
            &&& point > 0
            &&& body[point] == '.'
            &&& digits_value(body.take(point) + body.skip(point + 1), 10) == Some(
                rounded_millis(offset),
            )
        }),
{
    let millis = rounded_millis(offset);
    let whole = decimal(millis / 1000);
    let text = seconds_text(offset);
    let body = if offset < 0 {
        text.drop_first()
    } else {
        text
    };
    let point = body.len() - 4;
    let first = digit_char(millis / 100 % 10);
    let second = digit_char(millis / 10 % 10);
    let third = digit_char(millis % 10);
    decimals_read_back(millis / 1000);
    assert(body =~= whole + seq!['.', first, second, third]);
    if offset >= 0 {
        assert(text[0] == whole[0]);
    }
    digits_count_by_their_place(whole, first, 10);
    digits_count_by_their_place(whole.push(first), second, 10);
    digits_count_by_their_place(whole.push(first).push(second), third, 10);
    assert(body.take(point) + body.skip(point + 1) =~= whole.push(first).push(second).push(third));
}

/// Whether a number of steps is a double: a whole number of at most 53 bits
/// times a power of two, with its sign.
pub open spec fn is_double(steps: int) -> bool {
    exists|mantissa: nat, exponent: nat|
        mantissa <= 0x20_0000_0000_0000 && magnitude(steps) == #[trigger] (mantissa * pow2(
            exponent,
        ))
}

proof fn lemma_nearest_is_double(number: nat, divisor: nat)
    requires
        divisor > 0,
    ensures
        is_double(nearest_double(number, divisor) as int),
        is_double(-nearest_double(number, divisor)),
{
    doubles_are_the_nearest_of_53_bits(number, divisor);
    let (exponent, mantissa) = choose|exponent: nat, mantissa: nat| #[trigger]
        is_nearest(number, divisor, exponent, mantissa) && nearest_double(number, divisor)
            == mantissa * pow2(exponent);
    let steps = mantissa * pow2(exponent);
    assert(magnitude(steps as int) == mantissa * pow2(exponent));
    assert(magnitude(-steps) == mantissa * pow2(exponent));
}

/// The receipt time, the PLC's time and the offset are all doubles, and the
/// offset is the double nearest to the difference of the other two.
pub proof fn offsets_are_computed_in_doubles(received: ReceiptTime, plc_millis: int)
    ensures
        is_double(unix_seconds(received)),
        is_double(plc_seconds(plc_millis)),
        is_double(offset_seconds(received, plc_millis)),
        ({
            let difference = unix_seconds(received) - plc_seconds(plc_millis);
            let offset = offset_seconds(received, plc_millis);
            &&& offset > 0 ==> difference > 0
            &&& offset < 0 ==> difference < 0
            &&& exists|exponent: nat, mantissa: nat| #[trigger]
                is_nearest(magnitude(difference), 1, exponent, mantissa) && magnitude(offset)
                    == mantissa * pow2(exponent)
        }),
{
    let whole = nearest_double((received.seconds * STEPS_PER_SECOND) as nat, 1);
    let part = nearest_double((received.nanos * STEPS_PER_SECOND) as nat, 1_000_000_000);
    lemma_nearest_is_double(whole + part, 1);
    let steps = nearest_double((magnitude(plc_millis) * STEPS_PER_SECOND) as nat, 1);
    lemma_nearest_is_double(steps, 1000);
    let difference = unix_seconds(received) - plc_seconds(plc_millis);
    lemma_nearest_is_double(magnitude(difference), 1);
    doubles_are_the_nearest_of_53_bits(magnitude(difference), 1);
    lemma_nothing_stays_nothing();
}

/// The published milliseconds are those of the offset, a thousand times the
/// seconds as a double, and half a millisecond counts as a whole one.
pub proof fn half_a_millisecond_counts_as_one(offset: int)
    ensures
        ({
            let exact = nearest_double((1000 * magnitude(offset)) as nat, 1);
            let millis = rounded_millis(offset);
            &&& 2 * exact < (2 * millis + 1) * STEPS_PER_SECOND
            &&& 2 * exact >= (2 * millis - 1) * STEPS_PER_SECOND
        }),
{
    let exact = nearest_double((1000 * magnitude(offset)) as nat, 1);
    assert(magnitude(offset) * 1000 == 1000 * magnitude(offset));
    let raised = exact + STEPS_PER_SECOND / 2;
    lemma_fundamental_div_mod(raised, STEPS_PER_SECOND as int);
    assert(raised / STEPS_PER_SECOND as int >= 0);
    let millis = rounded_millis(offset);
    assert(millis == raised / STEPS_PER_SECOND as int);
}

} // verus!
