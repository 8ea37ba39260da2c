//! Integers as text: the numerals a payload holds and those a template shows.

use vstd::prelude::*;

use crate::text::chars_of;

verus! {

/// The value of one digit in a base of at most sixteen, upper or lower case.
pub open spec fn digit_value(c: char, base: nat) -> Option<nat> {
    let value: int = if '0' <= c <= '9' {
        c as u32 - '0' as u32
    } else if 'a' <= c <= 'f' {
        c as u32 - 'a' as u32 + 10
    } else if 'A' <= c <= 'F' {
        c as u32 - 'A' as u32 + 10
    } else {
        base as int
    };
    if value < base {
        Some(value as nat)
    } else {
        None
    }
}

/// The value of a run of digits, most significant first; `None` where one of
/// them is no digit of the base.
pub open spec fn digits_value(digits: Seq<char>, base: nat) -> Option<nat>
    decreases digits.len(),
{
    if digits.len() == 0 {
        Some(0)
    } else {
        match (digits_value(digits.drop_last(), base), digit_value(digits.last(), base)) {
            (Some(high), Some(low)) => Some(high * base + low),
            _ => None,
        }
    }
}

/// Whether a numeral starts with a sign.
pub open spec fn has_sign(numeral: Seq<char>) -> bool {
    numeral.len() > 0 && (numeral[0] == '-' || numeral[0] == '+')
}

/// The integer that a numeral stands for: an optional sign, then one or more
/// digits, with a value that 64 bits hold.
pub open spec fn integer_value(numeral: Seq<char>, base: nat) -> Option<int> {
    let digits = if has_sign(numeral) {
        numeral.drop_first()
    } else {
        numeral
    };
    match digits_value(digits, base) {
        Some(magnitude) => {
            let value: int = if has_sign(numeral) && numeral[0] == '-' {
                -magnitude
            } else {
                magnitude as int
            };
            if digits.len() > 0 && i64::MIN <= value <= i64::MAX {
                Some(value)
            } else {
                None
            }
        },
        None => None,
    }
}

/// A longer run of digits never stands for less.
proof fn lemma_digits_value_grows(digits: Seq<char>, base: nat, n: int)
    requires
        base >= 1,
        0 <= n <= digits.len(),
    ensures
        digits_value(digits, base) is Some ==> digits_value(digits.take(n), base) is Some
            && digits_value(digits.take(n), base)->0 <= digits_value(digits, base)->0,
    decreases digits.len() - n,
{
    if n == digits.len() {
        assert(digits.take(n) =~= digits);
    } else {
        lemma_digits_value_grows(digits, base, n + 1);
        assert(digits.take(n + 1).drop_last() =~= digits.take(n));
        if digits_value(digits.take(n), base) is Some {
            let high = digits_value(digits.take(n), base)->0;
            assert(high * base >= high) by (nonlinear_arith)
                requires
                    base >= 1,
            ;
        }
    }
}

/// One digit of a numeral.
pub fn digit_of(c: char, base: u32) -> (digit: Option<u32>)
    requires
        1 <= base <= 16,
    ensures
        digit is Some <==> digit_value(c, base as nat) is Some,
        digit matches Some(value) ==> Some(value as nat) == digit_value(c, base as nat) && value < base,
{
    let value: u32 = if '0' <= c && c <= '9' {
        c as u32 - '0' as u32
    } else if 'a' <= c && c <= 'f' {
        c as u32 - 'a' as u32 + 10
    } else if 'A' <= c && c <= 'F' {
        c as u32 - 'A' as u32 + 10
    } else {
        base
    };
    if value < base {
        Some(value)
    } else {
        None
    }
}

/// Reads a signed numeral in the given base.
pub fn parse_integer(text: &str, base: u32) -> (number: Option<i64>)
    requires
        2 <= base <= 16,
    ensures
        number is Some <==> integer_value(text@, base as nat) is Some,
        number matches Some(value) ==> integer_value(text@, base as nat) == Some(value as int),
{
    let chars = chars_of(text);
    let signed = chars.len() > 0 && (chars[0] == '-' || chars[0] == '+');
    let negative = signed && chars[0] == '-';
    let start: usize = if signed { 1 } else { 0 };
    let ghost digits = if has_sign(text@) {
        text@.drop_first()
    } else {
        text@
    };
    assert(digits =~= text@.skip(start as int));
    if chars.len() == start {
        assert(digits.len() == 0);
        return None;
    }
    let mut magnitude: u128 = 0;
    let mut i: usize = start;
    assert(digits.take(0) =~= Seq::empty());
    while i < chars.len()
        invariant
            2 <= base <= 16,
            chars@ == text@,
            start <= i <= chars@.len(),
            digits == text@.skip(start as int),
            digits_value(digits.take(i - start), base as nat) == Some(magnitude as nat),
            magnitude <= 0x8000_0000_0000_0000,
            digits == (if has_sign(text@) { text@.drop_first() } else { text@ }),
        decreases chars@.len() - i,
    {
        let ghost n = i - start;
        assert(digits.take(n + 1).drop_last() =~= digits.take(n));
        assert(digits.take(n + 1).last() == chars@[i as int]);
        match digit_of(chars[i], base) {
            Some(digit) => {
                assert(magnitude * base <= 0x8000_0000_0000_0000 * 16) by (nonlinear_arith)
                    requires
                        magnitude <= 0x8000_0000_0000_0000,
                        base <= 16,
                ;
                magnitude = magnitude * (base as u128) + digit as u128;
            },
            None => {
                proof {
                    lemma_digits_value_grows(digits, base as nat, n + 1);
                }
                return None;
            },
        }
        if magnitude > 0x8000_0000_0000_0000 {
            proof {
                lemma_digits_value_grows(digits, base as nat, n + 1);
            }
            return None;
        }
        i += 1;
    }
    assert(digits.take(i - start) =~= digits);
    if negative {
        Some((-(magnitude as i128)) as i64)
    } else if magnitude < 0x8000_0000_0000_0000 {
        Some(magnitude as i64)
    } else {
        None
    }
}

/// The decimal digit that stands for `value`.
pub open spec fn digit_char(value: nat) -> char {
    ('0' as u32 + value) as char
}

/// A natural number in decimal, without leading zeros.
pub open spec fn decimal(number: nat) -> Seq<char>
    decreases number,
{
    if number < 10 {
        seq![digit_char(number)]
    } else {
        decimal(number / 10).push(digit_char(number % 10))
    }
}

/// An integer in decimal, with a minus sign where it is negative.
pub open spec fn signed_decimal(number: int) -> Seq<char> {
    if number < 0 {
        seq!['-'] + decimal((-number) as nat)
    } else {
        decimal(number as nat)
    }
}

/// The decimal digit for a value below ten.
fn decimal_char(value: u8) -> (c: char)
    requires
        value < 10,
    ensures
        c == digit_char(value as nat),
{
    ('0' as u8 + value) as char
}

/// Appends a natural number in decimal.
pub fn append_decimal(text: &mut String, number: u128)
    ensures
        final(text)@ == old(text)@ + decimal(number as nat),
    decreases number,
{
    if number < 10 {
        text.push(decimal_char(number as u8));
        assert(text@ =~= old(text)@ + decimal(number as nat));
    } else {
        append_decimal(text, number / 10);
        text.push(decimal_char((number % 10) as u8));
        assert(text@ =~= old(text)@ + decimal(number as nat));
    }
}

/// An integer in decimal.
pub fn signed_decimal_text(number: i64) -> (text: String)
    ensures
        text@ == signed_decimal(number as int),
{
    let mut text = String::new();
    if number < 0 {
        text.push('-');
        append_decimal(&mut text, (-(number as i128)) as u128);
    } else {
        append_decimal(&mut text, number as u128);
    }
    assert(text@ =~= signed_decimal(number as int));
    text
}

/// Ten to the power of `exponent`.
pub open spec fn pow10(exponent: nat) -> nat
    decreases exponent,
{
    if exponent == 0 {
        1
    } else {
        10 * pow10((exponent - 1) as nat)
    }
}

/// So many decimal digits stand for less than that power of ten.
pub proof fn lemma_digits_bound(digits: Seq<char>)
    ensures
        digits_value(digits, 10) matches Some(value) ==> value < pow10(digits.len()),
    decreases digits.len(),
{
    if digits.len() > 0 {
        lemma_digits_bound(digits.drop_last());
    }
}

/// A number below a power of ten has at most that many decimal digits, and
/// its decimal consists of digits only.
pub proof fn lemma_decimal_shape(number: nat, length: nat)
    requires
        length >= 1,
        number < pow10(length),
    ensures
        1 <= decimal(number).len() <= length,
        forall|i: int| 0 <= i < decimal(number).len() ==> '0' <= #[trigger] decimal(number)[i] <= '9',
    decreases number,
{
    if number >= 10 {
        assert(length > 1) by {
            reveal_with_fuel(pow10, 2);
        }
        lemma_decimal_shape(number / 10, (length - 1) as nat);
    }
}

/// A digit counts by its place: one more digit multiplies what stands before it
/// by the base and adds its own value, which is the digit itself or, from `a`
/// on, ten and more. Anything else makes the run no number.
pub proof fn digits_count_by_their_place(digits: Seq<char>, c: char, base: nat)
    requires
        base == 10 || base == 16,
    ensures
        digits_value(Seq::empty(), base) == Some(0nat),
        digits_value(digits, base) is None ==> digits_value(digits.push(c), base) is None,
        digits_value(digits, base) matches Some(high) ==> {
            let code = c as int;
            let value = digits_value(digits.push(c), base);
            if 48 <= code <= 57 {
                value == Some((high * base + (code - 48)) as nat)
            } else if base == 16 && 97 <= code <= 102 {
                value == Some((high * 16 + (code - 87)) as nat)
            } else if base == 16 && 65 <= code <= 70 {
                value == Some((high * 16 + (code - 55)) as nat)
            } else {
                value is None
            }
        },
{
    assert(digits.push(c).drop_last() =~= digits);
}

/// A numeral is one or more digits with at most one sign in front, and stands
/// for every integer that 64 bits hold and for no other.
pub proof fn numerals_are_signed_digits(digits: Seq<char>, base: nat, n: int)
    requires
        base == 10 || base == 16,
    ensures
        integer_value(Seq::empty(), base) is None,
        digits.len() > 0 && digits[0] != '-' && digits[0] != '+' ==> (integer_value(digits, base)
            == Some(n) <==> 0 <= n <= 0x7fff_ffff_ffff_ffff && digits_value(digits, base) == Some(
            n as nat,
        )),
        integer_value(seq!['+'] + digits, base) == Some(n) <==> digits.len() > 0 && 0 <= n
            <= 0x7fff_ffff_ffff_ffff && digits_value(digits, base) == Some(n as nat),
        integer_value(seq!['-'] + digits, base) == Some(n) <==> digits.len() > 0 && n <= 0 && -n
            <= 0x8000_0000_0000_0000 && digits_value(digits, base) == Some((-n) as nat),
{
    let plus = seq!['+'] + digits;
    let minus = seq!['-'] + digits;
    assert(plus.drop_first() =~= digits);
    assert(minus.drop_first() =~= digits);
    assert(plus[0] == '+' && minus[0] == '-');
    assert(Seq::<char>::empty().len() == 0);
}

/// The decimal of a number consists of digits, reads back as the number, and
/// has no leading zero.
pub proof fn decimals_read_back(number: nat)
    ensures
        decimal(number).len() > 0,
        forall|i: int| 0 <= i < decimal(number).len() ==> '0' <= #[trigger] decimal(number)[i] <= '9',
        digits_value(decimal(number), 10) == Some(number),
        number > 0 ==> decimal(number)[0] != '0',
    decreases number,
{
    if number < 10 {
        assert(decimal(number).drop_last() =~= Seq::empty());
        assert(digits_value(decimal(number).drop_last(), 10) == Some(0nat));
        assert(digit_value(decimal(number).last(), 10) == Some(number));
    } else {
        decimals_read_back(number / 10);
        assert(decimal(number).drop_last() =~= decimal(number / 10));
    }
}

/// Every integer that 64 bits hold reads back from its decimal; only a negative
/// one carries a sign.
pub proof fn integers_read_back(number: int)
    requires
        i64::MIN <= number <= i64::MAX,
    ensures
        integer_value(signed_decimal(number), 10) == Some(number),
        signed_decimal(number)[0] == '-' <==> number < 0,
{
    if number < 0 {
        decimals_read_back((-number) as nat);
        numerals_are_signed_digits(decimal((-number) as nat), 10, number);
    } else {
        decimals_read_back(number as nat);
        numerals_are_signed_digits(decimal(number as nat), 10, number);
    }
}

} // verus!
