//! Arithmetic of double precision, carried out in integers.
//!
//! Amounts are counted in steps of 2^-82. A double has a mantissa of 53 bits,
//! so every double that is zero or at least 2^-30 is a whole number of steps,
//! and rounding to a double is rounding to a multiple of a power of two.

use vstd::arithmetic::div_mod::{
    lemma_div_denominator, lemma_fundamental_div_mod, lemma_fundamental_div_mod_converse,
};
use vstd::arithmetic::power2::{lemma2_to64, lemma_pow2_unfold, pow2};
use vstd::prelude::*;

verus! {

/// The spacing of doubles around a whole number of steps: the power of two
/// that leaves 53 bits.
pub open spec fn double_unit(steps: nat) -> nat
    decreases steps,
{
    if steps < 0x20_0000_0000_0000 {
        1
    } else {
        2 * double_unit(steps / 2)
    }
}

/// A quotient to the nearest whole number; halfway between two of them, the
/// even one.
pub open spec fn rounded_quotient(number: nat, divisor: nat) -> nat {
    let quotient = number / divisor;
    let rest = number % divisor;
    if 2 * rest < divisor || (2 * rest == divisor && quotient % 2 == 0) {
        quotient
    } else {
        quotient + 1
    }
}

/// The double nearest to a quotient.
pub open spec fn nearest_double(number: nat, divisor: nat) -> nat {
    let unit = double_unit(number / divisor);
    rounded_quotient(number, divisor * unit) * unit
}

/// A whole number of up to 192 bits.
#[derive(Debug, Clone, Copy, PartialEq, Eq)]
pub struct Wide {
    pub high: u128,
    pub low: u64,
}

impl View for Wide {
    type V = nat;

    open spec fn view(&self) -> nat {
        (self.high * 0x1_0000_0000_0000_0000 + self.low) as nat
    }
}

impl Wide {
    /// The number `high * 2^64`.
    pub fn shifted(high: u128) -> (number: Self)
        ensures
            number@ == high * 0x1_0000_0000_0000_0000,
    {
        Wide { high, low: 0 }
    }

    /// The sum of two numbers.
    pub fn plus(&self, other: &Wide) -> (sum: Self)
        requires
            self.high < 0x1000_0000_0000_0000_0000_0000_0000_0000,
            other.high < 0x1000_0000_0000_0000_0000_0000_0000_0000,
        ensures
            sum@ == self@ + other@,
    {
        let low: u128 = self.low as u128 + other.low as u128;
        let carry: u128 = low / 0x1_0000_0000_0000_0000;
        let rest: u128 = low % 0x1_0000_0000_0000_0000;
        Wide { high: self.high + other.high + carry, low: rest as u64 }
    }

    /// Whether a number is less than another.
    pub fn less_than(&self, other: &Wide) -> (less: bool)
        ensures
            less == (self@ < other@),
    {
        self.high < other.high || (self.high == other.high && self.low < other.low)
    }

    /// The difference of two numbers.
    pub fn minus(&self, other: &Wide) -> (difference: Self)
        requires
            self@ >= other@,
        ensures
            difference@ == self@ - other@,
    {
        if self.low >= other.low {
            Wide { high: self.high - other.high, low: self.low - other.low }
        } else {
            let low: u128 = 0x1_0000_0000_0000_0000 + self.low as u128 - other.low as u128;
            Wide { high: self.high - other.high - 1, low: low as u64 }
        }
    }

    /// A number times a small one.
    pub fn times(&self, factor: u64) -> (product: Self)
        requires
            self.high < 0x1_0000_0000_0000_0000_0000_0000_0000,
            factor <= 1000,
        ensures
            product@ == self@ * factor,
    {
        assert(self.low * factor <= 0x1_0000_0000_0000_0000 * 1000) by (nonlinear_arith)
            requires
                factor <= 1000,
        ;
        let low: u128 = self.low as u128 * factor as u128;
        let carry: u128 = low / 0x1_0000_0000_0000_0000;
        let rest: u128 = low % 0x1_0000_0000_0000_0000;
        assert(self.high * factor <= 0x1_0000_0000_0000_0000_0000_0000_0000 * 1000)
            by (nonlinear_arith)
            requires
                self.high < 0x1_0000_0000_0000_0000_0000_0000_0000,
                factor <= 1000,
        ;
        let high: u128 = self.high * factor as u128 + carry;
        assert(self@ * factor == (self.high * factor) * 0x1_0000_0000_0000_0000 + self.low * factor)
            by (nonlinear_arith)
            requires
                self@ == self.high * 0x1_0000_0000_0000_0000 + self.low,
        ;
        Wide { high, low: rest as u64 }
    }

    /// A number halved, and whether it was odd.
    pub fn half(&self) -> (halved: (Self, bool))
        ensures
            halved.0@ == self@ / 2,
            halved.1 == (self@ % 2 == 1),
    {
        let carry: u64 = if self.high % 2 == 1 {
            0x8000_0000_0000_0000
        } else {
            0
        };
        (Wide { high: self.high / 2, low: self.low / 2 + carry }, self.low % 2 == 1)
    }

    /// A quotient and its rest.
    pub fn divided(&self, divisor: u64) -> (result: (Self, u64))
        requires
            0 < divisor <= 0x1_0000_0000,
        ensures
            self@ == result.0@ * divisor + result.1,
            result.1 < divisor,
    {
        let high: u128 = self.high / divisor as u128;
        let over: u128 = self.high % divisor as u128;
        assert(self.high == high * divisor + over && over < divisor) by {
            lemma_fundamental_div_mod(self.high as int, divisor as int);
            assert(divisor as int * high as int == high * divisor) by (nonlinear_arith);
        }
        let below: u128 = over * 0x1_0000_0000_0000_0000 + self.low as u128;
        let low: u128 = below / divisor as u128;
        let rest: u128 = below % divisor as u128;
        assert(below == low * divisor + rest && rest < divisor) by {
            lemma_fundamental_div_mod(below as int, divisor as int);
            assert(divisor as int * low as int == low * divisor) by (nonlinear_arith);
        }
        assert(low < 0x1_0000_0000_0000_0000) by (nonlinear_arith)
            requires
                low * divisor <= below,
                below < (over + 1) * 0x1_0000_0000_0000_0000,
                over + 1 <= divisor,
                divisor > 0,
        ;
        assert((high * 0x1_0000_0000_0000_0000 + low) * divisor == (high * divisor)
            * 0x1_0000_0000_0000_0000 + low * divisor) by (nonlinear_arith);
        (Wide { high, low: low as u64 }, rest as u64)
    }

    /// The product of a number of 53 bits and one of 117 bits.
    pub fn product(left: u64, right: u128) -> (product: Self)
        requires
            left <= 0x20_0000_0000_0000,
            right <= 0x20_0000_0000_0000_0000_0000_0000_0000,
        ensures
            product@ == left * right,
    {
        let right_high: u128 = right / 0x1_0000_0000_0000_0000;
        let right_low: u128 = right % 0x1_0000_0000_0000_0000;
        assert(left * right_low < 0x20_0000_0000_0000 * 0x1_0000_0000_0000_0000 + 1)
            by (nonlinear_arith)
            requires
                left <= 0x20_0000_0000_0000,
                right_low < 0x1_0000_0000_0000_0000,
        ;
        let low: u128 = left as u128 * right_low;
        let carry: u128 = low / 0x1_0000_0000_0000_0000;
        let rest: u128 = low % 0x1_0000_0000_0000_0000;
        assert(left * right_high <= 0x20_0000_0000_0000 * 0x20_0000_0000_0000) by (nonlinear_arith)
            requires
                left <= 0x20_0000_0000_0000,
                right_high <= 0x20_0000_0000_0000,
        ;
        let high: u128 = left as u128 * right_high + carry;
        assert(left * (right_high * 0x1_0000_0000_0000_0000 + right_low) == (left * right_high)
            * 0x1_0000_0000_0000_0000 + left * right_low) by (nonlinear_arith);
        Wide { high, low: rest as u64 }
    }
}

/// The double nearest to a quotient.
pub fn nearest(number: &Wide, divisor: u64) -> (rounded: Wide)
    requires
        0 < divisor <= 0x1_0000_0000,
        number.high < 0x200_0000_0000_0000_0000_0000_0000,
    ensures
        rounded@ == nearest_double(number@, divisor as nat),
        rounded@ <= 2 * number@ + 1,
{
    let (whole, rest) = number.divided(divisor);
    assert(number@ / divisor as nat == whole@ && number@ % divisor as nat == rest) by {
        lemma_fundamental_div_mod_converse(
            number@ as int,
            divisor as int,
            whole@ as int,
            rest as int,
        );
    }
    assert(whole@ <= number@) by (nonlinear_arith)
        requires
            number@ == whole@ * divisor + rest,
            divisor >= 1,
            rest >= 0,
    ;
    let mut top = whole;
    let mut unit: u128 = 1;
    let mut part: u128 = 0;
    assert(whole@ == top@ * unit + part);
    while top.high > 0 || top.low >= 0x20_0000_0000_0000
        invariant
            whole@ == top@ * unit + part,
            part < unit,
            unit == 1 || unit % 2 == 0,
            unit <= 0x20_0000_0000_0000_0000_0000_0000_0000,
            unit == 1 || top@ >= 0x10_0000_0000_0000,
            double_unit(whole@) == unit * double_unit(top@),
            whole@ < 0x200_0000_0000_0000_0000_0000_0000 * 0x1_0000_0000_0000_0000,
        decreases top@,
    {
        let ghost before = top@;
        let ghost before_unit = unit;
        let ghost before_part = part;
        assert(unit < 0x10_0000_0000_0000_0000_0000_0000_0000) by (nonlinear_arith)
            requires
                before * unit + part == whole@,
                before >= 0x20_0000_0000_0000,
                part >= 0,
                whole@ < 0x200_0000_0000_0000_0000_0000_0000 * 0x1_0000_0000_0000_0000,
        ;
        let (halved, odd) = top.half();
        if odd {
            part = part + unit;
        }
        unit = unit * 2;
        top = halved;
        assert(whole@ == top@ * unit + part) by (nonlinear_arith)
            requires
                whole@ == before * before_unit + before_part,
                unit == 2 * before_unit,
                top@ == before / 2,
                part == before_part + (before % 2) * before_unit,
        ;
        assert(double_unit(before) == 2 * double_unit(top@));
        assert(unit * double_unit(top@) == before_unit * (2 * double_unit(top@)))
            by (nonlinear_arith)
            requires
                unit == 2 * before_unit,
        ;
    }
    assert(unit * double_unit(top@) == unit) by (nonlinear_arith)
        requires
            double_unit(top@) == 1,
    ;
    let quotient: u64 = top.low;
    let even = quotient % 2 == 0;
    let up = if unit == 1 {
        let twice: u128 = 2 * (rest as u128);
        twice > divisor as u128 || (twice == divisor as u128 && !even)
    } else if 2 * part > unit {
        true
    } else if 2 * part < unit {
        false
    } else {
        rest > 0 || !even
    };
    proof {
        let step = divisor * unit;
        let over = part * divisor + rest;
        assert(number@ == quotient * step + over) by (nonlinear_arith)
            requires
                number@ == whole@ * divisor + rest,
                whole@ == quotient * unit + part,
                step == divisor * unit,
                over == part * divisor + rest,
        ;
        assert(0 <= over < step) by (nonlinear_arith)
            requires
                over == part * divisor + rest,
                step == divisor * unit,
                0 <= part <= unit - 1,
                0 <= rest < divisor,
        ;
        lemma_fundamental_div_mod_converse(number@ as int, step, quotient as int, over);
        if unit == 1 {
            assert(over == rest && step == divisor) by (nonlinear_arith)
                requires
                    unit == 1,
                    part == 0,
                    over == part * divisor + rest,
                    step == divisor * unit,
            ;
        } else if 2 * part > unit {
            assert(2 * over > step) by (nonlinear_arith)
                requires
                    2 * part >= unit + 1,
                    over == part * divisor + rest,
                    step == divisor * unit,
                    divisor > 0,
                    rest >= 0,
            ;
        } else if 2 * part < unit {
            assert(2 * over < step) by (nonlinear_arith)
                requires
                    2 * part <= unit - 2,
                    over == part * divisor + rest,
                    step == divisor * unit,
                    rest < divisor,
            ;
        } else {
            assert(2 * over == step + 2 * rest) by (nonlinear_arith)
                requires
                    2 * part == unit,
                    over == part * divisor + rest,
                    step == divisor * unit,
            ;
        }
        assert(rounded_quotient(number@, step as nat) == quotient + (if up {
            1int
        } else {
            0int
        }));
    }
    let rounded_up: u64 = if up {
        quotient + 1
    } else {
        quotient
    };
    assert(rounded_up * unit <= 2 * whole@ + 1) by (nonlinear_arith)
        requires
            rounded_up <= quotient + 1,
            whole@ == quotient * unit + part,
            part >= 0,
            unit == 1 || quotient >= 1,
            unit >= 1,
    ;
    Wide::product(rounded_up, unit)
}

/// A double is nearer to the number that it rounds than half the spacing of
/// doubles up to a limit.
pub proof fn lemma_nearest_is_close(number: nat, divisor: nat, limit: nat)
    requires
        divisor > 0,
        number <= divisor * limit,
        limit >= 0x10_0000_0000_0000,
    ensures
        -(divisor * limit) <= 0x20_0000_0000_0000 * (nearest_double(number, divisor) * divisor
            - number) <= divisor * limit,
{
    let whole = number / divisor;
    let unit = double_unit(whole);
    lemma_unit_is_small(whole);
    assert(whole <= limit) by (nonlinear_arith)
        requires
            whole == number / divisor,
            number <= divisor * limit,
            divisor > 0,
    ;
    let step = divisor * unit;
    let quotient = number / step;
    let over = number % step;
    assert(step > 0) by (nonlinear_arith)
        requires
            step == divisor * unit,
            divisor > 0,
            unit > 0,
    ;
    lemma_fundamental_div_mod(number as int, step as int);
    let rounded = rounded_quotient(number, step);
    let near = rounded * unit * divisor;
    assert(near == rounded * step) by (nonlinear_arith)
        requires
            near == rounded * unit * divisor,
            step == divisor * unit,
    ;
    assert(2 * (near - number) <= step && -step <= 2 * (near - number)) by (nonlinear_arith)
        requires
            near == rounded * step,
            number == step * quotient + over,
            0 <= over < step,
            rounded == quotient && 2 * over <= step || rounded == quotient + 1 && 2 * over >= step,
    ;
    assert(0x10_0000_0000_0000 * step <= divisor * limit) by (nonlinear_arith)
        requires
            step == divisor * unit,
            0x10_0000_0000_0000 * unit <= limit,
            divisor > 0,
    ;
}

proof fn lemma_unit_is_small(steps: nat)
    ensures
        double_unit(steps) >= 1,
        double_unit(steps) == 1 || 0x10_0000_0000_0000 * double_unit(steps) <= steps,
    decreases steps,
{
    if steps >= 0x20_0000_0000_0000 {
        lemma_unit_is_small(steps / 2);
    }
}

/// Whether `mantissa` units are the double nearest to a quotient: the unit is a
/// power of two, the mantissa has 53 bits at most and all of them where the unit
/// is more than one step, no other multiple of the unit is nearer, and halfway
/// between two of them the mantissa is even.
pub open spec fn is_nearest(number: nat, divisor: nat, exponent: nat, mantissa: nat) -> bool {
    let unit = pow2(exponent) * divisor;
    let error = number - mantissa * unit;
    &&& mantissa <= 0x20_0000_0000_0000
    &&& exponent > 0 ==> mantissa >= 0x10_0000_0000_0000
    &&& -(unit as int) <= 2 * error <= unit
    &&& 2 * error == unit || 2 * error == -(unit as int) ==> mantissa % 2 == 0
}

/// Doubles are rounded to the nearest one of 53 bits, and halfway to the even
/// one.
pub proof fn doubles_are_the_nearest_of_53_bits(number: nat, divisor: nat)
    requires
        divisor > 0,
    ensures
        exists|exponent: nat, mantissa: nat| #[trigger]
            is_nearest(number, divisor, exponent, mantissa) && nearest_double(number, divisor)
                == mantissa * pow2(exponent),
{
    let steps = number / divisor;
    let exponent = lemma_unit_is_a_power(steps);
    let unit = double_unit(steps);
    let wide = divisor * unit;
    assert(wide > 0) by (nonlinear_arith)
        requires
            divisor > 0,
            unit > 0,
            wide == divisor * unit,
    ;
    let quotient = number / wide;
    let rest = number % wide;
    let mantissa = rounded_quotient(number, wide);
    lemma_div_denominator(number as int, divisor as int, unit as int);
    assert(quotient == steps / unit);
    lemma_fundamental_div_mod(steps as int, unit as int);
    assert(quotient < 0x20_0000_0000_0000) by (nonlinear_arith)
        requires
            steps < 0x20_0000_0000_0000 * unit,
            steps == unit * quotient + steps % unit,
            0 <= steps % unit,
            unit > 0,
    ;
    if exponent > 0 {
        assert(quotient >= 0x10_0000_0000_0000) by (nonlinear_arith)
            requires
                steps >= 0x10_0000_0000_0000 * unit,
                steps == unit * quotient + steps % unit,
                steps % unit < unit,
                unit > 0,
        ;
    }
    lemma_fundamental_div_mod(number as int, wide as int);
    assert(number == wide * quotient + rest);
    assert(pow2(exponent) * divisor == wide) by (nonlinear_arith)
        requires
            pow2(exponent) == unit,
            wide == divisor * unit,
    ;
    assert(wide * quotient == quotient * wide) by (nonlinear_arith);
    assert((quotient + 1) * wide == quotient * wide + wide) by (nonlinear_arith);
    assert(is_nearest(number, divisor, exponent, mantissa));
}

proof fn lemma_unit_is_a_power(steps: nat) -> (exponent: nat)
    ensures
        double_unit(steps) == pow2(exponent),
        double_unit(steps) > 0,
        steps < 0x20_0000_0000_0000 * double_unit(steps),
        exponent > 0 ==> steps >= 0x10_0000_0000_0000 * double_unit(steps),
        exponent == 0 ==> double_unit(steps) == 1,
    decreases steps,
{
    lemma2_to64();
    if steps < 0x20_0000_0000_0000 {
        0
    } else {
        let before = lemma_unit_is_a_power(steps / 2);
        lemma_pow2_unfold(before + 1);
        before + 1
    }
}

} // verus!
