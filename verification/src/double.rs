//! Double-precision numbers carried as their bit patterns.
//!
//! A reading such as a percentage or a file size stays a double-precision number outside; in
//! here it is compared and written down exactly, in integers.

use vstd::arithmetic::power2;
use vstd::prelude::*;

use crate::decimal;

verus! {

/// A double-precision number (IEEE 754 binary64), held as its bit pattern.
#[derive(Clone, Copy, Debug, PartialEq, Eq, Structural)]
pub struct Double {
    pub bits: u64,
}

impl Double {
    /// The sign bit is set.
    pub open spec fn is_negative(self) -> bool {
        self.bits >= 0x8000_0000_0000_0000
    }

    /// The bits below the sign bit; among numbers of one sign they order as the numbers do.
    pub open spec fn magnitude(self) -> u64 {
        self.bits % 0x8000_0000_0000_0000
    }

    /// Not a number.
    pub open spec fn is_nan(self) -> bool {
        self.magnitude() > 0x7ff0_0000_0000_0000
    }

    /// One of the two infinities.
    pub open spec fn is_infinite(self) -> bool {
        self.magnitude() == 0x7ff0_0000_0000_0000
    }

    /// The place of a number among the others; both zeros have the same.
    pub open spec fn rank(self) -> int {
        if self.is_negative() {
            -(self.magnitude() as int)
        } else {
            self.magnitude() as int
        }
    }

    /// `self >= other` between numbers. Nothing compares with what is not a number.
    pub open spec fn at_least(self, other: Double) -> bool {
        !self.is_nan() && !other.is_nan() && self.rank() >= other.rank()
    }

    /// `self > other` between numbers.
    pub open spec fn above(self, other: Double) -> bool {
        !self.is_nan() && !other.is_nan() && self.rank() > other.rank()
    }

    /// The significand of a finite number, as an integer.
    pub open spec fn significand(self) -> u64 {
        let fraction = self.magnitude() % 0x10_0000_0000_0000;
        if self.magnitude() < 0x10_0000_0000_0000 {
            fraction
        } else {
            (0x10_0000_0000_0000 + fraction) as u64
        }
    }

    /// The power of two that the significand of a finite number counts.
    pub open spec fn exponent(self) -> int {
        if self.magnitude() < 0x10_0000_0000_0000 {
            -1074
        } else {
            self.magnitude() as int / 0x10_0000_0000_0000 - 1075
        }
    }

    fn magnitude_bits(self) -> (magnitude: u64)
        ensures
            magnitude == self.magnitude(),
    {
        self.bits % 0x8000_0000_0000_0000
    }

    /// Zero.
    pub fn zero() -> (zero: Double)
        ensures
            zero.bits == 0,
    {
        Double { bits: 0 }
    }

    /// Whether this is not a number.
    pub fn nan(self) -> (yes: bool)
        ensures
            yes == self.is_nan(),
    {
        self.magnitude_bits() > 0x7ff0_0000_0000_0000
    }

    /// Whether this number is at least the other.
    pub fn ge(self, other: Double) -> (yes: bool)
        ensures
            yes == self.at_least(other),
    {
        if self.nan() || other.nan() {
            return false;
        }
        let a: u64 = self.magnitude_bits();
        let b: u64 = other.magnitude_bits();
        let below: bool = self.bits >= 0x8000_0000_0000_0000;
        let other_below: bool = other.bits >= 0x8000_0000_0000_0000;
        if below && other_below {
            a <= b
        } else if below {
            a == 0 && b == 0
        } else if other_below {
            true
        } else {
            a >= b
        }
    }

    /// Whether this number is greater than the other.
    pub fn gt(self, other: Double) -> (yes: bool)
        ensures
            yes == self.above(other),
    {
        self.ge(other) && !other.ge(self)
    }
}

/// A quotient rounded to the nearest integer, a half to the even one.
pub open spec fn nearest(n: nat, d: nat) -> nat
    recommends
        d > 0,
{
    let quotient = n / d;
    let twice_rest = 2 * (n % d);
    if twice_rest < d || (twice_rest == d && quotient % 2 == 0) {
        quotient
    } else {
        quotient + 1
    }
}

/// `significand` times two to the power `exponent`, rounded to tenths or to units. A tenth that
/// is zero is left out.
pub open spec fn fixed_point(significand: nat, exponent: int, one_place: bool) -> Seq<char> {
    if exponent >= 0 {
        decimal::decimal(significand * power2::pow2(exponent as nat))
    } else if one_place {
        let tenths = nearest(significand * 10, power2::pow2((-exponent) as nat));
        if tenths % 10 == 0 {
            decimal::decimal(tenths / 10)
        } else {
            decimal::decimal(tenths / 10) + "."@ + decimal::decimal(tenths % 10)
        }
    } else {
        decimal::decimal(nearest(significand, power2::pow2((-exponent) as nat)))
    }
}

/// A number written with at most one decimal place, or with none.
pub open spec fn number_text(d: Double, one_place: bool) -> Seq<char> {
    if d.is_nan() {
        "NaN"@
    } else {
        let sign = if d.is_negative() {
            "-"@
        } else {
            ""@
        };
        sign + if d.is_infinite() {
            "inf"@
        } else {
            fixed_point(d.significand() as nat, d.exponent(), one_place)
        }
    }
}

/// How many times a size is counted in the next larger unit: 1024 of a unit make one of the
/// next, and there are three steps at most.
pub open spec fn unit_steps(size: Double) -> int {
    if size.at_least(Double { bits: 0x41d0_0000_0000_0000 }) {
        3
    } else if size.at_least(Double { bits: 0x4130_0000_0000_0000 }) {
        2
    } else if size.at_least(Double { bits: 0x4090_0000_0000_0000 }) {
        1
    } else {
        0
    }
}

/// A size divided by 1024, `steps` times. An infinite size stays what it is.
pub open spec fn in_unit(size: Double, steps: int) -> Double {
    if size.is_infinite() {
        size
    } else {
        Double { bits: (size.bits - steps * 0xa0_0000_0000_0000) as u64 }
    }
}

/// The units, from bytes up.
pub open spec fn unit_name(steps: int) -> Seq<char> {
    if steps == 0 {
        "B"@
    } else if steps == 1 {
        "KB"@
    } else if steps == 2 {
        "MB"@
    } else {
        "GB"@
    }
}

/// A byte count as a compact size.
pub open spec fn size_text(size: Double) -> Seq<char> {
    let steps = unit_steps(size);
    number_text(in_unit(size, steps), steps > 0) + " "@ + unit_name(steps)
}

/// Two to a power, as a machine number.
fn power_of_two(exponent: u32) -> (power: u64)
    requires
        exponent < 60,
    ensures
        power == power2::pow2(exponent as nat),
        0 < power <= 0x800_0000_0000_0000,
{
    proof {
        power2::lemma2_to64();
        power2::lemma2_to64_rest();
    }
    let mut power: u64 = 1;
    let mut done: u32 = 0;
    while done < exponent
        invariant
            done <= exponent < 60,
            power == power2::pow2(done as nat),
            power2::pow2(59) == 0x800_0000_0000_0000,
        decreases exponent - done,
    {
        proof {
            power2::lemma_pow2_unfold((done + 1) as nat);
            if done + 1 < 59 {
                power2::lemma_pow2_strictly_increases((done + 1) as nat, 59);
            }
        }
        power = power * 2;
        done = done + 1;
    }
    proof {
        power2::lemma_pow2_pos(exponent as nat);
        if exponent < 59 {
            power2::lemma_pow2_strictly_increases(exponent as nat, 59);
        }
    }
    power
}

/// `n` divided by two to the power `exponent`, rounded to the nearest.
fn nearest_shift(n: u64, exponent: u32) -> (quotient: u64)
    requires
        n < 0x200_0000_0000_0000,
        exponent > 0,
    ensures
        quotient == nearest(n as nat, power2::pow2(exponent as nat)),
{
    if exponent >= 60 {
        proof {
            power2::lemma2_to64_rest();
            if exponent > 60 {
                power2::lemma_pow2_strictly_increases(60, exponent as nat);
            }
            let power = power2::pow2(exponent as nat) as int;
            vstd::arithmetic::div_mod::lemma_small_mod(n as nat, power as nat);
            vstd::arithmetic::div_mod::lemma_basic_div(n as int, power);
        }
        0
    } else {
        let power: u64 = power_of_two(exponent);
        let quotient: u64 = n / power;
        let rest: u64 = n % power;
        if 2 * rest < power || (2 * rest == power && quotient % 2 == 0) {
            quotient
        } else {
            assert(quotient <= n) by {
                vstd::arithmetic::div_mod::lemma_div_is_ordered_by_denominator(
                    n as int,
                    1,
                    power as int,
                );
            }
            quotient + 1
        }
    }
}

/// Writes a finite number with at most one decimal place, or with none.
fn fixed_point_text(significand: u64, exponent: i32, one_place: bool) -> (text: String)
    requires
        significand < 0x20_0000_0000_0000,
        -1074 <= exponent,
    ensures
        text@ == fixed_point(significand as nat, exponent as int, one_place),
{
    if exponent >= 0 {
        decimal::shifted_decimal_text(significand, exponent as u32)
    } else if one_place {
        let tenths: u64 = nearest_shift(significand * 10, (-exponent) as u32);
        let units = decimal::decimal_text(tenths / 10);
        if tenths % 10 == 0 {
            units
        } else {
            units.concat(".").concat(decimal::decimal_text(tenths % 10).as_str())
        }
    } else {
        decimal::decimal_text(nearest_shift(significand, (-exponent) as u32))
    }
}

/// Writes a number with at most one decimal place, or with none.
pub fn format_number(d: Double, one_place: bool) -> (text: String)
    ensures
        text@ == number_text(d, one_place),
{
    if d.nan() {
        return "NaN".to_owned();
    }
    let sign = if d.bits >= 0x8000_0000_0000_0000 {
        "-".to_owned()
    } else {
        "".to_owned()
    };
    let magnitude: u64 = d.magnitude_bits();
    if magnitude == 0x7ff0_0000_0000_0000 {
        return sign.concat("inf");
    }
    let fraction: u64 = magnitude % 0x10_0000_0000_0000;
    let significand: u64 = if magnitude < 0x10_0000_0000_0000 {
        fraction
    } else {
        0x10_0000_0000_0000 + fraction
    };
    let exponent: i32 = if magnitude < 0x10_0000_0000_0000 {
        -1074
    } else {
        (magnitude / 0x10_0000_0000_0000) as i32 - 1075
    };
    sign.concat(fixed_point_text(significand, exponent, one_place).as_str())
}

/// Formats a byte count as a compact, human-readable size ("124 MB").
pub fn human_size(size: Double) -> (text: String)
    ensures
        text@ == size_text(size),
{
    let full = Double { bits: 0x4090_0000_0000_0000 };
    let mut value = size;
    let mut unit: u64 = 0;
    while unit < 3 && value.ge(full)
        invariant
            full.bits == 0x4090_0000_0000_0000,
            unit <= 3,
            unit <= unit_steps(size),
            value == in_unit(size, unit as int),
            size.is_infinite() || unit * 0xa0_0000_0000_0000 <= size.bits,
        decreases 3 - unit,
    {
        if value.magnitude_bits() != 0x7ff0_0000_0000_0000 {
            value = Double { bits: value.bits - 0xa0_0000_0000_0000 };
        }
        unit = unit + 1;
    }
    let number = format_number(value, unit > 0).concat(" ");
    if unit == 0 {
        number.concat("B")
    } else if unit == 1 {
        number.concat("KB")
    } else if unit == 2 {
        number.concat("MB")
    } else {
        number.concat("GB")
    }
}

/// Counting a finite size in a larger unit divides it exactly by 1024 per step: the significand
/// stays, and the power of two that it counts falls by ten each time.
pub proof fn law_unit_divides_exactly(size: Double)
    requires
        !size.is_nan(),
        !size.is_infinite(),
    ensures
        in_unit(size, unit_steps(size)).significand() == size.significand(),
        in_unit(size, unit_steps(size)).exponent() == size.exponent() - 10 * unit_steps(size),
        in_unit(size, unit_steps(size)).is_negative() == size.is_negative(),
{
}

/// The number shown is at least 1 once a larger unit is used, and below 1024 unless the largest
/// unit is used.
pub proof fn law_size_is_compact(size: Double)
    requires
        !size.is_nan(),
        !size.is_infinite(),
    ensures
        ({
            let shown = in_unit(size, unit_steps(size));
            &&& unit_steps(size) > 0 ==> shown.at_least(Double { bits: 0x3ff0_0000_0000_0000 })
            &&& unit_steps(size) < 3 ==> !shown.at_least(Double { bits: 0x4090_0000_0000_0000 })
        }),
{
}

/// The number is the integer `n`.
pub open spec fn is_whole(d: Double, n: nat) -> bool {
    &&& !d.is_nan()
    &&& !d.is_infinite()
    &&& !d.is_negative()
    &&& if d.exponent() >= 0 {
        n == d.significand() as nat * power2::pow2(d.exponent() as nat)
    } else {
        d.significand() as nat == n * power2::pow2((-d.exponent()) as nat)
    }
}

/// A size that is a whole number of its unit is shown as that number and the unit, such as
/// "124 MB".
pub proof fn law_whole_size_is_shown_whole(size: Double, n: nat)
    requires
        is_whole(in_unit(size, unit_steps(size)), n),
    ensures
        size_text(size) == decimal::decimal(n) + " "@ + unit_name(unit_steps(size)),
{
    let shown = in_unit(size, unit_steps(size));
    reveal_strlit("");
    if shown.exponent() < 0 {
        let unit = power2::pow2((-shown.exponent()) as nat);
        power2::lemma_pow2_pos((-shown.exponent()) as nat);
        assert(shown.significand() as nat * 10 == (10 * n) * unit) by (nonlinear_arith)
            requires
                shown.significand() as nat == n * unit,
        ;
        lemma_nearest_is_exact(10 * n, unit);
        lemma_nearest_is_exact(n, unit);
    }
    assert(""@ + decimal::decimal(n) =~= decimal::decimal(n));
}

/// Rounding leaves a multiple what it is.
proof fn lemma_nearest_is_exact(n: nat, d: nat)
    requires
        d > 0,
    ensures
        nearest(n * d, d) == n,
{
    vstd::arithmetic::div_mod::lemma_div_by_multiple(n as int, d as int);
    vstd::arithmetic::div_mod::lemma_mod_multiples_basic(n as int, d as int);
}

/// Between numbers, `at_least` is a total order up to the two zeros.
pub proof fn law_numbers_are_ordered(a: Double, b: Double, c: Double)
    requires
        !a.is_nan(),
        !b.is_nan(),
        !c.is_nan(),
    ensures
        a.at_least(a),
        a.at_least(b) || b.at_least(a),
        a.at_least(b) && b.at_least(c) ==> a.at_least(c),
        a.above(b) == !b.at_least(a),
{
}

/// The value of a finite number, in units of the smallest positive one.
pub open spec fn scaled(d: Double) -> int {
    let size = d.significand() as nat * power2::pow2((d.exponent() + 1074) as nat);
    if d.is_negative() {
        -(size as int)
    } else {
        size as int
    }
}

/// The bits of a finite number are its sign, its power of two, and its significand, whose
/// leading bit is left out unless the power is the smallest.
pub proof fn law_bits_of_a_number(negative: bool, power: int, fraction: int)
    requires
        0 <= power < 0x7ff,
        0 <= fraction < 0x10_0000_0000_0000,
    ensures
        ({
            let d = Double {
                bits: ((if negative {
                    0x8000_0000_0000_0000int
                } else {
                    0
                }) + power * 0x10_0000_0000_0000 + fraction) as u64,
            };
            &&& !d.is_nan() && !d.is_infinite()
            &&& d.is_negative() == negative
            &&& power == 0 ==> d.significand() == fraction && d.exponent() == -1074
            &&& power > 0 ==> d.significand() == 0x10_0000_0000_0000 + fraction && d.exponent()
                == power - 1075
        }),
{
}

/// The size of the finite number of a magnitude.
spec fn magnitude_value(m: int) -> nat {
    if m < 0x10_0000_0000_0000 {
        m as nat
    } else {
        (0x10_0000_0000_0000 + m % 0x10_0000_0000_0000) as nat * power2::pow2(
            (m / 0x10_0000_0000_0000 - 1) as nat,
        )
    }
}

proof fn lemma_magnitude_value(d: Double)
    requires
        !d.is_nan(),
        !d.is_infinite(),
    ensures
        scaled(d) == if d.is_negative() {
            -(magnitude_value(d.magnitude() as int) as int)
        } else {
            magnitude_value(d.magnitude() as int) as int
        },
{
    let m = d.magnitude() as int;
    power2::lemma2_to64();
    if m < 0x10_0000_0000_0000 {
        assert(power2::pow2(0) == 1);
        assert(d.significand() as nat * power2::pow2(0) == d.significand() as nat)
            by (nonlinear_arith)
            requires
                power2::pow2(0) == 1,
        ;
    }
}

proof fn lemma_next_magnitude(m: int)
    requires
        0 <= m,
    ensures
        magnitude_value(m) < magnitude_value(m + 1),
{
    let base = 0x10_0000_0000_0000int;
    power2::lemma2_to64();
    if m + 1 < base {
    } else if m < base {
        assert(m + 1 == base);
        assert((base + base % base) as nat * power2::pow2(0) == base) by (nonlinear_arith)
            requires
                base > 0,
                base % base == 0,
                power2::pow2(0) == 1,
        ;
    } else {
        let power = (m / base - 1) as nat;
        let fraction = m % base;
        power2::lemma_pow2_pos(power);
        if fraction + 1 < base {
            assert((m + 1) / base == m / base && (m + 1) % base == fraction + 1);
            assert((base + fraction) * power2::pow2(power) < (base + fraction + 1) * power2::pow2(
                power,
            )) by (nonlinear_arith)
                requires
                    power2::pow2(power) > 0,
            ;
        } else {
            assert((m + 1) / base == m / base + 1 && (m + 1) % base == 0);
            power2::lemma_pow2_unfold((power + 1) as nat);
            assert((base + fraction) * power2::pow2(power) < base * (2 * power2::pow2(power)))
                by (nonlinear_arith)
                requires
                    power2::pow2(power) > 0,
                    fraction == base - 1,
            ;
        }
    }
}

proof fn lemma_magnitudes_rise(a: int, b: int)
    requires
        0 <= a < b,
    ensures
        magnitude_value(a) < magnitude_value(b),
    decreases b - a,
{
    lemma_next_magnitude(b - 1);
    if a < b - 1 {
        lemma_magnitudes_rise(a, b - 1);
    }
}

/// Finite numbers compare as their values do.
pub proof fn law_order_is_that_of_values(a: Double, b: Double)
    requires
        !a.is_nan() && !a.is_infinite(),
        !b.is_nan() && !b.is_infinite(),
    ensures
        a.at_least(b) <==> scaled(a) >= scaled(b),
        a.above(b) <==> scaled(a) > scaled(b),
{
    lemma_magnitude_value(a);
    lemma_magnitude_value(b);
    let m = a.magnitude() as int;
    let n = b.magnitude() as int;
    if m < n {
        lemma_magnitudes_rise(m, n);
    } else if n < m {
        lemma_magnitudes_rise(n, m);
    }
    if m > 0 {
        lemma_magnitudes_rise(0, m);
    }
    if n > 0 {
        lemma_magnitudes_rise(0, n);
    }
}

/// An infinity lies beyond every finite number, and nothing compares with what is not a number.
pub proof fn law_infinity_and_nan(a: Double, b: Double)
    requires
        !a.is_nan() && !a.is_infinite(),
    ensures
        b.bits == 0x7ff0_0000_0000_0000 ==> b.above(a) && !a.at_least(b),
        b.bits == 0xfff0_0000_0000_0000 ==> a.above(b) && !b.at_least(a),
        b.is_nan() ==> !a.at_least(b) && !b.at_least(a) && !b.at_least(b) && !a.above(b)
            && !b.above(a),
{
}

/// Rounding goes to a nearest integer, and to the even one where two are as near.
pub proof fn law_rounding(n: nat, d: nat)
    requires
        d > 0,
    ensures
        2 * (nearest(n, d) * d - n) <= d,
        2 * (n - nearest(n, d) * d) <= d,
        2 * (nearest(n, d) * d - n) == d || 2 * (n - nearest(n, d) * d) == d ==> nearest(n, d) % 2
            == 0,
{
    let q = n / d;
    let r = n % d;
    vstd::arithmetic::div_mod::lemma_fundamental_div_mod(n as int, d as int);
    vstd::arithmetic::div_mod::lemma_mod_bound(n as int, d as int);
    assert(q * d == d * q) by (nonlinear_arith);
    assert((q + 1) * d == q * d + d) by (nonlinear_arith);
}

/// What a size is counted in: bytes, and 1024 times as many with each step.
pub open spec fn unit_size(steps: nat) -> nat {
    power2::pow2(1074 + 10 * steps)
}

proof fn lemma_unit_sizes()
    ensures
        scaled(Double { bits: 0x4090_0000_0000_0000 }) == unit_size(1),
        scaled(Double { bits: 0x4130_0000_0000_0000 }) == unit_size(2),
        scaled(Double { bits: 0x41d0_0000_0000_0000 }) == unit_size(3),
        unit_size(1) == 1024 * unit_size(0),
        unit_size(2) == 1024 * unit_size(1),
        unit_size(3) == 1024 * unit_size(2),
{
    power2::lemma2_to64();
    power2::lemma2_to64_rest();
    assert(power2::pow2(52) == 0x10_0000_0000_0000);
    assert(power2::pow2(10) == 1024);
    power2::lemma_pow2_adds(52, 1032);
    power2::lemma_pow2_adds(52, 1042);
    power2::lemma_pow2_adds(52, 1052);
    power2::lemma_pow2_adds(10, 1074);
    power2::lemma_pow2_adds(10, 1084);
    power2::lemma_pow2_adds(10, 1094);
    let kilo = Double { bits: 0x4090_0000_0000_0000 };
    let mega = Double { bits: 0x4130_0000_0000_0000 };
    let giga = Double { bits: 0x41d0_0000_0000_0000 };
    assert(kilo.significand() == 0x10_0000_0000_0000 && kilo.exponent() == -42);
    assert(mega.significand() == 0x10_0000_0000_0000 && mega.exponent() == -32);
    assert(giga.significand() == 0x10_0000_0000_0000 && giga.exponent() == -22);
}

/// A size is counted in the largest unit that it reaches, up to the gigabyte.
pub proof fn law_unit_is_the_largest_reached(size: Double)
    requires
        !size.is_nan(),
        !size.is_infinite(),
    ensures
        0 <= unit_steps(size) <= 3,
        unit_steps(size) > 0 ==> scaled(size) >= unit_size(unit_steps(size) as nat),
        unit_steps(size) < 3 ==> scaled(size) < 1024 * unit_size(unit_steps(size) as nat),
        unit_name(0) == "B"@,
        unit_name(1) == "KB"@,
        unit_name(2) == "MB"@,
        unit_name(3) == "GB"@,
{
    lemma_unit_sizes();
    law_order_is_that_of_values(size, Double { bits: 0x4090_0000_0000_0000 });
    law_order_is_that_of_values(size, Double { bits: 0x4130_0000_0000_0000 });
    law_order_is_that_of_values(size, Double { bits: 0x41d0_0000_0000_0000 });
}

/// A count of tenths, written without a tenth that is zero.
pub open spec fn tenths_text(tenths: nat) -> Seq<char> {
    if tenths % 10 == 0 {
        decimal::decimal(tenths / 10)
    } else {
        decimal::decimal(tenths / 10) + "."@ + decimal::decimal(tenths % 10)
    }
}

/// A size in bytes is shown to the nearest byte, one in a larger unit to the nearest tenth of
/// it, each half way to the even one.
pub proof fn law_size_is_rounded(size: Double) -> (count: nat)
    requires
        !size.is_nan(),
        !size.is_infinite(),
        !size.is_negative(),
    ensures
        ({
            let steps = unit_steps(size) as nat;
            let unit = unit_size(steps);
            if steps == 0 {
                &&& size_text(size) == decimal::decimal(count) + " B"@
                &&& count == nearest(scaled(size) as nat, unit)
            } else {
                &&& size_text(size) == tenths_text(count) + " "@ + unit_name(steps as int)
                &&& count == nearest((10 * scaled(size)) as nat, unit)
            }
        }),
{
    let steps = unit_steps(size) as nat;
    let unit = unit_size(steps);
    let shown = in_unit(size, steps as int);
    law_unit_is_the_largest_reached(size);
    law_unit_divides_exactly(size);
    reveal_strlit("");
    reveal_strlit(" ");
    reveal_strlit("B");
    reveal_strlit(" B");
    assert(" "@ + "B"@ =~= " B"@);
    let significand = size.significand() as nat;
    let exponent = shown.exponent();
    let full = power2::pow2((size.exponent() + 1074) as nat);
    power2::lemma_pow2_pos((size.exponent() + 1074) as nat);
    power2::lemma_pow2_pos(1074 + 10 * steps);
    assert(scaled(size) == significand * full);
    let number = number_text(shown, steps > 0);
    assert(number =~= fixed_point(significand, exponent, steps > 0)) by {
        assert(""@ + fixed_point(significand, exponent, steps > 0) =~= fixed_point(
            significand,
            exponent,
            steps > 0,
        ));
    }
    if exponent >= 0 {
        let power = power2::pow2(exponent as nat);
        let whole = significand * power;
        power2::lemma_pow2_adds(exponent as nat, 1074 + 10 * steps);
        assert(full == power * unit);
        assert(significand * full == whole * unit) by (nonlinear_arith)
            requires
                full == power * unit,
                whole == significand * power,
        ;
        if steps == 0 {
            lemma_nearest_is_exact(whole, unit);
            assert(number + " "@ + "B"@ =~= decimal::decimal(whole) + " B"@);
            whole
        } else {
            assert(10 * scaled(size) == (10 * whole) * unit) by (nonlinear_arith)
                requires
                    scaled(size) == whole * unit,
            ;
            lemma_nearest_is_exact(10 * whole, unit);
            10 * whole
        }
    } else {
        let power = power2::pow2((-exponent) as nat);
        power2::lemma_pow2_pos((-exponent) as nat);
        power2::lemma_pow2_adds((-exponent) as nat, (size.exponent() + 1074) as nat);
        assert(power * full == unit);
        if steps == 0 {
            lemma_nearest_scales(significand, power, full);
            let count = nearest(significand, power);
            assert(number + " "@ + "B"@ =~= decimal::decimal(count) + " B"@);
            count
        } else {
            lemma_nearest_scales(significand * 10, power, full);
            assert((significand * 10) * full == 10 * (significand * full)) by (nonlinear_arith);
            nearest(significand * 10, power)
        }
    }
}

/// Rounding a quotient does not change when both of its parts are multiplied.
proof fn lemma_nearest_scales(n: nat, d: nat, factor: nat)
    requires
        d > 0,
        factor > 0,
    ensures
        nearest(n * factor, d * factor) == nearest(n, d),
{
    let q = n / d;
    let r = n % d;
    vstd::arithmetic::div_mod::lemma_fundamental_div_mod(n as int, d as int);
    vstd::arithmetic::div_mod::lemma_mod_bound(n as int, d as int);
    let m = n * factor;
    let e = d * factor;
    assert(e > 0) by (nonlinear_arith)
        requires
            d > 0,
            factor > 0,
            e == d * factor,
    ;
    assert(m == q * e + r * factor) by (nonlinear_arith)
        requires
            n == d * q + r,
            m == n * factor,
            e == d * factor,
    ;
    assert(0 <= r * factor < e) by (nonlinear_arith)
        requires
            0 <= r < d,
            factor > 0,
            e == d * factor,
    ;
    vstd::arithmetic::div_mod::lemma_fundamental_div_mod_converse(
        m as int,
        e as int,
        q as int,
        (r * factor) as int,
    );
    assert((2 * r < d) == (2 * (r * factor) < e)) by (nonlinear_arith)
        requires
            factor > 0,
            e == d * factor,
    ;
    assert((2 * r == d) == (2 * (r * factor) == e)) by (nonlinear_arith)
        requires
            factor > 0,
            e == d * factor,
    ;
}

/// What is no ordinary size is shown as what it is, in bytes or, beyond all bounds, in the
/// largest unit; a negative size is its opposite with a minus sign, in bytes.
pub proof fn law_odd_sizes(size: Double)
    ensures
        size.is_nan() ==> size_text(size) == "NaN B"@,
        size.bits == 0x7ff0_0000_0000_0000 ==> size_text(size) == "inf GB"@,
        size.bits == 0xfff0_0000_0000_0000 ==> size_text(size) == "-inf B"@,
        !size.is_nan() && !size.is_infinite() && size.is_negative() ==> size_text(size) == "-"@
            + number_text(
            Double { bits: (size.bits - 0x8000_0000_0000_0000) as u64 },
            false,
        ) + " B"@,
{
    reveal_strlit("NaN");
    reveal_strlit("inf");
    reveal_strlit("-");
    reveal_strlit("");
    reveal_strlit(" ");
    reveal_strlit("B");
    reveal_strlit("GB");
    reveal_strlit(" B");
    reveal_strlit("NaN B");
    reveal_strlit("inf GB");
    reveal_strlit("-inf B");
    if size.is_nan() {
        assert(size_text(size) =~= "NaN B"@);
    } else if size.bits == 0x7ff0_0000_0000_0000 {
        assert(size_text(size) =~= "inf GB"@);
    } else if size.bits == 0xfff0_0000_0000_0000 {
        assert(size_text(size) =~= "-inf B"@);
    } else if size.is_negative() {
        let opposite = Double { bits: (size.bits - 0x8000_0000_0000_0000) as u64 };
        assert(opposite.magnitude() == size.magnitude());
        assert(number_text(opposite, false) =~= fixed_point(
            size.significand() as nat,
            size.exponent(),
            false,
        ));
        assert(in_unit(size, 0) == size);
        assert(size_text(size) =~= "-"@ + number_text(opposite, false) + " B"@);
    }
}

/// With the largest power of two the bits are an infinity, or no number where a fraction is
/// set.
pub proof fn law_bits_beyond_numbers(negative: bool, fraction: int)
    requires
        0 <= fraction < 0x10_0000_0000_0000,
    ensures
        ({
            let d = Double {
                bits: ((if negative {
                    0x8000_0000_0000_0000int
                } else {
                    0
                }) + 0x7ff0_0000_0000_0000 + fraction) as u64,
            };
            &&& d.is_infinite() == (fraction == 0)
            &&& d.is_nan() == (fraction != 0)
            &&& d.is_negative() == negative
        }),
{
}

} // verus!
