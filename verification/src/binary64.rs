//! Measured values: IEEE 754 binary64 numbers, held by their bits.
//!
//! Alignment moves values around, asks whether one is finite and asks whether
//! one is less than another. All three are decided here on the bits, against
//! the number that the bits stand for.

use vstd::arithmetic::power2::{
    lemma2_to64, lemma_pow2_adds, lemma_pow2_pos, lemma_pow2_strictly_increases, pow2,
};
use vstd::prelude::*;
use vstd::std_specs::cmp::PartialEqSpec;

verus! {

/// The weight of the sign bit.
pub const SIGN: u64 = 0x8000_0000_0000_0000;

/// The magnitude of an infinity. Every finite magnitude is below it and every
/// NaN is above it.
pub const INFINITE: u64 = 0x7ff0_0000_0000_0000;

/// The weight of the implicit leading bit of a normal number's significand.
pub const LEADING: u64 = 0x0010_0000_0000_0000;

/// A binary64 number.
#[derive(Debug, Clone, Copy)]
pub struct Binary64 {
    /// The sign bit first, then the exponent, then the fraction.
    pub bits: u64,
}

/// Numeric equality: the two zeros are equal and a NaN equals nothing.
impl PartialEq for Binary64 {
    fn eq(&self, other: &Self) -> (equal: bool) {
        self.le(other) && other.le(self)
    }
}

impl vstd::std_specs::cmp::PartialEqSpecImpl for Binary64 {
    open spec fn obeys_eq_spec() -> bool {
        true
    }

    open spec fn eq_spec(&self, other: &Self) -> bool {
        self.at_most(*other) && other.at_most(*self)
    }
}

impl Binary64 {
    /// The bits.
    pub open spec fn view(self) -> u64 {
        self.bits
    }

    /// Whether the sign bit is set.
    pub open spec fn is_negative(self) -> bool {
        self@ >= SIGN
    }

    /// The bits without the sign.
    pub open spec fn magnitude(self) -> int {
        if self.is_negative() {
            self@ - SIGN
        } else {
            self@ as int
        }
    }

    /// Neither an infinity nor a NaN.
    pub open spec fn finite(self) -> bool {
        self.magnitude() < INFINITE
    }

    /// Not a number.
    pub open spec fn nan(self) -> bool {
        self.magnitude() > INFINITE
    }

    /// The number that finite bits stand for, in units of the smallest
    /// positive binary64 number. Every finite number is a whole count of it.
    pub open spec fn exact(self) -> int {
        if self.is_negative() {
            -exact_magnitude(self.magnitude())
        } else {
            exact_magnitude(self.magnitude())
        }
    }

    /// Numeric order: a NaN is neither less nor greater than anything, an
    /// infinity is beyond every finite number, and finite numbers compare by
    /// what they stand for, so the two zeros are equal.
    pub open spec fn less_than(self, other: Self) -> bool {
        if self.nan() || other.nan() {
            false
        } else if self.finite() && other.finite() {
            self.exact() < other.exact()
        } else if self.finite() {
            !other.is_negative()
        } else if other.finite() {
            self.is_negative()
        } else {
            self.is_negative() && !other.is_negative()
        }
    }

    /// Numeric order with equality: a NaN is at most nothing.
    pub open spec fn at_most(self, other: Self) -> bool {
        !self.nan() && !other.nan() && !other.less_than(self)
    }

    /// The number with these bits.
    pub fn from_bits(bits: u64) -> (value: Self)
        ensures
            value@ == bits,
    {
        Binary64 { bits }
    }

    /// The bits of this number.
    pub fn to_bits(&self) -> (bits: u64)
        ensures
            bits == self@,
    {
        self.bits
    }

    /// Whether this is neither an infinity nor a NaN.
    pub fn is_finite(&self) -> (finite: bool)
        ensures
            finite == self.finite(),
    {
        self.unsigned() < INFINITE
    }

    /// Whether this number is less than `other`.
    pub fn lt(&self, other: &Self) -> (less: bool)
        ensures
            less == self.less_than(*other),
    {
        let a: u64 = self.unsigned();
        let b: u64 = other.unsigned();
        proof {
            lemma_exact_magnitude_order(a as int, b as int);
            lemma_exact_magnitude_order(b as int, a as int);
            lemma_exact_magnitude_order(0, a as int);
            lemma_exact_magnitude_order(0, b as int);
            assert(exact_magnitude(0) == 0);
        }
        if a > INFINITE || b > INFINITE {
            false
        } else if self.bits < SIGN {
            other.bits < SIGN && a < b
        } else if other.bits < SIGN {
            a > 0 || b > 0
        } else {
            b < a
        }
    }

    /// Whether this number is less than `other` or equal to it.
    pub fn le(&self, other: &Self) -> (at_most: bool)
        ensures
            at_most == self.at_most(*other),
    {
        self.unsigned() <= INFINITE && other.unsigned() <= INFINITE && !other.lt(self)
    }

    /// The bits without the sign.
    fn unsigned(&self) -> (magnitude: u64)
        ensures
            magnitude == self.magnitude(),
    {
        if self.bits >= SIGN {
            self.bits - SIGN
        } else {
            self.bits
        }
    }
}

/// What a finite magnitude stands for, in units of the smallest positive
/// number: a subnormal counts its fraction, and a normal number scales its
/// significand by its exponent.
pub open spec fn exact_magnitude(magnitude: int) -> int {
    let exponent = magnitude / LEADING as int;
    let fraction = magnitude % LEADING as int;
    if exponent == 0 {
        fraction
    } else {
        (LEADING + fraction) * pow2((exponent - 1) as nat)
    }
}

/// A greater magnitude stands for a greater number.
pub proof fn lemma_exact_magnitude_order(a: int, b: int)
    requires
        0 <= a,
        0 <= b,
    ensures
        a < b ==> exact_magnitude(a) < exact_magnitude(b),
        0 <= exact_magnitude(a),
{
    let unit = LEADING as int;
    let (ea, fa) = (a / unit, a % unit);
    let (eb, fb) = (b / unit, b % unit);
    if ea > 0 {
        let pa = pow2((ea - 1) as nat) as int;
        lemma_pow2_pos((ea - 1) as nat);
        assert(0 <= (unit + fa) * pa) by (nonlinear_arith)
            requires
                0 <= fa,
                0 < pa,
                0 < unit,
        ;
    }
    if a < b {
        assert(ea <= eb);
        if ea == eb {
            if ea > 0 {
                let pa = pow2((ea - 1) as nat) as int;
                assert((unit + fa) * pa < (unit + fb) * pa) by (nonlinear_arith)
                    requires
                        fa < fb,
                        0 < pa,
                ;
            }
        } else {
            let pb = pow2((eb - 1) as nat) as int;
            lemma_pow2_pos((eb - 1) as nat);
            assert(unit * pb <= (unit + fb) * pb) by (nonlinear_arith)
                requires
                    0 <= fb,
                    0 < pb,
            ;
            if ea == 0 {
                assert(unit <= unit * pb) by (nonlinear_arith)
                    requires
                        1 <= pb,
                        0 < unit,
                ;
            } else {
                let pa = pow2((ea - 1) as nat) as int;
                lemma_pow2_adds(1, (ea - 1) as nat);
                assert(pow2(1) == 2) by {
                    lemma2_to64();
                }
                if ea < eb - 1 {
                    lemma_pow2_strictly_increases(ea as nat, (eb - 1) as nat);
                }
                assert(2 * pa <= pb);
                assert((unit + fa) * pa < (unit + unit) * pa) by (nonlinear_arith)
                    requires
                        fa < unit,
                        0 < pa,
                ;
                assert((unit + unit) * pa <= unit * pb) by (nonlinear_arith)
                    requires
                        2 * pa <= pb,
                        0 < unit,
                ;
            }
        }
    }
}

/// A number is finite unless all its exponent bits are set, and not a number
/// where they are and some fraction bit is too.
pub proof fn law_exponent_tells_finite(x: Binary64)
    ensures
        x.finite() <==> (x.bits as int / 0x0010_0000_0000_0000) % 2048 != 2047,
        x.nan() <==> (x.bits as int / 0x0010_0000_0000_0000) % 2048 == 2047 && x.bits as int
            % 0x0010_0000_0000_0000 != 0,
{
}

/// From nothing, each magnitude stands for one step more than the one before
/// it, and a step doubles with each exponent.
pub proof fn law_magnitudes_step_up(magnitude: int)
    requires
        0 <= magnitude,
    ensures
        exact_magnitude(0) == 0,
        magnitude < 0x0020_0000_0000_0000 ==> exact_magnitude(magnitude + 1) == exact_magnitude(
            magnitude,
        ) + 1,
        magnitude >= 0x0010_0000_0000_0000 ==> exact_magnitude(magnitude + 1) == exact_magnitude(
            magnitude,
        ) + pow2((magnitude / 0x0010_0000_0000_0000 - 1) as nat),
{
    let unit = LEADING as int;
    let (e, f) = (magnitude / unit, magnitude % unit);
    lemma2_to64();
    if e > 0 {
        let p = pow2((e - 1) as nat) as int;
        lemma_pow2_adds(1, (e - 1) as nat);
        if f == unit - 1 {
            assert((magnitude + 1) / unit == e + 1 && (magnitude + 1) % unit == 0);
            assert(unit * (2 * p) == (unit + f) * p + p) by (nonlinear_arith)
                requires
                    f == unit - 1,
            ;
        } else {
            assert((magnitude + 1) / unit == e && (magnitude + 1) % unit == f + 1);
            assert((unit + (f + 1)) * p == (unit + f) * p + p) by (nonlinear_arith);
        }
    } else if f == unit - 1 {
        assert((magnitude + 1) / unit == 1 && (magnitude + 1) % unit == 0);
    } else {
        assert((magnitude + 1) / unit == 0 && (magnitude + 1) % unit == f + 1);
    }
}

/// The sign bit negates, and without it a number stands for its magnitude.
pub proof fn law_sign_negates(x: Binary64)
    requires
        x.bits < 0x8000_0000_0000_0000,
    ensures
        x.exact() == exact_magnitude(x.bits as int),
        (Binary64 { bits: (x.bits + 0x8000_0000_0000_0000) as u64 }).exact() == -x.exact(),
{
}

/// Finite numbers compare as what they stand for, a NaN compares with
/// nothing, and every finite number lies between the infinities.
pub proof fn law_numbers_compare(a: Binary64, b: Binary64)
    ensures
        a.finite() && b.finite() ==> (a.less_than(b) <==> a.exact() < b.exact()) && (a.at_most(b)
            <==> a.exact() <= b.exact()),
        a.nan() || b.nan() ==> !a.less_than(b) && !a.at_most(b),
        !a.nan() && !b.nan() ==> a.at_most(b) == !b.less_than(a),
        a.finite() && b.bits == 0x7ff0_0000_0000_0000 ==> a.less_than(b) && !b.less_than(a),
        a.finite() && b.bits == 0xfff0_0000_0000_0000 ==> b.less_than(a) && !a.less_than(b),
        a.bits == 0xfff0_0000_0000_0000 && b.bits == 0x7ff0_0000_0000_0000 ==> a.less_than(b)
            && !b.less_than(a),
        !a.less_than(a),
{
}

/// Finite numbers are equal where they stand for the same number, so the two
/// zeros are, and a NaN equals nothing.
pub proof fn law_equal_numbers(a: Binary64, b: Binary64)
    ensures
        a.finite() && b.finite() ==> (a.eq_spec(&b) <==> a.exact() == b.exact()),
        a.nan() || b.nan() ==> !a.eq_spec(&b),
{
}

} // verus!
