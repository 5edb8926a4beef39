//! Floating-point values carried as their IEEE 754 bit patterns.
//!
//! The engine moves, compares and clamps numbers far more often than it does
//! arithmetic on them, and all of the former can be said exactly about the
//! pattern: two numbers that are not NaN are ordered as their signed
//! magnitudes are. Arithmetic is asked of the caller.
use vstd::arithmetic::power2::pow2;
use vstd::prelude::*;

verus! {

/// The sign bit of a double.
pub const SIGN: u64 = 0x8000_0000_0000_0000;

/// The magnitude of an infinite double. A larger one is a NaN.
pub const INFINITE: u64 = 0x7ff0_0000_0000_0000;

/// One unit of a double's exponent.
pub const EXPONENT: u64 = 0x0010_0000_0000_0000;

/// A double-precision number.
#[derive(Debug, Clone, Copy, PartialEq, Eq, Structural)]
pub struct Real {
    pub bits: u64,
}

/// A single-precision audio sample. Never compared, so nothing is said of
/// what its bits mean.
#[derive(Debug, Clone, Copy, PartialEq, Eq, Structural)]
pub struct Sample {
    pub bits: u32,
}

/// Digital silence.
pub const SILENCE: u32 = 0;

pub const ZERO: u64 = 0;

pub const HALF: u64 = 0x3fe0_0000_0000_0000;

pub const ONE: u64 = 0x3ff0_0000_0000_0000;

pub const NAN: u64 = 0x7ff8_0000_0000_0000;

impl Sample {
    pub open spec fn silent() -> Sample {
        Sample { bits: SILENCE }
    }

    pub fn silence() -> (s: Sample)
        ensures
            s == Sample::silent(),
    {
        Sample { bits: SILENCE }
    }
}

impl Real {
    /// The pattern without its sign.
    pub open spec fn magnitude(self) -> int {
        (self.bits % SIGN) as int
    }

    pub open spec fn negative(self) -> bool {
        self.bits >= SIGN
    }

    pub open spec fn nan(self) -> bool {
        self.magnitude() > INFINITE
    }

    pub open spec fn finite(self) -> bool {
        self.magnitude() < INFINITE
    }

    /// Where a number that is not NaN sits among the others. Both zeros sit
    /// at the same place.
    pub open spec fn rank(self) -> int {
        if self.negative() {
            -self.magnitude()
        } else {
            self.magnitude()
        }
    }

    /// `self >= other`; false as soon as either side is NaN.
    pub open spec fn ge(self, other: Real) -> bool {
        !self.nan() && !other.nan() && self.rank() >= other.rank()
    }

    /// `self == other` as numbers: NaN equals nothing, and the zeros are equal.
    pub open spec fn equal(self, other: Real) -> bool {
        !self.nan() && !other.nan() && self.rank() == other.rank()
    }

    /// `self < other`; false as soon as either side is NaN.
    pub open spec fn lt(self, other: Real) -> bool {
        !self.nan() && !other.nan() && self.rank() < other.rank()
    }

    /// `self` held within `lo..=hi`. NaN stays NaN.
    pub open spec fn within(self, lo: Real, hi: Real) -> Real {
        if self.lt(lo) {
            lo
        } else if hi.lt(self) {
            hi
        } else {
            self
        }
    }

    /// The larger of the two, or the one that is a number.
    pub open spec fn larger(self, other: Real) -> Real {
        if self.nan() || self.lt(other) {
            other
        } else {
            self
        }
    }

    /// The smaller of the two, or the one that is a number.
    pub open spec fn smaller(self, other: Real) -> Real {
        if self.nan() || other.lt(self) {
            other
        } else {
            self
        }
    }

    pub open spec fn zeroed() -> Real {
        Real { bits: ZERO }
    }

    pub open spec fn unit() -> Real {
        Real { bits: ONE }
    }

    pub open spec fn halved() -> Real {
        Real { bits: HALF }
    }

    pub open spec fn unset() -> Real {
        Real { bits: NAN }
    }

    /// Nothing: the value a lane or a register starts from.
    pub fn zero() -> (r: Real)
        ensures
            r == Real::zeroed(),
    {
        Real { bits: ZERO }
    }

    pub fn one() -> (r: Real)
        ensures
            r == Real::unit(),
    {
        Real { bits: ONE }
    }

    pub fn half() -> (r: Real)
        ensures
            r == Real::halved(),
    {
        Real { bits: HALF }
    }

    /// Not a number: the value of a latch nothing has set.
    pub fn not_set() -> (r: Real)
        ensures
            r == Real::unset(),
            r.nan(),
    {
        Real { bits: NAN }
    }

    pub fn is_nan(self) -> (r: bool)
        ensures
            r == self.nan(),
    {
        self.bits % SIGN > INFINITE
    }

    pub fn is_finite(self) -> (r: bool)
        ensures
            r == self.finite(),
    {
        self.bits % SIGN < INFINITE
    }

    pub fn is_less(self, other: Real) -> (r: bool)
        ensures
            r == self.lt(other),
    {
        if self.is_nan() || other.is_nan() {
            return false;
        }
        let a: u64 = self.bits % SIGN;
        let b: u64 = other.bits % SIGN;
        if self.bits >= SIGN {
            if other.bits >= SIGN {
                a > b
            } else {
                a > 0 || b > 0
            }
        } else if other.bits >= SIGN {
            false
        } else {
            a < b
        }
    }

    pub fn is_at_least(self, other: Real) -> (r: bool)
        ensures
            r == self.ge(other),
    {
        !self.is_nan() && !other.is_nan() && !self.is_less(other)
    }

    pub fn is_equal(self, other: Real) -> (r: bool)
        ensures
            r == self.equal(other),
    {
        self.is_at_least(other) && other.is_at_least(self)
    }

    pub fn clamp(self, lo: Real, hi: Real) -> (r: Real)
        ensures
            r == self.within(lo, hi),
    {
        if self.is_less(lo) {
            lo
        } else if hi.is_less(self) {
            hi
        } else {
            self
        }
    }

    pub fn max(self, other: Real) -> (r: Real)
        ensures
            r == self.larger(other),
    {
        if self.is_nan() || self.is_less(other) {
            other
        } else {
            self
        }
    }

    pub fn min(self, other: Real) -> (r: Real)
        ensures
            r == self.smaller(other),
    {
        if self.is_nan() || other.is_less(self) {
            other
        } else {
            self
        }
    }

    /// A small whole number: its leading power of two in the exponent, and
    /// what is left of it at the top of the fraction.
    pub open spec fn counted(n: nat) -> Real {
        if n == 0 {
            Real::zeroed()
        } else {
            let exponent = leading(n);
            Real {
                bits: ((1023 + exponent) * EXPONENT + (n - pow2(exponent)) * (EXPONENT as int
                    / pow2(exponent) as int)) as u64,
            }
        }
    }

    /// The number `n`.
    pub fn from_count(n: u8) -> (r: Real)
        ensures
            r == Real::counted(n as nat),
    {
        if n == 0 {
            return Real::zero();
        }
        let mut power: u64 = 1;
        let mut exponent: u64 = 0;
        proof {
            vstd::arithmetic::power2::lemma2_to64();
        }
        while 2 * power <= n as u64
            invariant
                n > 0,
                exponent <= 8,
                power == pow2(exponent as nat),
                1 <= power <= n,
                n as nat >= pow2(exponent as nat),
            decreases n - power,
        {
            proof {
                vstd::arithmetic::power2::lemma_pow2_unfold((exponent + 1) as nat);
                vstd::arithmetic::power2::lemma2_to64();
                if exponent == 8 {
                    assert(false);
                }
            }
            power = 2 * power;
            exponent = exponent + 1;
        }
        proof {
            vstd::arithmetic::power2::lemma_pow2_unfold((exponent + 1) as nat);
            lemma_leading(n as nat, exponent as nat);
        }
        let unit: u64 = EXPONENT / power;
        let rest: u64 = n as u64 - power;
        assert(rest * unit <= 255 * EXPONENT) by (nonlinear_arith)
            requires
                rest <= 255,
                unit <= EXPONENT,
        ;
        Real { bits: (1023 + exponent) * EXPONENT + rest * unit }
    }
}

/// The exponent of the largest power of two no greater than `n`.
pub open spec fn leading(n: nat) -> nat
    decreases n,
{
    if n < 2 {
        0
    } else {
        1 + leading(n / 2)
    }
}

proof fn lemma_leading(n: nat, exponent: nat)
    requires
        n >= 1,
        pow2(exponent) <= n < pow2(exponent + 1),
    ensures
        leading(n) == exponent,
    decreases n,
{
    vstd::arithmetic::power2::lemma2_to64();
    if n < 2 {
        if exponent > 0 {
            vstd::arithmetic::power2::lemma_pow2_unfold(exponent);
            vstd::arithmetic::power2::lemma_pow2_pos((exponent - 1) as nat);
        }
    } else {
        if exponent == 0 {
            vstd::arithmetic::power2::lemma_pow2_unfold(1);
        } else {
            vstd::arithmetic::power2::lemma_pow2_unfold(exponent);
            vstd::arithmetic::power2::lemma_pow2_unfold(exponent + 1);
            lemma_leading(n / 2, (exponent - 1) as nat);
        }
    }
}

proof fn lemma_leading_bounds(n: nat)
    requires
        n >= 1,
    ensures
        pow2(leading(n)) <= n < pow2(leading(n) + 1),
    decreases n,
{
    vstd::arithmetic::power2::lemma2_to64();
    if n >= 2 {
        lemma_leading_bounds(n / 2);
        vstd::arithmetic::power2::lemma_pow2_unfold(leading(n));
        vstd::arithmetic::power2::lemma_pow2_unfold(leading(n) + 1);
    }
}

/// Where the pattern of a whole number lies: among those of its power of two.
proof fn lemma_counted(n: nat)
    requires
        1 <= n < 256,
    ensures
        leading(n) < 8,
        ({
            let power = pow2(leading(n)) as int;
            let unit = EXPONENT as int / power;
            &&& 1 <= power <= n
            &&& 0 < unit
            &&& Real::counted(n).bits == (1023 + leading(n)) * EXPONENT + (n - power) * unit
            &&& (n - power) * unit < EXPONENT
        }),
{
    lemma_leading_bounds(n);
    vstd::arithmetic::power2::lemma2_to64();
    if leading(n) >= 8 {
        if leading(n) > 8 {
            vstd::arithmetic::power2::lemma_pow2_strictly_increases(8, leading(n));
        }
        assert(false);
    }
    vstd::arithmetic::power2::lemma_pow2_unfold(leading(n) + 1);
    let power = pow2(leading(n)) as int;
    let unit = EXPONENT as int / power;
    assert(1 <= power < 256);
    assert(0 < unit && power * unit <= EXPONENT) by (nonlinear_arith)
        requires
            unit == EXPONENT as int / power,
            1 <= power < 256,
    ;
    assert(0 <= (n - power) * unit < power * unit) by (nonlinear_arith)
        requires
            0 <= n - power < power,
            0 < unit,
    ;
}

/// The whole numbers lie in their own order, so no two of them are one pattern.
pub proof fn law_counts_are_in_order(n: nat, m: nat)
    requires
        n < m < 256,
    ensures
        Real::counted(n).lt(Real::counted(m)),
        Real::counted(n) != Real::counted(m),
        !Real::counted(n).nan(),
        !Real::counted(m).nan(),
{
    lemma_counted(m);
    if n > 0 {
        lemma_counted(n);
        lemma_leading_bounds(n);
        lemma_leading_bounds(m);
        let e = leading(n);
        let f = leading(m);
        if e > f {
            if f + 1 < e {
                vstd::arithmetic::power2::lemma_pow2_strictly_increases(f + 1, e);
            }
            assert(false);
        }
        if e == f {
            let power = pow2(e) as int;
            let unit = EXPONENT as int / power;
            assert((n - power) * unit < (m - power) * unit) by (nonlinear_arith)
                requires
                    n < m,
                    0 < unit,
            ;
        } else {
            let power = pow2(f) as int;
            let unit = EXPONENT as int / power;
            assert(0 <= (m - power) * unit) by (nonlinear_arith)
                requires
                    0 <= m - power,
                    0 < unit,
            ;
        }
        assert(Real::counted(n).bits < Real::counted(m).bits);
    }
}

/// A whole number is written as a power of two and a fraction of it: the pattern, read as a
/// float, is the number.
pub proof fn law_a_count_reads_as_its_number(n: nat)
    requires
        n < 256,
    ensures
        n == 0 ==> Real::counted(n).bits == 0,
        n > 0 ==> ({
            let bits = Real::counted(n).bits as int;
            let exponent = bits / 0x10_0000_0000_0000 - 1023;
            let fraction = bits % 0x10_0000_0000_0000;
            &&& 0 <= exponent < 8
            &&& n * 0x10_0000_0000_0000 == pow2(exponent as nat) * (0x10_0000_0000_0000 + fraction)
        }),
{
    if n > 0 {
        lemma_counted(n);
        lemma_leading_bounds(n);
        vstd::arithmetic::power2::lemma2_to64();
        let e = leading(n);
        if e >= 8 {
            if e > 8 {
                vstd::arithmetic::power2::lemma_pow2_strictly_increases(8, e);
            }
            assert(false);
        }
        let power = pow2(e) as int;
        let unit = EXPONENT as int / power;
        assert(power == 1 || power == 2 || power == 4 || power == 8 || power == 16 || power == 32
            || power == 64 || power == 128);
        assert(power * unit == 0x10_0000_0000_0000) by (nonlinear_arith)
            requires
                unit == 0x10_0000_0000_0000int / power,
                power == 1 || power == 2 || power == 4 || power == 8 || power == 16 || power == 32
                    || power == 64 || power == 128,
        ;
        let rest = (n - power) * unit;
        assert(0 <= rest < EXPONENT) by (nonlinear_arith)
            requires
                rest == (n - power) * unit,
                0 <= n - power < power,
                0 < unit,
                power * unit == EXPONENT,
        ;
        assert(n * (power * unit) == power * (power * unit + (n - power) * unit)) by (nonlinear_arith);
        let bits = (1023 + e) * EXPONENT + rest;
        assert(bits / EXPONENT as int == 1023 + e && bits % EXPONENT as int == rest)
            by (nonlinear_arith)
            requires
                bits == (1023 + e) * EXPONENT + rest,
                0 <= rest < EXPONENT,
        ;
        assert(Real::counted(n).bits == bits);
    }
}

/// Clamping to a normalized lane brings any number into it, and leaves one that
/// is already there.
pub proof fn law_clamped_is_normalized(value: Real)
    requires
        !value.nan(),
    ensures
        value.within(Real::zeroed(), Real::unit()).ge(Real::zeroed()),
        Real::unit().ge(value.within(Real::zeroed(), Real::unit())),
        value.within(Real::zeroed(), Real::unit()).finite(),
        value.ge(Real::zeroed()) && Real::unit().ge(value) ==> value.within(
            Real::zeroed(),
            Real::unit(),
        ) == value,
{
}

/// Patterns are ordered as the floats they stand for: two positive ones as the patterns are,
/// two negative ones the other way round, and a negative one before a positive one unless
/// both are zero. What is not a number comes before and after nothing.
pub proof fn law_patterns_are_ordered_as_numbers(a: Real, b: Real)
    ensures
        ({
            let sign = 0x8000_0000_0000_0000int;
            let most = 0x7ff0_0000_0000_0000int;
            &&& a.bits <= most && b.bits <= most ==> a.lt(b) == (a.bits < b.bits) && a.ge(b) == (
            a.bits >= b.bits) && a.equal(b) == (a.bits == b.bits)
            &&& sign <= a.bits <= sign + most && sign <= b.bits <= sign + most ==> a.lt(b) == (
            a.bits > b.bits) && a.ge(b) == (a.bits <= b.bits) && a.equal(b) == (a.bits == b.bits)
            &&& sign <= a.bits <= sign + most && b.bits <= most ==> a.lt(b) == !(a.bits == sign
                && b.bits == 0) && a.equal(b) == (a.bits == sign && b.bits == 0) && !b.lt(a)
                && b.ge(a)
            &&& most < a.bits < sign || a.bits > sign + most ==> !a.lt(b) && !b.lt(a) && !a.ge(b)
                && !b.ge(a) && !a.equal(b)
        }),
{
}

/// The larger of two numbers is one of them and no smaller than either, the smaller no
/// larger; next to something that is not a number the other one is meant. A number held
/// within two bounds is the nearest to it between them.
pub proof fn law_larger_smaller_and_within(a: Real, b: Real, x: Real)
    ensures
        a.larger(b) == a || a.larger(b) == b,
        a.smaller(b) == a || a.smaller(b) == b,
        !a.nan() && !b.nan() ==> a.larger(b).ge(a) && a.larger(b).ge(b) && a.ge(a.smaller(b))
            && b.ge(a.smaller(b)),
        a.nan() ==> a.larger(b) == b && a.smaller(b) == b,
        b.nan() && !a.nan() ==> a.larger(b) == a && a.smaller(b) == a,
        x.nan() ==> x.within(a, b) == x,
        b.ge(a) && x.ge(a) && b.ge(x) ==> x.within(a, b) == x,
        b.ge(a) && x.lt(a) ==> x.within(a, b) == a,
        b.ge(a) && b.lt(x) ==> x.within(a, b) == b,
{
}

} // verus!
