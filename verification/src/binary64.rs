//! binary64 numbers, held as their bit patterns, with correctly rounded arithmetic.
use crate::magnitude::{
    difference_magnitudes, lemma_exact_scaled, power_of_two, product_magnitudes,
    quotient_magnitudes, round_scaled, split, sum_magnitudes,
};
use crate::rounding::{lemma_units_order, nearest, units, BINADE, INF};
use vstd::arithmetic::power2::*;
use vstd::prelude::*;

verus! {

/// The sign bit.
pub const SIGN: u64 = 0x8000_0000_0000_0000;

/// The pattern of the NaN that an undefined operation gives.
pub const NAN: u64 = 0x7FF8_0000_0000_0000;

/// A binary64 number. `==` compares patterns: it tells the two zeros apart and finds
/// a NaN equal to itself. `same` and `less` compare numbers.
#[derive(Clone, Copy, Debug, PartialEq, Eq, Structural)]
pub struct Real {
    pub bits: u64,
}

/// The number with a sign and the pattern of its magnitude.
pub open spec fn signed(negative: bool, k: nat) -> Real {
    Real { bits: (if negative { k + SIGN } else { k as int }) as u64 }
}

/// The number nearest to `p / q` units of `2^-1074`, with a sign.
pub open spec fn rounded(negative: bool, p: nat, q: nat) -> Real {
    signed(negative, nearest(p, q))
}

impl Real {
    pub open spec fn negative(self) -> bool {
        self.bits >= SIGN
    }

    /// The pattern without the sign.
    pub open spec fn magnitude(self) -> nat {
        (self.bits % SIGN) as nat
    }

    pub open spec fn is_nan(self) -> bool {
        self.magnitude() > INF
    }

    pub open spec fn is_infinite(self) -> bool {
        self.magnitude() == INF
    }

    pub open spec fn is_finite(self) -> bool {
        self.magnitude() < INF
    }

    /// The number in units of `2^-1074`; infinity counts as `2^1024`.
    pub open spec fn value(self) -> int {
        if self.negative() {
            -(units(self.magnitude()) as int)
        } else {
            units(self.magnitude()) as int
        }
    }

    pub open spec fn spec_negated(self) -> Real {
        signed(!self.negative(), self.magnitude())
    }

    pub open spec fn spec_plus(self, other: Real) -> Real {
        if self.is_nan() || other.is_nan() {
            Real { bits: NAN }
        } else if self.is_infinite() {
            if other.is_infinite() && self.negative() != other.negative() {
                Real { bits: NAN }
            } else {
                self
            }
        } else if other.is_infinite() {
            other
        } else {
            let sum = self.value() + other.value();
            if sum == 0 {
                signed(self.negative() && other.negative(), 0)
            } else if sum < 0 {
                rounded(true, (-sum) as nat, 1)
            } else {
                rounded(false, sum as nat, 1)
            }
        }
    }

    pub open spec fn spec_minus(self, other: Real) -> Real {
        self.spec_plus(other.spec_negated())
    }

    pub open spec fn spec_times(self, other: Real) -> Real {
        let negative = self.negative() != other.negative();
        if self.is_nan() || other.is_nan() {
            Real { bits: NAN }
        } else if self.is_infinite() || other.is_infinite() {
            if self.magnitude() == 0 || other.magnitude() == 0 {
                Real { bits: NAN }
            } else {
                signed(negative, INF as nat)
            }
        } else {
            rounded(negative, units(self.magnitude()) * units(other.magnitude()), pow2(1074))
        }
    }

    pub open spec fn spec_over(self, other: Real) -> Real {
        let negative = self.negative() != other.negative();
        if self.is_nan() || other.is_nan() {
            Real { bits: NAN }
        } else if self.is_infinite() {
            if other.is_infinite() {
                Real { bits: NAN }
            } else {
                signed(negative, INF as nat)
            }
        } else if other.is_infinite() {
            signed(negative, 0)
        } else if other.magnitude() == 0 {
            if self.magnitude() == 0 {
                Real { bits: NAN }
            } else {
                signed(negative, INF as nat)
            }
        } else {
            rounded(negative, units(self.magnitude()) * pow2(1074), units(other.magnitude()))
        }
    }

    pub open spec fn spec_less(self, other: Real) -> bool {
        !self.is_nan() && !other.is_nan() && self.value() < other.value()
    }

    pub open spec fn spec_same(self, other: Real) -> bool {
        !self.is_nan() && !other.is_nan() && self.value() == other.value()
    }

    pub open spec fn spec_at_most(self, other: Real) -> bool {
        !self.is_nan() && !other.is_nan() && self.value() <= other.value()
    }

    pub open spec fn spec_larger(self, other: Real) -> Real {
        if self.is_nan() || self.spec_less(other) {
            other
        } else {
            self
        }
    }

    pub open spec fn spec_smaller(self, other: Real) -> Real {
        if self.is_nan() || other.spec_less(self) {
            other
        } else {
            self
        }
    }

    pub open spec fn spec_clamped(self, low: Real, high: Real) -> Real {
        if self.spec_less(low) {
            low
        } else if high.spec_less(self) {
            high
        } else {
            self
        }
    }

    pub open spec fn spec_absolute(self) -> Real {
        signed(false, self.magnitude())
    }

    /// Minus this number.
    #[verifier::when_used_as_spec(spec_negated)]
    pub fn negated(self) -> (r: Real)
        ensures
            r == self.spec_negated(),
    {
        if self.bits >= SIGN {
            Real { bits: self.bits - SIGN }
        } else {
            Real { bits: self.bits + SIGN }
        }
    }

    /// This number without its sign.
    #[verifier::when_used_as_spec(spec_absolute)]
    pub fn absolute(self) -> (r: Real)
        ensures
            r == self.spec_absolute(),
    {
        Real { bits: self.bits % SIGN }
    }

    /// Whether this number is less than another; nothing is less than a NaN, nor a
    /// NaN less than anything.
    #[verifier::when_used_as_spec(spec_less)]
    pub fn less(self, other: Real) -> (r: bool)
        ensures
            r == self.spec_less(other),
    {
        let j: u64 = self.bits % SIGN;
        let k: u64 = other.bits % SIGN;
        proof {
            lemma_units_order(j as nat, k as nat);
            lemma_units_order(0, j as nat);
            lemma_units_order(0, k as nat);
        }
        if j > INF || k > INF {
            false
        } else if self.bits >= SIGN {
            if other.bits >= SIGN {
                j > k
            } else {
                j > 0 || k > 0
            }
        } else {
            other.bits < SIGN && j < k
        }
    }

    /// Whether two numbers are equal; a NaN equals nothing.
    #[verifier::when_used_as_spec(spec_same)]
    pub fn same(self, other: Real) -> (r: bool)
        ensures
            r == self.spec_same(other),
    {
        let j: u64 = self.bits % SIGN;
        let k: u64 = other.bits % SIGN;
        proof {
            lemma_units_order(j as nat, k as nat);
            lemma_units_order(0, j as nat);
            lemma_units_order(0, k as nat);
        }
        j <= INF && k <= INF && j == k && (j == 0 || (self.bits >= SIGN) == (other.bits >= SIGN))
    }

    /// Whether this number is less than or equal to another.
    #[verifier::when_used_as_spec(spec_at_most)]
    pub fn at_most(self, other: Real) -> (r: bool)
        ensures
            r == self.spec_at_most(other),
    {
        self.less(other) || self.same(other)
    }

    /// The larger of two numbers; of a number and a NaN, the number.
    #[verifier::when_used_as_spec(spec_larger)]
    pub fn larger(self, other: Real) -> (r: Real)
        ensures
            r == self.spec_larger(other),
    {
        if self.bits % SIGN > INF || self.less(other) {
            other
        } else {
            self
        }
    }

    /// The smaller of two numbers; of a number and a NaN, the number.
    #[verifier::when_used_as_spec(spec_smaller)]
    pub fn smaller(self, other: Real) -> (r: Real)
        ensures
            r == self.spec_smaller(other),
    {
        if self.bits % SIGN > INF || other.less(self) {
            other
        } else {
            self
        }
    }

    /// The number of the range from `low` to `high` that is nearest; a NaN stays one.
    #[verifier::when_used_as_spec(spec_clamped)]
    pub fn clamped(self, low: Real, high: Real) -> (r: Real)
        ensures
            r == self.spec_clamped(low, high),
    {
        if self.less(low) {
            low
        } else if high.less(self) {
            high
        } else {
            self
        }
    }

    /// The sum, rounded to the nearest number.
    #[verifier::when_used_as_spec(spec_plus)]
    pub fn plus(self, other: Real) -> (r: Real)
        ensures
            r == self.spec_plus(other),
    {
        let j: u64 = self.bits % SIGN;
        let k: u64 = other.bits % SIGN;
        let s: bool = self.bits >= SIGN;
        let t: bool = other.bits >= SIGN;
        if j > INF || k > INF {
            return Real { bits: NAN };
        }
        if j == INF {
            return if k == INF && s != t { Real { bits: NAN } } else { self };
        }
        if k == INF {
            return other;
        }
        proof {
            lemma_units_order(j as nat, k as nat);
            lemma_units_order(0, j as nat);
            lemma_units_order(0, k as nat);
        }
        if s == t {
            if j == 0 && k == 0 {
                return self;
            }
            let sum: u64 = if j >= k { sum_magnitudes(j, k) } else { sum_magnitudes(k, j) };
            with_sign(s, sum)
        } else if j == k {
            Real { bits: 0 }
        } else if j > k {
            with_sign(s, difference_magnitudes(j, k))
        } else {
            with_sign(t, difference_magnitudes(k, j))
        }
    }

    /// The difference, rounded to the nearest number.
    #[verifier::when_used_as_spec(spec_minus)]
    pub fn minus(self, other: Real) -> (r: Real)
        ensures
            r == self.spec_minus(other),
    {
        self.plus(other.negated())
    }

    /// The product, rounded to the nearest number.
    #[verifier::when_used_as_spec(spec_times)]
    pub fn times(self, other: Real) -> (r: Real)
        ensures
            r == self.spec_times(other),
    {
        let j: u64 = self.bits % SIGN;
        let k: u64 = other.bits % SIGN;
        let negative: bool = (self.bits >= SIGN) != (other.bits >= SIGN);
        if j > INF || k > INF {
            Real { bits: NAN }
        } else if j == INF || k == INF {
            if j == 0 || k == 0 {
                Real { bits: NAN }
            } else {
                with_sign(negative, INF)
            }
        } else {
            with_sign(negative, product_magnitudes(j, k))
        }
    }

    /// The quotient, rounded to the nearest number.
    #[verifier::when_used_as_spec(spec_over)]
    pub fn over(self, other: Real) -> (r: Real)
        ensures
            r == self.spec_over(other),
    {
        let j: u64 = self.bits % SIGN;
        let k: u64 = other.bits % SIGN;
        let negative: bool = (self.bits >= SIGN) != (other.bits >= SIGN);
        if j > INF || k > INF {
            Real { bits: NAN }
        } else if j == INF {
            if k == INF {
                Real { bits: NAN }
            } else {
                with_sign(negative, INF)
            }
        } else if k == INF {
            with_sign(negative, 0)
        } else if k == 0 {
            if j == 0 {
                Real { bits: NAN }
            } else {
                with_sign(negative, INF)
            }
        } else if j == 0 {
            proof {
                lemma_zero_quotient(k as nat);
            }
            with_sign(negative, 0)
        } else {
            with_sign(negative, quotient_magnitudes(j, k))
        }
    }
}

proof fn lemma_zero_quotient(k: nat)
    requires
        k > 0,
    ensures
        nearest(units(0) * pow2(1074), units(k)) == 0,
{
    lemma_units_order(0, k);
    assert(units(0) * pow2(1074) == 0) by (nonlinear_arith)
        requires units(0) == 0;
    assert((units(0) + units(1)) * units(k) > 0) by (nonlinear_arith)
        requires units(0) == 0, units(1) == 1, units(k) > 0;
    crate::rounding::lemma_nearest(0, units(k), 0);
}

/// A sign put before a magnitude.
fn with_sign(negative: bool, k: u64) -> (r: Real)
    requires
        k <= INF,
    ensures
        r == signed(negative, k as nat),
{
    if negative {
        Real { bits: k + SIGN }
    } else {
        Real { bits: k }
    }
}

/// The number nearest to an integer.
pub open spec fn spec_real(n: nat) -> Real {
    rounded(false, n * pow2(1074), 1)
}

/// The number nearest to an integer.
pub fn real_of(n: u64) -> (r: Real)
    ensures
        r == spec_real(n as nat),
{
    real_of_wide(n as u128)
}

/// The number nearest to a wide integer.
pub fn real_of_wide(n: u128) -> (r: Real)
    ensures
        r == spec_real(n as nat),
{
    proof {
        lemma_exact_scaled(n as nat, 1074, n as nat * pow2(1074));
    }
    with_sign(false, round_scaled(n, 1074, false, Ghost(n as nat * pow2(1074)), Ghost(1)))
}

/// The number nearest to the quotient of two integers that are numbers themselves.
pub open spec fn spec_ratio(a: nat, b: nat) -> Real {
    spec_real(a).spec_over(spec_real(b))
}

/// The number nearest to the quotient of two integers that are numbers themselves.
pub fn ratio(a: u64, b: u64) -> (r: Real)
    ensures
        r == spec_ratio(a as nat, b as nat),
{
    real_of(a).over(real_of(b))
}

/// Dropping a power of two that a dividend and a divisor share.
proof fn lemma_cancel_power(x: nat, s: nat, e: nat)
    ensures
        (x * pow2(s)) / pow2(e + s) == x / pow2(e),
{
    lemma_pow2_adds(e, s);
    lemma_pow2_pos(e);
    lemma_pow2_pos(s);
    assert(x * pow2(s) == pow2(s) * x) by (nonlinear_arith);
    assert(pow2(e) * pow2(s) == pow2(s) * pow2(e)) by (nonlinear_arith);
    vstd::arithmetic::div_mod::lemma_div_multiples_vanish_quotient(
        pow2(s) as int,
        x as int,
        pow2(e) as int,
    );
}

/// The integer part of a magnitude of units.
pub open spec fn integer_part(u: nat) -> nat {
    u / pow2(1074)
}

/// The integer nearest to a magnitude of units, halves going up.
pub open spec fn nearest_integer(u: nat) -> nat {
    (2 * u + pow2(1074)) / pow2(1075)
}

impl Real {
    /// The integer part as an unsigned integer: negative numbers and NaN give zero, and
    /// what is too large gives the largest integer.
    pub open spec fn spec_to_u64(self) -> u64 {
        let n = integer_part(units(self.magnitude()));
        if self.is_nan() || self.negative() {
            0
        } else if self.is_infinite() || n > u64::MAX {
            u64::MAX
        } else {
            n as u64
        }
    }

    /// The nearest integer, halves going away from zero. NaN gives zero, and what is out of
    /// range gives the nearest end of it.
    pub open spec fn spec_to_nearest_i64(self) -> i64 {
        let n = nearest_integer(units(self.magnitude()));
        if self.is_nan() {
            0
        } else if self.negative() {
            if self.is_infinite() || -(n as int) < i64::MIN {
                i64::MIN
            } else {
                (-(n as int)) as i64
            }
        } else if self.is_infinite() || n > i64::MAX {
            i64::MAX
        } else {
            n as i64
        }
    }

    /// The integer part as an unsigned integer: negative numbers and NaN give zero, and
    /// what is too large gives the largest integer.
    #[verifier::when_used_as_spec(spec_to_u64)]
    pub fn to_u64(self) -> (n: u64)
        ensures
            n == self.spec_to_u64(),
    {
        let k: u64 = self.bits % SIGN;
        if k > INF || self.bits >= SIGN {
            return 0;
        }
        if k == INF {
            return u64::MAX;
        }
        let (m, s) = split(k);
        if s >= 1074 {
            proof {
                lemma_whole(m as nat, s as nat);
                lemma_large(m as nat, (s - 1074) as nat);
            }
            if s >= 1074 + 12 {
                return u64::MAX;
            }
            let w = power_of_two(s - 1074);
            ((m as u128) * w) as u64
        } else {
            proof {
                lemma_cancel_power(m as nat, s as nat, (1074 - s) as nat);
                lemma_small(m as nat, (1074 - s) as nat);
            }
            if s < 1074 - 60 {
                return 0;
            }
            let w = power_of_two(1074 - s);
            ((m as u128) / w) as u64
        }
    }

    /// The nearest integer, halves going away from zero. NaN gives zero, and what is out of
    /// range gives the nearest end of it.
    #[verifier::when_used_as_spec(spec_to_nearest_i64)]
    pub fn to_nearest_i64(self) -> (n: i64)
        ensures
            n == self.spec_to_nearest_i64(),
    {
        let k: u64 = self.bits % SIGN;
        if k > INF {
            return 0;
        }
        let negative: bool = self.bits >= SIGN;
        if k == INF {
            return if negative { i64::MIN } else { i64::MAX };
        }
        let (m, s) = split(k);
        let n: u128 = if s >= 1074 {
            proof {
                lemma_whole(m as nat, s as nat);
                lemma_large(m as nat, (s - 1074) as nat);
            }
            if s >= 1074 + 12 {
                return if negative { i64::MIN } else { i64::MAX };
            }
            let w = power_of_two(s - 1074);
            (m as u128) * w
        } else {
            let ghost e = (1074 - s) as nat;
            proof {
                lemma_small(m as nat, e);
                lemma_pow2_unfold(e + 1);
                lemma_pow2_adds(e, s as nat);
                lemma_cancel_power(2 * m as nat + pow2(e), s as nat, e + 1);
                assert((2 * m as nat + pow2(e)) * pow2(s as nat) == 2 * (m as nat * pow2(s as nat))
                    + pow2(e) * pow2(s as nat)) by (nonlinear_arith);
            }
            if s < 1074 - 60 {
                proof {
                    assert((2 * m as nat + pow2(e)) / (2 * pow2(e)) == 0) by (nonlinear_arith)
                        requires 2 * m < pow2(e);
                }
                0
            } else {
                let w = power_of_two(1074 - s);
                (2 * (m as u128) + w) / (2 * w)
            }
        };
        if negative {
            if n > 0x8000_0000_0000_0000 {
                i64::MIN
            } else if n == 0x8000_0000_0000_0000 {
                i64::MIN
            } else {
                -(n as i64)
            }
        } else if n > 0x7FFF_FFFF_FFFF_FFFF {
            i64::MAX
        } else {
            n as i64
        }
    }
}

/// A magnitude at a scale of at least one is an integer.
proof fn lemma_whole(m: nat, s: nat)
    requires
        s >= 1074,
    ensures
        integer_part(m * pow2(s)) == m * pow2((s - 1074) as nat),
        nearest_integer(m * pow2(s)) == m * pow2((s - 1074) as nat),
{
    let n = m * pow2((s - 1074) as nat);
    let w = pow2(1074);
    lemma_pow2_pos(1074);
    lemma_pow2_adds((s - 1074) as nat, 1074);
    lemma_pow2_unfold(1075);
    assert(m * (pow2((s - 1074) as nat) * w) == n * w) by (nonlinear_arith)
        requires n == m * pow2((s - 1074) as nat);
    assert((n * w) / w == n) by {
        vstd::arithmetic::div_mod::lemma_div_by_multiple(n as int, w as int);
    }
    assert((2 * (n * w) + w) / (2 * w) == n) by {
        assert(2 * (n * w) + w == n * (2 * w) + w) by (nonlinear_arith);
        vstd::arithmetic::div_mod::lemma_fundamental_div_mod_converse(
            (2 * (n * w) + w) as int, 2 * w as int, n as int, w as int);
    }
}

/// Bounds of a significand brought to an integer scale.
proof fn lemma_large(m: nat, e: nat)
    requires
        m < 2 * BINADE,
        m >= BINADE,
    ensures
        e >= 12 ==> m * pow2(e) > u64::MAX,
        e < 12 ==> m * pow2(e) <= u64::MAX,
{
    lemma2_to64();
    if e >= 12 {
        if e > 12 {
            lemma_pow2_strictly_increases(12, e);
        }
        assert(m * pow2(e) >= 0x10_0000_0000_0000 * 4096) by (nonlinear_arith)
            requires m >= 0x10_0000_0000_0000, pow2(e) >= 4096;
    } else {
        if e < 11 {
            lemma_pow2_strictly_increases(e, 11);
        }
        assert(m * pow2(e) <= (0x20_0000_0000_0000 - 1) * 2048) by (nonlinear_arith)
            requires m < 0x20_0000_0000_0000, pow2(e) <= 2048;
    }
}

/// A significand is small beside a large power of two.
proof fn lemma_small(m: nat, e: nat)
    requires
        m < 2 * BINADE,
    ensures
        e > 60 ==> m / pow2(e) == 0 && 2 * m < pow2(e),
        m / pow2(e) <= m,
{
    lemma_pow2_pos(e);
    if e > 60 {
        lemma2_to64();
        lemma2_to64_rest();
        lemma_pow2_strictly_increases(60, e);
        vstd::arithmetic::div_mod::lemma_basic_div(m as int, pow2(e) as int);
    }
    assert(m / pow2(e) <= m) by (nonlinear_arith)
        requires pow2(e) > 0;
}

} // verus!
