//! Facts about the order of numbers and the bounds of quotients.
use crate::binary64::{signed, spec_ratio, spec_real, Real};
use crate::rounding::{
    lemma_nearest_exact, lemma_nearest_ordered, lemma_nearest_rounds, lemma_units_order,
    lemma_units_scaled, nearest, units, BINADE, INF,
};
use crate::world::real_sum;
use vstd::arithmetic::power2::*;
use vstd::prelude::*;

verus! {

/// The pattern of a power of two.
pub proof fn lemma_power_pattern(e: nat)
    requires
        e <= 1000,
    ensures
        nearest(pow2(e) * pow2(1074), 1) == (1023 + e) * BINADE,
        units(((1023 + e) * BINADE) as nat) == pow2(e) * pow2(1074),
        (1023 + e) * BINADE < INF,
{
    let b = BINADE as nat;
    lemma2_to64_rest();
    lemma_units_scaled(b, 1022 + e);
    lemma_pow2_adds(52, 1022 + e);
    lemma_pow2_adds(e, 1074);
    lemma_nearest_exact(pow2(e) * pow2(1074), 1, (1022 + e) * b + b);
}

/// The number one.
pub proof fn lemma_one()
    ensures
        spec_real(1) == (Real { bits: 0x3FF0_0000_0000_0000 }),
        spec_real(1).value() == pow2(1074),
        spec_real(1).is_finite(),
        !spec_real(1).negative(),
{
    lemma2_to64();
    lemma_power_pattern(0);
    assert(1 * pow2(1074) == pow2(1074));
}

/// A natural number that is not too large is finite, and its order is kept.
pub proof fn lemma_real_ordered(m: nat, n: nat)
    requires
        m <= n <= pow2(1000),
    ensures
        spec_real(m).is_finite(),
        spec_real(n).is_finite(),
        !spec_real(m).negative(),
        !spec_real(n).negative(),
        0 <= spec_real(m).value() <= spec_real(n).value(),
        m == 0 ==> spec_real(m) == (Real { bits: 0 }),
        m >= 1 ==> spec_real(m).value() >= pow2(1074),
{
    let u = pow2(1074);
    lemma_pow2_pos(1074);
    assert(m * u <= n * u <= pow2(1000) * u) by (nonlinear_arith)
        requires m <= n <= pow2(1000), u > 0;
    lemma_nearest_ordered(m * u, n * u, 1);
    lemma_nearest_ordered(n * u, pow2(1000) * u, 1);
    lemma_power_pattern(1000);
    lemma_units_order(nearest(m * u, 1), nearest(n * u, 1));
    if m == 0 {
        assert(m * u == 0) by (nonlinear_arith)
            requires m == 0;
        lemma_nearest_exact(0, 1, 0);
    } else {
        lemma2_to64();
        lemma_power_pattern(0);
        assert(pow2(0) * u == u);
        assert(u <= m * u) by (nonlinear_arith)
            requires m >= 1;
        lemma_nearest_ordered(u, m * u, 1);
        lemma_units_order(1023 * (BINADE as nat), nearest(m * u, 1));
    }
}

/// What is not negative by what is no smaller lies between zero and one; by itself it is
/// one.
pub proof fn lemma_fraction(x: Real, y: Real)
    requires
        x.is_finite(),
        y.is_finite(),
        !x.negative(),
        !y.negative(),
        0 < y.value(),
        x.value() <= y.value(),
    ensures
        !x.over(y).is_nan(),
        !x.over(y).negative(),
        0 <= x.over(y).value() <= spec_real(1).value(),
        x.value() == y.value() ==> x.over(y) == spec_real(1),
{
    let a = units(x.magnitude());
    let b = units(y.magnitude());
    let u = pow2(1074);
    let one = 0x3FF0_0000_0000_0000nat;
    lemma_one();
    lemma_units_order(y.magnitude(), 0);
    assert(units(one) * b == b * u) by (nonlinear_arith)
        requires units(one) == u;
    lemma_nearest_exact(b * u, b, one);
    assert(a * u <= b * u) by (nonlinear_arith)
        requires a <= b;
    lemma_nearest_ordered(a * u, b * u, b);
    lemma_nearest_rounds(a * u, b);
    lemma_units_order(nearest(a * u, b), one);
}

/// A product of what is not zero and a number that is at least one is not zero.
pub proof fn lemma_product_not_zero(x: Real, y: Real)
    requires
        !x.is_nan(),
        !y.is_nan(),
        !x.negative(),
        x.value() >= pow2(1074),
        y.magnitude() > 0,
    ensures
        !x.times(y).is_nan(),
        x.times(y).magnitude() >= y.magnitude() || x.times(y).is_infinite(),
        x.times(y).magnitude() > 0,
        x.times(y).negative() == y.negative(),
        y.is_finite() && !y.negative() ==> x.times(y).value() >= y.value(),
{
    let a = units(x.magnitude());
    let b = units(y.magnitude());
    let u = pow2(1074);
    lemma_pow2_pos(1074);
    lemma_units_order(0, x.magnitude());
    if x.is_finite() && y.is_finite() {
        assert(b * u <= a * b) by (nonlinear_arith)
            requires u <= a;
        lemma_nearest_exact(b * u, u, y.magnitude());
        lemma_nearest_ordered(b * u, a * b, u);
        lemma_nearest_rounds(a * b, u);
        lemma_units_order(y.magnitude(), nearest(a * b, u));
    } else {
        lemma_units_order(y.magnitude(), INF as nat);
    }
}

/// A quotient of one and a natural number that is not too large is not zero.
pub proof fn lemma_reciprocal_not_zero(n: nat)
    requires
        1 <= n <= pow2(1000),
    ensures
        !spec_real(1).over(spec_real(n)).is_nan(),
        0 < spec_real(1).over(spec_real(n)).value(),
{
    let u = pow2(1074);
    let y = spec_real(n);
    let b = units(y.magnitude());
    lemma_one();
    lemma_real_ordered(n, n);
    lemma_real_ordered(n, pow2(1000));
    lemma_power_pattern(1000);
    lemma_pow2_pos(1074);
    lemma_units_order(y.magnitude(), 0);
    lemma_pow2_strictly_increases(1000, 1074);
    assert(b * 1 <= u * u) by (nonlinear_arith)
        requires b <= pow2(1000) * u, pow2(1000) <= u;
    assert(units(1) * b == b) by (nonlinear_arith)
        requires units(1) == 1;
    lemma_nearest_exact(b, b, 1);
    lemma_nearest_ordered(b, u * u, b);
    lemma_nearest_rounds(u * u, b);
    lemma_units_order(0, nearest(u * u, b));
}

/// What a pattern without a sign stands for.
pub proof fn lemma_pattern(k: nat)
    requires
        k <= INF,
    ensures
        signed(false, k).magnitude() == k,
        !signed(false, k).negative(),
        !signed(false, k).is_nan(),
        signed(false, k).value() == units(k),
{
}

/// The sum of two finite numbers that are not negative.
pub proof fn lemma_sum_pattern(x: Real, y: Real)
    requires
        x.is_finite(),
        y.is_finite(),
        !x.negative(),
        !y.negative(),
    ensures
        x.plus(y) == signed(false, nearest(units(x.magnitude()) + units(y.magnitude()), 1)),
        nearest(units(x.magnitude()) + units(y.magnitude()), 1) <= INF,
{
    let sum = units(x.magnitude()) + units(y.magnitude());
    assert(x.value() == units(x.magnitude()) && y.value() == units(y.magnitude()));
    lemma_nearest_rounds(sum, 1);
    if sum == 0 {
        lemma_nearest_exact(0, 1, 0);
    }
}

/// A sum of what is not negative is no smaller than its parts.
pub proof fn lemma_plus_grows(x: Real, y: Real)
    requires
        x.is_finite(),
        y.is_finite(),
        !x.negative(),
        !y.negative(),
    ensures
        !x.plus(y).is_nan(),
        !x.plus(y).negative(),
        x.plus(y).value() >= x.value(),
        x.plus(y).value() >= y.value(),
{
    let a = units(x.magnitude());
    let b = units(y.magnitude());
    let k = nearest(a + b, 1);
    lemma_sum_pattern(x, y);
    lemma_pattern(k);
    lemma_nearest_exact(a, 1, x.magnitude());
    lemma_nearest_exact(b, 1, y.magnitude());
    lemma_nearest_ordered(a, a + b, 1);
    lemma_nearest_ordered(b, a + b, 1);
    lemma_units_order(x.magnitude(), k);
    lemma_units_order(y.magnitude(), k);
}

/// Adding more gives no less.
pub proof fn lemma_plus_ordered(x: Real, y: Real, z: Real)
    requires
        x.is_finite(),
        !y.is_nan(),
        !z.is_nan(),
        !x.negative(),
        !y.negative(),
        !z.negative(),
        y.value() <= z.value(),
    ensures
        !x.plus(y).is_nan(),
        !x.plus(z).is_nan(),
        !x.plus(y).negative(),
        !x.plus(z).negative(),
        x.plus(y).value() <= x.plus(z).value(),
{
    let a = units(x.magnitude());
    let b = units(y.magnitude());
    let c = units(z.magnitude());
    lemma_units_order(z.magnitude(), y.magnitude());
    if z.is_finite() {
        let j = nearest(a + b, 1);
        let k = nearest(a + c, 1);
        lemma_sum_pattern(x, y);
        lemma_sum_pattern(x, z);
        lemma_pattern(j);
        lemma_pattern(k);
        lemma_nearest_ordered(a + b, a + c, 1);
        lemma_units_order(k, j);
    } else {
        assert(x.plus(z) == z);
        if y.is_finite() {
            let j = nearest(a + b, 1);
            lemma_sum_pattern(x, y);
            lemma_pattern(j);
            lemma_units_order(INF as nat, j);
        } else {
            assert(x.plus(y) == y);
        }
    }
}

/// The product of two finite numbers that are not negative.
pub proof fn lemma_product_pattern(x: Real, y: Real)
    requires
        x.is_finite(),
        y.is_finite(),
        !x.negative(),
        !y.negative(),
    ensures
        x.times(y) == signed(
            false,
            nearest(units(x.magnitude()) * units(y.magnitude()), pow2(1074)),
        ),
        nearest(units(x.magnitude()) * units(y.magnitude()), pow2(1074)) <= INF,
{
    lemma_pow2_pos(1074);
    lemma_nearest_rounds(units(x.magnitude()) * units(y.magnitude()), pow2(1074));
}

/// Multiplying by more gives no less.
pub proof fn lemma_times_ordered(x: Real, y: Real, z: Real)
    requires
        x.is_finite(),
        y.is_finite(),
        z.is_finite(),
        !x.negative(),
        !y.negative(),
        !z.negative(),
        y.value() <= z.value(),
    ensures
        !x.times(y).is_nan(),
        !x.times(z).is_nan(),
        !x.times(y).negative(),
        !x.times(z).negative(),
        x.times(y).value() <= x.times(z).value(),
{
    let a = units(x.magnitude());
    let b = units(y.magnitude());
    let c = units(z.magnitude());
    let j = nearest(a * b, pow2(1074));
    let k = nearest(a * c, pow2(1074));
    lemma_pow2_pos(1074);
    assert(a * b <= a * c) by (nonlinear_arith)
        requires b <= c;
    lemma_product_pattern(x, y);
    lemma_product_pattern(x, z);
    lemma_pattern(j);
    lemma_pattern(k);
    lemma_nearest_ordered(a * b, a * c, pow2(1074));
    lemma_units_order(k, j);
}

/// A number that is neither NaN nor negative.
pub open spec fn plain(x: Real) -> bool {
    !x.is_nan() && !x.negative()
}

/// Sums of more are no less.
pub proof fn lemma_sums_ordered(x: Real, y: Real, x2: Real, y2: Real)
    requires
        plain(x),
        plain(y),
        plain(x2),
        plain(y2),
        x.value() <= x2.value(),
        y.value() <= y2.value(),
    ensures
        plain(x.plus(y)),
        plain(x2.plus(y2)),
        x.plus(y).value() <= x2.plus(y2).value(),
{
    let a = units(x.magnitude());
    let b = units(y.magnitude());
    let a2 = units(x2.magnitude());
    let b2 = units(y2.magnitude());
    lemma_units_order(x2.magnitude(), x.magnitude());
    lemma_units_order(y2.magnitude(), y.magnitude());
    let top = Real { bits: INF };
    if x2.is_finite() && y2.is_finite() {
        let j = nearest(a + b, 1);
        let k = nearest(a2 + b2, 1);
        lemma_sum_pattern(x, y);
        lemma_sum_pattern(x2, y2);
        lemma_pattern(j);
        lemma_pattern(k);
        lemma_nearest_ordered(a + b, a2 + b2, 1);
        lemma_units_order(k, j);
    } else {
        assert(x2.plus(y2).magnitude() == INF);
        if x.is_finite() && y.is_finite() {
            let j = nearest(a + b, 1);
            lemma_sum_pattern(x, y);
            lemma_pattern(j);
            lemma_units_order(INF as nat, j);
        } else {
            assert(x.plus(y).magnitude() == INF);
        }
    }
}

/// The quotient of finite numbers that are not negative, the divisor not zero.
pub proof fn lemma_quotient_pattern(x: Real, z: Real)
    requires
        plain(x),
        x.is_finite(),
        plain(z),
        z.is_finite(),
        z.value() > 0,
    ensures
        units(z.magnitude()) > 0,
        z.magnitude() > 0,
        x.over(z) == signed(
            false,
            nearest(units(x.magnitude()) * pow2(1074), units(z.magnitude())),
        ),
        nearest(units(x.magnitude()) * pow2(1074), units(z.magnitude())) <= INF,
{
    lemma_units_order(0, z.magnitude());
    lemma_nearest_rounds(units(x.magnitude()) * pow2(1074), units(z.magnitude()));
}

/// Quotients of more are no less.
pub proof fn lemma_over_ordered(x: Real, x2: Real, z: Real)
    requires
        plain(x),
        plain(x2),
        x.value() <= x2.value(),
        plain(z),
        z.is_finite(),
        z.value() > 0,
    ensures
        plain(x.over(z)),
        plain(x2.over(z)),
        x.over(z).value() <= x2.over(z).value(),
{
    let a = units(x.magnitude());
    let a2 = units(x2.magnitude());
    let c = units(z.magnitude());
    let u = pow2(1074);
    lemma_units_order(x2.magnitude(), x.magnitude());
    lemma_units_order(0, z.magnitude());
    if x2.is_finite() {
        let j = nearest(a * u, c);
        let k = nearest(a2 * u, c);
        lemma_quotient_pattern(x, z);
        lemma_quotient_pattern(x2, z);
        lemma_pattern(j);
        lemma_pattern(k);
        assert(a * u <= a2 * u) by (nonlinear_arith)
            requires a <= a2;
        lemma_nearest_ordered(a * u, a2 * u, c);
        lemma_units_order(k, j);
    } else {
        assert(x2.over(z).magnitude() == INF);
        if x.is_finite() {
            let j = nearest(a * u, c);
            lemma_quotient_pattern(x, z);
            lemma_pattern(j);
            lemma_units_order(INF as nat, j);
        }
    }
}

/// A finite number by one or more is finite, and no more than it was.
pub proof fn lemma_over_one_or_more(x: Real, y: Real)
    requires
        plain(x),
        x.is_finite(),
        plain(y),
        y.value() >= pow2(1074),
    ensures
        plain(x.over(y)),
        x.over(y).is_finite(),
        x.over(y).value() <= x.value(),
{
    let a = units(x.magnitude());
    let b = units(y.magnitude());
    let u = pow2(1074);
    lemma_pow2_pos(1074);
    lemma_units_order(0, y.magnitude());
    lemma_units_order(0, x.magnitude());
    if y.is_finite() {
        lemma_quotient_pattern(x, y);
        lemma_pattern(nearest(a * u, b));
        assert(a * u <= a * b) by (nonlinear_arith)
            requires u <= b;
        lemma_nearest_ordered(a * u, a * b, b);
        lemma_nearest_exact(a * b, b, x.magnitude());
        lemma_units_order(nearest(a * u, b), x.magnitude());
    } else {
        lemma_pattern(0);
    }
}

/// Products by more are no less, one factor finite and not zero.
pub proof fn lemma_products_ordered(x: Real, y: Real, y2: Real)
    requires
        plain(x),
        x.is_finite(),
        x.value() > 0,
        plain(y),
        plain(y2),
        y.value() <= y2.value(),
    ensures
        plain(x.times(y)),
        plain(x.times(y2)),
        x.times(y).value() <= x.times(y2).value(),
{
    lemma_units_order(0, x.magnitude());
    lemma_units_order(y2.magnitude(), y.magnitude());
    if y2.is_finite() {
        lemma_times_ordered(x, y, y2);
    } else {
        assert(x.times(y2).magnitude() == INF);
        if y.is_finite() {
            let j = nearest(units(x.magnitude()) * units(y.magnitude()), pow2(1074));
            lemma_product_pattern(x, y);
            lemma_pattern(j);
            lemma_units_order(INF as nat, j);
        }
    }
}

/// A finite number times one is the number.
pub proof fn lemma_times_one(x: Real)
    requires
        plain(x),
        x.is_finite(),
    ensures
        x.times(spec_real(1)) == x,
{
    let a = units(x.magnitude());
    let u = pow2(1074);
    lemma_one();
    lemma_pow2_pos(1074);
    lemma_product_pattern(x, spec_real(1));
    assert(units(spec_real(1).magnitude()) == u);
    lemma_nearest_exact(a * u, u, x.magnitude());
}

/// One half and three halves.
pub proof fn lemma_halves()
    ensures
        spec_ratio(1, 2) == (Real { bits: 0x3FE0_0000_0000_0000 }),
        spec_ratio(3, 2) == (Real { bits: 0x3FF8_0000_0000_0000 }),
        spec_ratio(1, 2).less(spec_real(1)),
        spec_real(1).less(spec_ratio(3, 2)),
{
    let b = BINADE as nat;
    let u = pow2(1074);
    lemma2_to64();
    lemma2_to64_rest();
    lemma_one();
    lemma_exact_integer(2);
    lemma_exact_integer(3);
    lemma_pow2_pos(1074);
    let k = 0x3FE0_0000_0000_0000nat;
    let h = 0x3FF8_0000_0000_0000nat;
    lemma_units_scaled(b, 1021);
    lemma_units_scaled(b + b / 2, 1022);
    lemma_pow2_adds(52, 1021);
    lemma_pow2_adds(1, 1073);
    lemma_pow2_adds(51, 1022);
    assert(units(k) == pow2(1073));
    assert((b + b / 2) * pow2(1022) == 3 * pow2(1073)) by (nonlinear_arith)
        requires b + b / 2 == 3 * pow2(51), pow2(51) * pow2(1022) == pow2(1073);
    assert(units(k) * (2 * u) == u * u) by (nonlinear_arith)
        requires units(k) * 2 == u;
    assert(units(h) * (2 * u) == (3 * u) * u) by (nonlinear_arith)
        requires units(h) * 2 == 3 * u;
    lemma_units_order(spec_real(2).magnitude(), 0);
    lemma_nearest_exact(u * u, 2 * u, k);
    lemma_nearest_exact((3 * u) * u, 2 * u, h);
    assert(1 * u == u);
}

/// A finite number by a number other than zero is a number.
pub proof fn lemma_quotient_is_number(x: Real, y: Real)
    requires
        x.is_finite(),
        !y.is_nan(),
        y.magnitude() > 0,
    ensures
        !x.over(y).is_nan(),
{
    lemma_units_order(0, y.magnitude());
    lemma_nearest_rounds(units(x.magnitude()) * pow2(1074), units(y.magnitude()));
}

/// Zero by what is not zero is zero.
pub proof fn lemma_zero_over(y: Real)
    requires
        !y.is_nan(),
        y.magnitude() > 0,
    ensures
        !(Real { bits: 0 }).over(y).is_nan(),
        (Real { bits: 0 }).over(y).value() == 0,
{
    let b = units(y.magnitude());
    lemma_units_order(0, y.magnitude());
    assert(units(0) * pow2(1074) == 0) by (nonlinear_arith)
        requires units(0) == 0;
    assert(units(0) * b == 0) by (nonlinear_arith)
        requires units(0) == 0;
    lemma_nearest_exact(0, b, 0);
}

/// Where a natural number stands among the powers of two.
proof fn lemma_between_powers(n: nat, e: nat) -> (f: nat)
    requires
        1 <= n < pow2(e),
    ensures
        f < e,
        pow2(f) <= n < pow2(f + 1),
    decreases e,
{
    if e == 0 {
        lemma2_to64();
        0
    } else if n >= pow2((e - 1) as nat) {
        (e - 1) as nat
    } else {
        lemma_between_powers(n, (e - 1) as nat)
    }
}

/// A natural number up to `2^53` is a number exactly.
pub proof fn lemma_exact_integer(n: nat)
    requires
        n <= 0x20_0000_0000_0000,
    ensures
        spec_real(n).is_finite(),
        !spec_real(n).negative(),
        spec_real(n).value() == n * pow2(1074),
{
    let b = BINADE as nat;
    let u = pow2(1074);
    lemma2_to64();
    lemma2_to64_rest();
    if n == 0 {
        lemma_pow2_pos(1000);
        lemma_real_ordered(0, 0);
        assert(n * u == 0) by (nonlinear_arith)
            requires n == 0;
    } else {
        lemma_pow2_adds(1, 53);
        let e = lemma_between_powers(n, 54);
        if e == 53 {
            lemma_power_pattern(53);
            assert(n == pow2(53));
            assert(spec_real(n).value() == n * u);
        } else {
            let f = (52 - e) as nat;
            let sig = n * pow2(f);
            lemma_pow2_adds(e, f);
            lemma_pow2_adds(e + 1, f);
            lemma_pow2_adds(f, 1022 + e);
            lemma_pow2_pos(f);
            assert(pow2(e) * pow2(f) <= sig < pow2(e + 1) * pow2(f)) by (nonlinear_arith)
                requires pow2(e) <= n < pow2(e + 1), pow2(f) > 0, sig == n * pow2(f);
            lemma_units_scaled(sig, 1022 + e);
            assert(sig * pow2(1022 + e) == n * u) by (nonlinear_arith)
                requires sig == n * pow2(f), pow2(f) * pow2(1022 + e) == u;
            let k = (1022 + e) * b + sig;
            assert(k < INF);
            lemma_nearest_exact(n * u, 1, k);
            assert(spec_real(n).magnitude() == k);
        }
    }
}

/// Adding a fraction to what is no larger than `n`.
proof fn lemma_fraction_added(a: Real, x: Real, n: nat)
    requires
        n < 0x20_0000_0000_0000,
        a.is_finite(),
        !a.negative(),
        a.value() <= n * pow2(1074),
        x.is_finite(),
        !x.negative(),
        x.value() <= pow2(1074),
    ensures
        a.plus(x).is_finite(),
        !a.plus(x).negative(),
        a.plus(x).value() <= (n + 1) * pow2(1074),
{
    let u = pow2(1074);
    let sum = units(a.magnitude()) + units(x.magnitude());
    let k = nearest(sum, 1);
    lemma_exact_integer(n + 1);
    lemma_sum_pattern(a, x);
    lemma_pattern(k);
    assert(n * u + u == (n + 1) * u) by (nonlinear_arith);
    lemma_nearest_ordered(sum, (n + 1) * u, 1);
    lemma_nearest_rounds((n + 1) * u, 1);
    lemma_pattern(nearest((n + 1) * u, 1));
    lemma_units_order(nearest((n + 1) * u, 1), k);
}

/// A sum of fractions is no larger than their number.
pub proof fn lemma_fractions_sum(s: Seq<Real>)
    requires
        s.len() <= 0x20_0000_0000_0000,
        forall|i: int|
            0 <= i < s.len() ==> !(#[trigger] s[i]).is_nan() && !s[i].negative()
                && s[i].value() <= spec_real(1).value(),
    ensures
        real_sum(s).is_finite(),
        !real_sum(s).negative(),
        real_sum(s).value() <= spec_real(s.len()).value() == s.len() * pow2(1074),
    decreases s.len(),
{
    lemma_exact_integer(s.len());
    if s.len() > 0 {
        let rest = s.drop_last();
        let x = s.last();
        lemma_one();
        assert(s[s.len() - 1] == x);
        assert forall|i: int| 0 <= i < rest.len() implies !(#[trigger] rest[i]).is_nan()
            && !rest[i].negative() && rest[i].value() <= spec_real(1).value() by {
            assert(rest[i] == s[i]);
        }
        lemma_fractions_sum(rest);
        lemma_units_order(x.magnitude(), 0x3FF0_0000_0000_0000);
        lemma_fraction_added(real_sum(rest), x, rest.len());
    } else {
        assert(s.len() * pow2(1074) == 0) by (nonlinear_arith)
            requires s.len() == 0;
    }
}

} // verus!
