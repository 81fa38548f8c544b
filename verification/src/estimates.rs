//! How far computed numbers lie from the exact ones, signs included.
use crate::accuracy::{
    amounts, int_sum, is_amount, lemma_rounding_error, lemma_sum_error, near, PARTS,
};
use crate::binary64::{signed, spec_ratio, spec_real, Real};
use crate::bounds::{lemma_exact_integer, lemma_quotient_pattern};
use crate::rounding::{lemma_nearest_rounds, lemma_units_order, nearest, units, INF};
use crate::world::{real_mean, real_sum};
use vstd::arithmetic::power2::*;
use vstd::prelude::*;

verus! {

/// A number without its sign.
#[verifier::opaque]
pub open spec fn size(v: int) -> int {
    if v < 0 {
        -v
    } else {
        v
    }
}

/// A number is another one, up to `n` parts in `2^53` of a third one and `n` units.
pub open spec fn about(v: int, exact: int, scale: int, n: nat) -> bool {
    size(v - exact) * PARTS <= n * scale + n * PARTS
}

/// A half and three halves are exact.
pub proof fn lemma_halves_exact()
    ensures
        2 * spec_ratio(1, 2).value() == spec_real(1).value(),
        2 * spec_ratio(3, 2).value() == 3 * spec_real(1).value(),
{
    let b = crate::rounding::BINADE as nat;
    crate::bounds::lemma_halves();
    lemma2_to64();
    lemma2_to64_rest();
    crate::bounds::lemma_one();
    crate::rounding::lemma_units_scaled(b, 1021);
    crate::rounding::lemma_units_scaled(b + b / 2, 1022);
    lemma_pow2_adds(52, 1021);
    lemma_pow2_adds(1, 1073);
    lemma_pow2_adds(51, 1022);
    assert((b + b / 2) * pow2(1022) == 3 * pow2(1073)) by (nonlinear_arith)
        requires b + b / 2 == 3 * pow2(51), pow2(51) * pow2(1022) == pow2(1073);
}

/// One is more units than any small number of parts.
pub proof fn lemma_many_units()
    ensures
        pow2(1074) >= 1_000_000 * PARTS,
        pow2(1074) > 0,
{
    lemma2_to64();
    lemma2_to64_rest();
    lemma_pow2_adds(64, 64);
    lemma_pow2_strictly_increases(128, 1074);
}

/// What a sign and a pattern stand for.
proof fn lemma_signed(negative: bool, k: nat)
    requires
        k <= INF,
    ensures
        signed(negative, k).magnitude() == k,
        signed(negative, k).negative() == negative,
        signed(negative, k).value() == if negative {
            -(units(k) as int)
        } else {
            units(k) as int
        },
{
}

/// A sum of finite numbers is rounded by a `2^-53`th of it at most.
pub proof fn lemma_plus_off(x: Real, y: Real)
    requires
        x.is_finite(),
        y.is_finite(),
        x.plus(y).is_finite(),
    ensures
        size(x.plus(y).value() - (x.value() + y.value())) * PARTS <= size(x.value() + y.value()),
{
    reveal(size);
    let sum = x.value() + y.value();
    if sum == 0 {
        lemma_signed(x.negative() && y.negative(), 0);
    } else {
        let p = size(sum) as nat;
        let k = nearest(p, 1);
        lemma_nearest_rounds(p, 1);
        lemma_signed(sum < 0, k);
        lemma_rounding_error(p, 1);
        assert(units(k) * 1 == units(k));
        assert(1 * p == p);
        let d = units(k) - p;
        if !near(units(k) as int, p as int, 1) {
            assert(d == 0);
        }
        assert(size(x.plus(y).value() - sum) == size(d));
        assert(size(d) * PARTS == if d < 0 {
            -(d * PARTS)
        } else {
            d * PARTS
        }) by (nonlinear_arith)
            requires size(d) == if d < 0 { -d } else { d };
    }
}

/// The sign of a product.
proof fn lemma_product_sign(x: Real, y: Real)
    ensures
        x.value() * y.value() == if x.negative() != y.negative() {
            -((units(x.magnitude()) * units(y.magnitude())) as int)
        } else {
            (units(x.magnitude()) * units(y.magnitude())) as int
        },
{
    reveal(size);
    let a = units(x.magnitude()) as int;
    let b = units(y.magnitude()) as int;
    assert((-a) * b == -(a * b)) by (nonlinear_arith);
    assert(a * (-b) == -(a * b)) by (nonlinear_arith);
    assert((-a) * (-b) == a * b) by (nonlinear_arith);
}

/// A product of finite numbers is rounded by a `2^-53`th of it at most, or by a unit.
pub proof fn lemma_times_off(x: Real, y: Real)
    requires
        x.is_finite(),
        y.is_finite(),
        x.times(y).is_finite(),
    ensures
        size(x.times(y).value() * pow2(1074) - x.value() * y.value()) * PARTS <= size(
            x.value() * y.value(),
        ) + pow2(1074) * PARTS,
{
    reveal(size);
    let u = pow2(1074);
    let p = units(x.magnitude()) * units(y.magnitude());
    let negative = x.negative() != y.negative();
    let k = nearest(p, u);
    lemma_pow2_pos(1074);
    lemma_nearest_rounds(p, u);
    lemma_signed(negative, k);
    lemma_product_sign(x, y);
    lemma_rounding_error(p, u);
    let r = (units(k) * u) as int;
    let d = r - p;
    assert((-(units(k) as int)) * u == -r) by (nonlinear_arith)
        requires r == units(k) * u;
    assert(size(x.times(y).value() * u - x.value() * y.value()) == size(d));
    lemma_off(d, p as int, u as int);
}

/// An error that is a part of a number, or half of another one.
proof fn lemma_off(d: int, p: int, q: int)
    requires
        p >= 0,
        q >= 0,
        -(1 * p) <= d * PARTS <= 1 * p || -q <= 2 * d <= q,
    ensures
        size(d) * PARTS <= p + q * PARTS,
{
    reveal(size);
    let w = PARTS as int;
    assert(q * w >= 0) by (nonlinear_arith)
        requires q >= 0, w >= 0;
    if -q <= 2 * d <= q {
        assert(size(d) * w <= q * w) by (nonlinear_arith)
            requires 0 <= size(d) <= q, w >= 0;
    } else {
        assert((-d) * w == -(d * w)) by (nonlinear_arith);
    }
}

/// A quotient of finite numbers, the divisor above zero, is rounded by a `2^-53`th of it at
/// most, or by a unit.
pub proof fn lemma_over_off(x: Real, y: Real)
    requires
        x.is_finite(),
        y.is_finite(),
        y.value() > 0,
        x.over(y).is_finite(),
    ensures
        size(x.over(y).value() * y.value() - x.value() * pow2(1074)) * PARTS <= size(x.value())
            * pow2(1074) + y.value() * PARTS,
{
    reveal(size);
    let u = pow2(1074);
    let a = units(x.magnitude());
    let b = units(y.magnitude());
    let p = a * u;
    let k = nearest(p, b);
    lemma_pow2_pos(1074);
    lemma_units_order(0, y.magnitude());
    lemma_nearest_rounds(p, b);
    lemma_signed(x.negative(), k);
    lemma_rounding_error(p, b);
    let r = (units(k) * b) as int;
    let d = r - p;
    assert((-(units(k) as int)) * b == -r) by (nonlinear_arith)
        requires r == units(k) * b;
    assert((-(a as int)) * u == -(p as int)) by (nonlinear_arith)
        requires p == a * u;
    assert(size(x.over(y).value() * y.value() - x.value() * u) == size(d));
    assert(size(x.value()) == a);
    lemma_off(d, p as int, b as int);
}

/// The number nearest to a small quotient is near to it.
pub proof fn lemma_ratio_off(a: nat, b: nat)
    requires
        a <= 1_000_000,
        1 <= b <= 1_000_000,
    ensures
        is_amount(spec_ratio(a, b)),
        size(b * spec_ratio(a, b).value() - a * pow2(1074)) * PARTS <= (a + 1) * pow2(1074),
{
    reveal(size);
    let u = pow2(1074) as int;
    let x = spec_real(a);
    let y = spec_real(b);
    let r = spec_ratio(a, b);
    lemma_many_units();
    lemma_exact_integer(a);
    lemma_exact_integer(b);
    let bu = b * u;
    assert(bu >= u) by (nonlinear_arith)
        requires bu == b * u, b >= 1, u > 0;
    lemma_quotient_pattern(x, y);
    lemma_small_quotient(a, b);
    lemma_over_off(x, y);
    let v = r.value();
    let au = a * u;
    let d = b * v - au;
    assert(v * bu - au * u == d * u) by (nonlinear_arith)
        requires bu == b * u, d == b * v - au;
    assert(size(d * u) == size(d) * u) by (nonlinear_arith)
        requires
            u > 0,
            size(d) == if d < 0 { -d } else { d },
            size(d * u) == if d * u < 0 { -(d * u) } else { d * u },
    ;
    let w = PARTS as int;
    assert(size(au) == au) by (nonlinear_arith)
        requires au == a * u, u > 0, a >= 0, size(au) == if au < 0 { -au } else { au };
    assert((size(d) * w) * u == (size(d) * u) * w) by (nonlinear_arith);
    assert(au * u + bu * w == (au + b * w) * u) by (nonlinear_arith)
        requires bu == b * u;
    lemma_cancelled(size(d) * w, au + b * w, u);
    assert(b * w <= u) by (nonlinear_arith)
        requires b <= 1_000_000, u >= 1_000_000 * w, w >= 0;
    assert((a + 1) * u == au + u) by (nonlinear_arith)
        requires au == a * u;
}

/// A common factor drops out.
pub proof fn lemma_cancelled(a: int, c: int, q: int)
    requires
        q > 0,
        a * q <= c * q,
    ensures
        a <= c,
{
    assert(a <= c) by (nonlinear_arith)
        requires q > 0, a * q <= c * q;
}

/// The quotient of small integers is finite and not negative.
proof fn lemma_small_quotient(a: nat, b: nat)
    requires
        a <= 1_000_000,
        1 <= b <= 1_000_000,
    ensures
        is_amount(spec_ratio(a, b)),
{
    reveal(size);
    let x = spec_real(a);
    let y = spec_real(b);
    lemma_exact_integer(a);
    lemma_exact_integer(b);
    lemma_many_units();
    let u = pow2(1074) as int;
    assert(b * u >= u) by (nonlinear_arith)
        requires b >= 1, u > 0;
    crate::bounds::lemma_over_one_or_more(x, y);
}

/// The size of a product.
pub proof fn lemma_size_product(a: int, b: int)
    ensures
        size(a * b) == size(a) * size(b),
        b >= 0 ==> size(a * b) == size(a) * b,
        a >= 0 ==> size(a * b) == a * size(b),
{
    reveal(size);
    assert((-a) * b == -(a * b)) by (nonlinear_arith);
    assert(a * (-b) == -(a * b)) by (nonlinear_arith);
    assert((-a) * (-b) == a * b) by (nonlinear_arith);
    assert(a >= 0 && b >= 0 ==> a * b >= 0) by (nonlinear_arith);
    assert(a < 0 && b >= 0 ==> a * b <= 0) by (nonlinear_arith);
    assert(a >= 0 && b < 0 ==> a * b <= 0) by (nonlinear_arith);
    assert(a < 0 && b < 0 ==> a * b >= 0) by (nonlinear_arith);
}

/// The size of a sum.
pub proof fn lemma_size_sum(a: int, b: int)
    ensures
        size(a + b) <= size(a) + size(b),
        size(a - b) <= size(a) + size(b),
{
    reveal(size);
}

/// A small part of a number.
pub proof fn lemma_part_off(a: nat, b: nat, x: Real)
    requires
        a <= 1_000,
        1 <= b <= 1_000_000,
        x.is_finite(),
        spec_ratio(a, b).times(x).is_finite(),
    ensures
        size(b * spec_ratio(a, b).times(x).value() - a * x.value()) * PARTS <= (2 * a + 2) * size(
            x.value(),
        ) + b * PARTS,
{
    reveal(size);
    let u = pow2(1074) as int;
    let w = PARTS as int;
    let c = spec_ratio(a, b).value();
    let t = spec_ratio(a, b).times(x).value();
    let v = x.value();
    lemma_many_units();
    lemma_ratio_off(a, b);
    lemma_times_off(spec_ratio(a, b), x);
    let d = b * c - a * u;
    let e = t * u - c * v;
    let g = b * t - a * v;
    assert(g * u == b * e + v * d) by (nonlinear_arith)
        requires g == b * t - a * v, e == t * u - c * v, d == b * c - a * u;
    let k = (a + 1) * u;
    lemma_size_product(g, u);
    lemma_size_product(b as int, e);
    lemma_size_product(v, d);
    lemma_size_product(c, v);
    lemma_size_sum(b * e, v * d);
    assert(b * c <= k) by {
        assert(size(d) <= u) by (nonlinear_arith)
            requires size(d) * w <= (a + 1) * u, a + 1 <= w, w > 0, u >= 0, size(d) >= 0;
        assert(k == a * u + u) by (nonlinear_arith)
            requires k == (a + 1) * u;
    }
    let s = size(v);
    assert((b * size(e)) * w <= k * s + b * (u * w)) by {
        assert((b * size(e)) * w == b * (size(e) * w)) by (nonlinear_arith);
        assert(b * (size(e) * w) <= b * (c * s + u * w)) by (nonlinear_arith)
            requires size(e) * w <= c * s + u * w, b >= 0;
        assert(b * (c * s + u * w) == (b * c) * s + b * (u * w)) by (nonlinear_arith);
        assert((b * c) * s <= k * s) by (nonlinear_arith)
            requires b * c <= k, s >= 0;
    }
    assert((s * size(d)) * w <= s * k) by {
        assert((s * size(d)) * w == s * (size(d) * w)) by (nonlinear_arith);
        assert(s * (size(d) * w) <= s * k) by (nonlinear_arith)
            requires size(d) * w <= k, s >= 0;
    }
    assert(size(g) * u <= b * size(e) + s * size(d));
    assert((size(g) * u) * w <= (b * size(e) + s * size(d)) * w) by (nonlinear_arith)
        requires size(g) * u <= b * size(e) + s * size(d), w >= 0;
    assert((b * size(e) + s * size(d)) * w == (b * size(e)) * w + (s * size(d)) * w)
        by (nonlinear_arith);
    assert((size(g) * w) * u == (size(g) * u) * w) by (nonlinear_arith);
    let goal = (2 * a + 2) * s + b * w;
    assert(goal * u == 2 * (k * s) + b * (u * w)) by (nonlinear_arith)
        requires goal == (2 * a + 2) * s + b * w, k == (a + 1) * u;
    assert(s * k == k * s) by (nonlinear_arith);
    lemma_cancelled(size(g) * w, goal, u);
}

/// A sum of amounts that is divided by a number is, times this number, the sum up to a few
/// `2^-53`ths for each of them.
pub proof fn lemma_shared_out(s: Seq<Real>, n: nat)
    requires
        s.len() <= 0x4_0000_0000_0000,
        1 <= n <= 0x20_0000_0000_0000,
        forall|i: int| 0 <= i < s.len() ==> is_amount(#[trigger] s[i]),
        real_sum(s).is_finite(),
    ensures
        is_amount(real_sum(s).over(spec_real(n))),
        0 <= int_sum(amounts(s)),
        size(n * real_sum(s).over(spec_real(n)).value() - int_sum(amounts(s))) * PARTS <= (2
            * s.len() + 2) * int_sum(amounts(s)) + n * PARTS,
{
    reveal(size);
    let u = pow2(1074) as int;
    let w = PARTS as int;
    let exact = int_sum(amounts(s));
    let f = real_sum(s).value();
    let m = real_sum(s).over(spec_real(n)).value();
    let y = spec_real(n);
    lemma_many_units();
    lemma_exact_integer(n);
    lemma_sum_error(s);
    let nu = n as int * u;
    assert(nu >= u) by (nonlinear_arith)
        requires nu == n * u, n >= 1, u > 0;
    crate::bounds::lemma_over_one_or_more(real_sum(s), y);
    lemma_over_off(real_sum(s), y);
    let d = n * m - f;
    assert(m * nu - f * u == d * u) by (nonlinear_arith)
        requires nu == n * u, d == n * m - f;
    lemma_size_product(d, u);
    assert(f >= 0);
    assert((size(d) * w) * u == (size(d) * u) * w) by (nonlinear_arith);
    assert(f * u + nu * w == (f + n * w) * u) by (nonlinear_arith)
        requires nu == n * u;
    lemma_cancelled(size(d) * w, f + n * w, u);
    let e = f - exact;
    let k = (2 * s.len()) as nat * exact;
    assert(k <= w * exact) by (nonlinear_arith)
        requires k == (2 * s.len()) as nat * exact, 2 * s.len() <= w, exact >= 0;
    assert(e <= exact) by (nonlinear_arith)
        requires e * w <= k, k <= w * exact, w > 0;
    assert(size(e) * w <= k) by {
        assert((-e) * w == -(e * w)) by (nonlinear_arith);
    }
    lemma_size_sum(d, e);
    assert(size(d + e) * w <= size(d) * w + size(e) * w) by (nonlinear_arith)
        requires size(d + e) <= size(d) + size(e), w >= 0;
    assert((2 * s.len() + 2) * exact == k + 2 * exact) by (nonlinear_arith)
        requires k == (2 * s.len()) as nat * exact;
}

/// A mean of amounts, times their number, is their sum up to a few `2^-53`ths for each of them:
/// `2 n + 2` parts in `2^53` of the sum, and `n` units.
pub proof fn means_are_accurate(s: Seq<Real>)
    requires
        1 <= s.len() <= 0x4_0000_0000_0000,
        forall|i: int| 0 <= i < s.len() ==> is_amount(#[trigger] s[i]),
        real_sum(s).is_finite(),
    ensures
        is_amount(real_mean(s)),
        0 <= int_sum(amounts(s)),
        size(s.len() * real_mean(s).value() - int_sum(amounts(s))) * PARTS <= (2 * s.len() + 2)
            * int_sum(amounts(s)) + s.len() * PARTS,
{
    lemma_shared_out(s, s.len());
}

/// A number that is no larger than a power of two, and no smaller than minus that.
pub open spec fn within(x: Real, e: nat) -> bool {
    x.is_finite() && size(x.value()) <= pow2(e) * pow2(1074)
}

/// A number that is far from overflowing: no larger than `2^500`.
pub open spec fn is_moderate(x: Real) -> bool {
    within(x, 500)
}

/// What is rounded stays below a power of two.
proof fn lemma_stays_below(p: nat, q: nat, e: nat)
    requires
        q > 0,
        e <= 1000,
        p <= (pow2(e) * pow2(1074)) * q,
    ensures
        nearest(p, q) < INF,
        units(nearest(p, q)) <= pow2(e) * pow2(1074),
{
    reveal(size);
    let m = pow2(e) * pow2(1074);
    let k = ((1023 + e) * crate::rounding::BINADE) as nat;
    crate::bounds::lemma_power_pattern(e);
    crate::rounding::lemma_nearest_exact(m * q, q, k);
    crate::rounding::lemma_nearest_ordered(p, m * q, q);
    lemma_units_order(nearest(p, q), k);
}

/// A sum of numbers below a power of two.
pub proof fn lemma_plus_within(x: Real, y: Real, e: nat)
    requires
        within(x, e),
        within(y, e),
        e < 1000,
    ensures
        within(x.plus(y), e + 1),
{
    reveal(size);
    let u = pow2(1074);
    let sum = x.value() + y.value();
    lemma_pow2_unfold(e + 1);
    let m = pow2(e) * u;
    assert(pow2(e + 1) * u == 2 * m) by (nonlinear_arith)
        requires pow2(e + 1) == 2 * pow2(e), m == pow2(e) * u;
    if sum == 0 {
        lemma_signed(x.negative() && y.negative(), 0);
    } else {
        let p = size(sum) as nat;
        assert((pow2(e + 1) * u) * 1 == pow2(e + 1) * u);
        lemma_stays_below(p, 1, e + 1);
        lemma_signed(sum < 0, nearest(p, 1));
    }
}

/// A difference of numbers below a power of two.
pub proof fn lemma_minus_within(x: Real, y: Real, e: nat)
    requires
        within(x, e),
        within(y, e),
        e < 1000,
    ensures
        within(x.minus(y), e + 1),
        y.negated().value() == -y.value(),
        within(y.negated(), e),
{
    reveal(size);
    lemma_plus_within(x, y.negated(), e);
}

/// A product of numbers below powers of two.
pub proof fn lemma_times_within(x: Real, y: Real, e: nat, f: nat)
    requires
        within(x, e),
        within(y, f),
        e + f <= 1000,
    ensures
        within(x.times(y), e + f),
{
    reveal(size);
    let u = pow2(1074);
    let a = units(x.magnitude());
    let b = units(y.magnitude());
    let p = a * b;
    lemma_pow2_pos(1074);
    lemma_pow2_adds(e, f);
    let i = pow2(e) * u;
    let j = pow2(f) * u;
    assert(p <= i * j) by (nonlinear_arith)
        requires a <= i, b <= j, p == a * b;
    assert(i * j == (pow2(e + f) * u) * u) by (nonlinear_arith)
        requires i == pow2(e) * u, j == pow2(f) * u, pow2(e) * pow2(f) == pow2(e + f);
    lemma_stays_below(p, u, e + f);
    lemma_signed(x.negative() != y.negative(), nearest(p, u));
}

/// A quotient by one or more.
pub proof fn lemma_over_within(x: Real, y: Real, e: nat)
    requires
        within(x, e),
        y.is_finite(),
        y.value() >= pow2(1074),
        e <= 1000,
    ensures
        within(x.over(y), e),
{
    reveal(size);
    let u = pow2(1074);
    let a = units(x.magnitude());
    let b = units(y.magnitude());
    let p = a * u;
    lemma_pow2_pos(1074);
    lemma_units_order(0, y.magnitude());
    let i = pow2(e) * u;
    assert(p <= i * b) by (nonlinear_arith)
        requires a <= i, u <= b, p == a * u;
    lemma_stays_below(p, b, e);
    lemma_signed(x.negative(), nearest(p, b));
}

/// Natural numbers below a power of two.
pub proof fn lemma_real_within(n: nat, e: nat)
    requires
        n <= pow2(e),
        e <= 1000,
    ensures
        within(spec_real(n), e),
        is_amount(spec_real(n)),
{
    reveal(size);
    let u = pow2(1074);
    assert(n * u <= pow2(e) * u) by (nonlinear_arith)
        requires n <= pow2(e);
    assert((pow2(e) * u) * 1 == pow2(e) * u);
    lemma_stays_below(n * u, 1, e);
    lemma_signed(false, nearest(n * u, 1));
}

/// Small quotients are below a power of two.
pub proof fn lemma_ratio_within(a: nat, b: nat, e: nat)
    requires
        a <= pow2(e),
        a <= 1_000_000,
        1 <= b <= 1_000_000,
        e <= 1000,
    ensures
        within(spec_ratio(a, b), e),
{
    reveal(size);
    let u = pow2(1074) as int;
    lemma_real_within(a, e);
    lemma_exact_integer(b);
    lemma_many_units();
    assert(b * u >= u) by (nonlinear_arith)
        requires b >= 1, u > 0;
    lemma_over_within(spec_real(a), spec_real(b), e);
}

/// Numbers below one power of two are below a larger one.
pub proof fn lemma_within_more(x: Real, e: nat, f: nat)
    requires
        within(x, e),
        e <= f,
    ensures
        within(x, f),
{
    reveal(size);
    let u = pow2(1074);
    if e < f {
        lemma_pow2_strictly_increases(e, f);
    }
    assert(pow2(e) * u <= pow2(f) * u) by (nonlinear_arith)
        requires pow2(e) <= pow2(f);
}

} // verus!
