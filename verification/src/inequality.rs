//! The Gini coefficient as it is computed, and as it is exactly.
use crate::accuracy::{
    amounts, int_sum, is_amount, lemma_distance_error, lemma_gap, lemma_near_sums, lemma_over_error,
    lemma_rounding_error, lemma_sum_error, lemma_times_error, near, PARTS,
};
use crate::binary64::{spec_ratio, spec_real, Real};
use crate::bounds::{
    lemma_exact_integer, lemma_one, lemma_pattern, lemma_product_pattern, lemma_quotient_pattern,
    plain,
};
use crate::metrics::{distances, some_negative, spec_gini};
use crate::rounding::{
    lemma_nearest_exact, lemma_nearest_ordered, lemma_units_order, lemma_units_scaled, nearest,
    units, BINADE,
};
use crate::world::real_sum;
use vstd::arithmetic::power2::*;
use vstd::prelude::*;

verus! {

/// The sum of what is made of each number.
pub open spec fn summed(s: Seq<Real>, f: spec_fn(Real) -> int) -> int
    decreases s.len(),
{
    if s.len() == 0 {
        0
    } else {
        summed(s.drop_last(), f) + f(s.last())
    }
}

/// The exact sum of numbers, in units.
pub open spec fn exact_sum(s: Seq<Real>) -> int {
    summed(s, |x: Real| x.value())
}

/// The exact distance of two numbers, in units.
pub open spec fn apart(x: Real, y: Real) -> int {
    if x.value() < y.value() {
        y.value() - x.value()
    } else {
        x.value() - y.value()
    }
}

/// The exact distance to a number.
pub open spec fn from(x: Real) -> spec_fn(Real) -> int {
    |y: Real| apart(x, y)
}

/// The exact sum of a number's distances to numbers.
pub open spec fn row(x: Real, s: Seq<Real>) -> int {
    summed(s, from(x))
}

/// The exact sum of distances to numbers.
pub open spec fn row_to(s: Seq<Real>) -> spec_fn(Real) -> int {
    |x: Real| row(x, s)
}

/// The exact sum of the distances of all pairs, each both ways round.
pub open spec fn spread(s: Seq<Real>) -> int {
    summed(s, row_to(s))
}

/// The order of numbers makes no difference to a sum.
proof fn lemma_summed_permuted(a: Seq<Real>, b: Seq<Real>, f: spec_fn(Real) -> int)
    requires
        a.to_multiset() == b.to_multiset(),
    ensures
        summed(a, f) == summed(b, f),
    decreases a.len(),
{
    broadcast use vstd::seq_lib::group_to_multiset_ensures;

    assert(a.len() == a.to_multiset().len() && b.len() == b.to_multiset().len());
    if a.len() > 0 {
        let n = a.len() - 1;
        let x = a[n];
        assert(a.contains(x));
        assert(a.to_multiset().count(x) > 0);
        assert(b.to_multiset().count(x) > 0);
        assert(b.contains(x));
        let j = choose|j: int| 0 <= j < b.len() && b[j] == x;
        assert(a.drop_last() =~= a.remove(n));
        assert(a.drop_last().to_multiset() =~= b.remove(j).to_multiset());
        lemma_summed_permuted(a.drop_last(), b.remove(j), f);
        lemma_summed_removed(b, j, f);
    }
}

/// A sum without one of its parts.
proof fn lemma_summed_removed(s: Seq<Real>, j: int, f: spec_fn(Real) -> int)
    requires
        0 <= j < s.len(),
    ensures
        summed(s, f) == summed(s.remove(j), f) + f(s[j]),
    decreases s.len(),
{
    let rest = s.drop_last();
    if j == s.len() - 1 {
        assert(s.remove(j) =~= rest);
    } else {
        lemma_summed_removed(rest, j, f);
        assert(s.remove(j).drop_last() =~= rest.remove(j));
        assert(s.remove(j).last() == s.last());
    }
}

/// The exact measures do not depend on the order.
proof fn lemma_exact_permuted(a: Seq<Real>, b: Seq<Real>)
    requires
        a.to_multiset() == b.to_multiset(),
    ensures
        a.len() == b.len(),
        exact_sum(a) == exact_sum(b),
        spread(a) == spread(b),
{
    a.to_multiset_ensures();
    b.to_multiset_ensures();
    lemma_summed_permuted(a, b, |x: Real| x.value());
    assert(row_to(a) =~= row_to(b)) by {
        assert forall|x: Real| #[trigger] row_to(a)(x) == row_to(b)(x) by {
            lemma_summed_permuted(a, b, from(x));
        }
    }
    lemma_summed_permuted(a, b, row_to(a));
}

/// The exact sum, number by number.
proof fn lemma_exact_sum(s: Seq<Real>)
    ensures
        exact_sum(s) == int_sum(amounts(s)),
    decreases s.len(),
{
    if s.len() > 0 {
        lemma_exact_sum(s.drop_last());
        assert(amounts(s).drop_last() =~= amounts(s.drop_last()));
    }
}

/// The exact distances of all pairs.
spec fn gaps(s: Seq<Real>) -> Seq<int> {
    let n = s.len();
    Seq::new(n * n, |k: int| apart(s[k / (n as int)], s[k % (n as int)]))
}

/// The exact distances up to the `j`th of the `i`th row.
proof fn lemma_gaps_in_row(s: Seq<Real>, i: int, j: int)
    requires
        0 <= i < s.len(),
        0 <= j <= s.len(),
    ensures
        0 <= i * s.len() + j <= s.len() * s.len(),
        int_sum(gaps(s).take(i * s.len() + j)) == int_sum(gaps(s).take((i * s.len()) as int))
            + summed(s.take(j), from(s[i])),
    decreases j,
{
    let n = s.len() as int;
    let all = gaps(s);
    assert(0 <= i * n && i * n + n <= n * n) by (nonlinear_arith)
        requires 0 <= i < n;
    if j > 0 {
        lemma_gaps_in_row(s, i, j - 1);
        let k = i * n + (j - 1);
        vstd::arithmetic::div_mod::lemma_fundamental_div_mod_converse(k, n, i, j - 1);
        assert(all.take(k + 1).drop_last() =~= all.take(k));
        assert(all.take(k + 1).last() == apart(s[i], s[j - 1]));
        assert(s.take(j).drop_last() =~= s.take(j - 1));
    } else {
        assert(s.take(0).len() == 0);
    }
}

/// The exact distances of the first `i` rows.
proof fn lemma_gaps(s: Seq<Real>, i: int)
    requires
        0 <= i <= s.len(),
    ensures
        0 <= i * s.len() <= s.len() * s.len(),
        int_sum(gaps(s).take((i * s.len()) as int)) == summed(s.take(i), row_to(s)),
    decreases i,
{
    let n = s.len() as int;
    assert(0 <= i * n <= n * n) by (nonlinear_arith)
        requires 0 <= i <= n;
    if i > 0 {
        lemma_gaps(s, i - 1);
        lemma_gaps_in_row(s, i - 1, n);
        assert(i * n == (i - 1) * n + n) by (nonlinear_arith);
        assert(s.take(n) =~= s);
        assert(s.take(i).drop_last() =~= s.take(i - 1));
        assert(s.take(i).last() == s[i - 1]);
    } else {
        assert(0 * n == 0);
        assert(gaps(s).take(0).len() == 0);
        assert(s.take(0).len() == 0);
    }
}

/// All exact distances add up to the spread.
proof fn lemma_spread(s: Seq<Real>)
    ensures
        int_sum(gaps(s)) == spread(s),
{
    lemma_gaps(s, s.len() as int);
    assert(gaps(s).take((s.len() * s.len()) as int) =~= gaps(s));
    assert(s.take(s.len() as int) =~= s);
}

/// All numbers are amounts.
pub open spec fn all_amounts(s: Seq<Real>) -> bool {
    forall|i: int| 0 <= i < s.len() ==> is_amount(#[trigger] s[i])
}

proof fn lemma_all_but_last(s: Seq<Real>)
    requires
        all_amounts(s),
        s.len() > 0,
    ensures
        all_amounts(s.drop_last()),
        is_amount(s.last()),
{
    assert(is_amount(s[s.len() - 1]));
    assert forall|i: int| 0 <= i < s.drop_last().len() implies is_amount(
        #[trigger] s.drop_last()[i],
    ) by {
        assert(s.drop_last()[i] == s[i]);
    }
}

/// The distances to a number are no more than its copies and the numbers together.
proof fn lemma_row_bound(x: Real, s: Seq<Real>)
    requires
        all_amounts(s),
        is_amount(x),
    ensures
        0 <= exact_sum(s),
        0 <= row(x, s) <= s.len() * x.value() + exact_sum(s),
    decreases s.len(),
{
    if s.len() > 0 {
        lemma_all_but_last(s);
        lemma_row_bound(x, s.drop_last());
        let n = s.len() - 1;
        let v = x.value();
        assert(s.len() * v == n * v + v) by (nonlinear_arith)
            requires s.len() == n + 1;
    } else {
        assert(0 * x.value() == 0);
    }
}

/// The distances to one of the numbers, less what it has to itself.
proof fn lemma_own_row_bound(s: Seq<Real>, j: int)
    requires
        all_amounts(s),
        0 <= j < s.len(),
    ensures
        row(s[j], s) <= (s.len() - 2) * s[j].value() + exact_sum(s),
    decreases s.len(),
{
    let x = s[j];
    let rest = s.drop_last();
    let n = s.len() as int;
    let v = x.value();
    lemma_all_but_last(s);
    assert((n - 1) * v == (n - 2) * v + v && (n - 2) * v == (n - 3) * v + v) by (nonlinear_arith);
    if j == n - 1 {
        lemma_row_bound(x, rest);
    } else {
        assert(rest[j] == x);
        lemma_own_row_bound(rest, j);
    }
}

/// The spread is no more than twice the sum for each number but one.
proof fn lemma_spread_bound(s: Seq<Real>, i: int)
    requires
        all_amounts(s),
        0 <= i <= s.len(),
    ensures
        summed(s.take(i), row_to(s)) <= (s.len() - 2) * exact_sum(s.take(i)) + i * exact_sum(s),
        0 <= summed(s.take(i), row_to(s)),
    decreases i,
{
    let n = s.len() as int;
    let t = exact_sum(s);
    if i > 0 {
        lemma_spread_bound(s, i - 1);
        lemma_own_row_bound(s, i - 1);
        lemma_row_bound(s[i - 1], s);
        assert(s.take(i).drop_last() =~= s.take(i - 1));
        assert(s.take(i).last() == s[i - 1]);
        let a = exact_sum(s.take(i - 1));
        let v = s[i - 1].value();
        assert((n - 2) * (a + v) == (n - 2) * a + (n - 2) * v) by (nonlinear_arith);
        assert(i * t == (i - 1) * t + t) by (nonlinear_arith);
    } else {
        assert(s.take(0).len() == 0);
        assert((n - 2) * 0 == 0 && 0 * t == 0);
    }
}

/// The exact sum and the spread of amounts.
proof fn lemma_exact_bounds(s: Seq<Real>)
    requires
        all_amounts(s),
    ensures
        0 <= exact_sum(s),
        s.len() > 0 ==> 0 <= spread(s) <= 2 * ((s.len() - 1) * exact_sum(s)),
{
    let n = s.len() as int;
    let t = exact_sum(s);
    lemma_row_bound(Real { bits: 0 }, s);
    lemma_spread_bound(s, n);
    assert(s.take(n) =~= s);
    assert((n - 2) * t + n * t == 2 * ((n - 1) * t)) by (nonlinear_arith);
}

/// Numbers whose Gini coefficient is made of no sum that overflows: amounts that add up to half
/// of one at least.
pub open spec fn is_measurable(values: Seq<Real>) -> bool {
    &&& 0 < values.len() <= 1_000_000
    &&& all_amounts(values)
    &&& 2 * exact_sum(values) >= pow2(1074)
    &&& real_sum(values).is_finite()
    &&& real_sum(distances(values)).is_finite()
    &&& spec_real(2).times(spec_real(values.len())).times(real_sum(values)).is_finite()
}

/// By how many `2^-53`ths a computed coefficient of so many numbers may be off.
pub open spec fn slack(n: nat) -> nat {
    2 * n * n + 4 * n + 9
}

/// A million squared.
proof fn lemma_square(n: nat)
    requires
        n <= 1_000_000,
    ensures
        n * n <= 1_000_000_000_000,
        n <= n * n,
{
    assert(n * n <= 1_000_000_000_000) by (nonlinear_arith)
        requires n <= 1_000_000;
    assert(n <= n * n) by (nonlinear_arith);
}

/// How near the computed sum of distances is to the exact one.
proof fn lemma_computed_spread(values: Seq<Real>)
    requires
        is_measurable(values),
    ensures
        is_amount(real_sum(distances(values))),
        near(
            real_sum(distances(values)).value(),
            spread(values),
            (2 * (values.len() * values.len()) + 2) as nat,
        ),
{
    let n = values.len();
    let all = distances(values);
    let m = (n * n) as int;
    lemma_square(n);
    assert forall|k: int| 0 <= k < m implies is_amount(#[trigger] all[k]) && near(
        amounts(all)[k],
        gaps(values)[k],
        1,
    ) by {
        vstd::arithmetic::div_mod::lemma_fundamental_div_mod(k, n as int);
        assert(0 <= k / (n as int) < n && 0 <= k % (n as int) < n) by (nonlinear_arith)
            requires 0 <= k < n * n, n > 0;
        lemma_distance_error(values[k / (n as int)], values[k % (n as int)]);
    }
    lemma_sum_error(all);
    assert forall|k: int| 0 <= k < amounts(all).len() implies near(
        #[trigger] amounts(all)[k],
        gaps(values)[k],
        1,
    ) by {
        assert(is_amount(all[k]));
    }
    lemma_near_sums(amounts(all), gaps(values));
    lemma_spread(values);
    lemma_exact_bounds(values);
    let e = real_sum(all).value();
    let c = int_sum(amounts(all));
    let d = spread(values);
    let two = 2 * m;
    assert((2 * all.len()) as nat * c == two * d + two * (c - d)) by (nonlinear_arith)
        requires two == 2 * all.len();
    assert(two * (c - d) <= d) by (nonlinear_arith)
        requires
            0 <= two <= PARTS,
            (c - d) * PARTS <= d,
            0 <= d,
    ;
    assert((2 * (n * n) + 2) as nat * d == two * d + 2 * d) by (nonlinear_arith)
        requires two == 2 * (n * n);
}

/// How near the computed divisor is to the exact one.
proof fn lemma_computed_divisor(values: Seq<Real>)
    requires
        is_measurable(values),
    ensures
        ({
            let n = values.len();
            let b = spec_real(2).times(spec_real(n)).times(real_sum(values));
            &&& is_amount(b)
            &&& near(b.value(), 2 * n * exact_sum(values), (2 * n + 2) as nat)
        }),
        is_amount(real_sum(values)),
        2 * real_sum(values).value() >= exact_sum(values),
        real_sum(values).value() <= 2 * exact_sum(values),
{
    let n = values.len();
    let f = real_sum(values).value();
    let t = exact_sum(values);
    let b = spec_real(2).times(spec_real(n)).times(real_sum(values)).value();
    lemma_pow2_pos(1074);
    lemma_sum_error(values);
    lemma_exact_sum(values);
    lemma_times_error(n, real_sum(values));
    let c = 2 * n * t;
    assert((2 * n) as nat * t == c) by (nonlinear_arith)
        requires c == 2 * n * t;
    assert(c <= 2_000_000 * t) by (nonlinear_arith)
        requires c == 2 * n * t, n <= 1_000_000, t >= 0;
    let g = 2 * n * f;
    assert((g - c) * PARTS == 2 * n * ((f - t) * PARTS)) by (nonlinear_arith)
        requires g == 2 * n * f, c == 2 * n * t;
    assert(-(2 * n * c) <= 2 * n * ((f - t) * PARTS) <= 2 * n * c) by (nonlinear_arith)
        requires -c <= (f - t) * PARTS <= c, n >= 0;
    assert(g <= 2 * c) by (nonlinear_arith)
        requires g == 2 * n * f, c == 2 * n * t, f <= 2 * t, n >= 0;
    assert((2 * n + 2) as nat * c == 2 * n * c + 2 * c) by (nonlinear_arith);
}

/// What it is that a sum of a quarter at least is not below.
proof fn lemma_tiny()
    ensures
        plain(spec_ratio(1, 1_000_000_000_000)),
        4 * spec_ratio(1, 1_000_000_000_000).value() <= pow2(1074),
{
    let u = pow2(1074);
    let b = BINADE as nat;
    let x = spec_real(1);
    let y = spec_real(1_000_000_000_000);
    let q = 1_000_000_000_000 * u;
    lemma_one();
    lemma_pow2_pos(1074);
    lemma_exact_integer(1_000_000_000_000);
    assert(q > 0);
    lemma_quotient_pattern(x, y);
    lemma2_to64();
    lemma2_to64_rest();
    lemma_units_scaled(b, 1020);
    lemma_pow2_adds(52, 1020);
    lemma_pow2_adds(2, 1072);
    let k = (1020 * b + b) as nat;
    let v = pow2(1072);
    assert(units(k) == v && 4 * v == u);
    assert(u * u <= v * q) by (nonlinear_arith)
        requires 4 * v == u, q == 1_000_000_000_000 * u, u > 0;
    lemma_nearest_ordered(u * u, v * q, q);
    lemma_nearest_exact(v * q, q, k);
    lemma_pattern(nearest(u * u, q));
    lemma_units_order(k, nearest(u * u, q));
}

/// How near a quotient is, of numbers that are near to those of another one.
proof fn lemma_quotient_bound(
    g: int,
    b: int,
    e: int,
    d: int,
    q: int,
    u: int,
    n: int,
    m: int,
)
    requires
        1 <= n <= m <= 1_000_000_000_000,
        0 <= d <= q,
        near(e, d, (2 * m + 2) as nat),
        near(b, q, (2 * n + 2) as nat),
        0 <= g <= 2 * u,
        near(g * b, e * u, 1) || -b <= 2 * (g * b - e * u) <= b,
        u >= PARTS,
    ensures
        -((2 * m + 4 * n + 9) * (q * u)) <= (g * q - d * u) * PARTS <= (2 * m + 4 * n + 9) * (q
            * u),
{
    let w = PARTS as int;
    let qu = q * u;
    let first = (g * (q - b)) * w;
    let second = (g * b - e * u) * w;
    let third = ((e - d) * u) * w;
    assert((g * q - d * u) * w == first + second + third) by (nonlinear_arith)
        requires
            first == (g * (q - b)) * w,
            second == (g * b - e * u) * w,
            third == ((e - d) * u) * w,
    ;
    let c = (2 * n + 2) * q;
    assert((2 * n + 2) as nat * q == c);
    assert(-(2 * u * c) <= g * ((q - b) * w) <= 2 * u * c) by (nonlinear_arith)
        requires 0 <= g <= 2 * u, -c <= (q - b) * w <= c;
    assert(first == g * ((q - b) * w)) by (nonlinear_arith)
        requires first == (g * (q - b)) * w;
    assert(2 * u * c == (4 * n + 4) * qu) by (nonlinear_arith)
        requires c == (2 * n + 2) * q, qu == q * u;
    let h = (2 * m + 2) * d;
    assert((2 * m + 2) as nat * d == h);
    assert(third == u * ((e - d) * w)) by (nonlinear_arith)
        requires third == ((e - d) * u) * w;
    assert(-(u * h) <= u * ((e - d) * w) <= u * h) by (nonlinear_arith)
        requires -h <= (e - d) * w <= h, u >= 0;
    assert(u * h <= (2 * m + 2) * qu) by (nonlinear_arith)
        requires h == (2 * m + 2) * d, 0 <= d <= q, qu == q * u, u >= 0, m >= 1;
    assert(h <= 2_000_000_000_002 * d) by (nonlinear_arith)
        requires h == (2 * m + 2) * d, m <= 1_000_000_000_000, d >= 0;
    assert(c <= 2_000_000_000_002 * q) by (nonlinear_arith)
        requires c == (2 * n + 2) * q, n <= 1_000_000_000_000, q >= 0;
    assert(0 <= e <= 2 * q && 0 <= b <= 2 * q);
    assert(-(3 * qu) <= second <= 3 * qu) by {
        assert(0 <= e * u <= 2 * qu) by (nonlinear_arith)
            requires 0 <= e <= 2 * q, qu == q * u, u >= 0;
        assert(b * w <= 2 * qu) by (nonlinear_arith)
            requires 0 <= b <= 2 * q, qu == q * u, 0 <= w <= u, q >= 0;
        if !near(g * b, e * u, 1) {
            let k = g * b - e * u;
            assert(-(b * w) <= 2 * (k * w) <= b * w) by (nonlinear_arith)
                requires -b <= 2 * k <= b, w >= 0;
        }
    }
    assert((2 * m + 4 * n + 9) * qu == (4 * n + 4) * qu + (2 * m + 2) * qu + 3 * qu)
        by (nonlinear_arith);
}

/// The Gini coefficient that is computed is the exact one, the sum of the distances by twice
/// the number of values times their sum, up to `2 n^2 + 4 n + 9` parts in `2^53` of one.
pub proof fn gini_is_accurate(values: Seq<Real>)
    requires
        is_measurable(values),
    ensures
        ({
            let n = values.len();
            let g = spec_gini(values);
            let q = 2 * n * exact_sum(values);
            let u = pow2(1074);
            &&& plain(g)
            &&& q > 0
            &&& -(slack(n) * (q * u)) <= (g.value() * q - spread(values) * u) * PARTS <= slack(n)
                * (q * u)
        }),
{
    let n = values.len();
    let u = pow2(1074) as int;
    let q = 2 * n * exact_sum(values);
    let d = spread(values);
    let x = real_sum(distances(values));
    let y = spec_real(2).times(spec_real(n)).times(real_sum(values));
    lemma_big();
    lemma_square(n);
    lemma_one();
    lemma_gini_is_quotient(values);
    lemma_computed_spread(values);
    lemma_computed_divisor(values);
    let e = x.value();
    let b = y.value();
    let m = n * n;
    let g0 = x.over(y);
    lemma_over_error(x, y);
    lemma_quotient_bound(g0.value(), b, e, d, q, u, n as int, m as int);
    let s = slack(n);
    assert(s == 2 * m + 4 * n + 9) by (nonlinear_arith)
        requires s == 2 * n * n + 4 * n + 9, m == n * n;
    let g = spec_gini(values);
    assert(g == g0.clamped(Real { bits: 0 }, spec_real(1)));
    if u < g0.value() {
        assert(g.value() == u);
        assert(0 <= u * q - d * u <= g0.value() * q - d * u) by (nonlinear_arith)
            requires u <= g0.value(), d <= q, u >= 0, q >= 0;
        assert(0 <= (s * (q * u))) by (nonlinear_arith)
            requires q >= 0, u >= 0, s >= 0;
    } else {
        assert(g == g0);
    }
}

/// One is many units.
proof fn lemma_big()
    ensures
        pow2(1074) >= 0x1_0000_0000_0000_0000_0000_0000_0000_0000,
        pow2(1074) >= PARTS,
{
    lemma2_to64();
    lemma2_to64_rest();
    lemma_pow2_adds(64, 64);
    lemma_pow2_strictly_increases(128, 1074);
}

/// A quotient by no less than half is two at most.
proof fn lemma_at_most_two(x: Real, y: Real)
    requires
        is_amount(x),
        is_amount(y),
        y.value() > 0,
        x.value() <= 2 * y.value(),
    ensures
        is_amount(x.over(y)),
        x.over(y).value() <= 2 * pow2(1074),
{
    let u = pow2(1074);
    let a = units(x.magnitude());
    let b = units(y.magnitude());
    let two = spec_real(2);
    lemma_exact_integer(2);
    lemma_quotient_pattern(x, y);
    lemma_pattern(nearest(a * u, b));
    assert(a * u <= (2 * u) * b) by (nonlinear_arith)
        requires a <= 2 * b;
    lemma_nearest_ordered(a * u, (2 * u) * b, b);
    lemma_nearest_exact((2 * u) * b, b, two.magnitude());
    lemma_units_order(two.magnitude(), nearest(a * u, b));
}

/// What is off by a part of a common factor is off by that part.
proof fn lemma_cancel(a: int, c: int, q: int)
    requires
        q > 0,
        a * q <= c * q,
    ensures
        a <= c,
{
    assert(a <= c) by (nonlinear_arith)
        requires q > 0, a * q <= c * q;
}

/// The Gini coefficient does not depend on the order of the values, but for rounding. Of no more
/// than 1499 values it changes by less than `10^-9`.
pub proof fn gini_ignores_order(values: Seq<Real>, others: Seq<Real>)
    requires
        is_measurable(values),
        is_measurable(others),
        values.to_multiset() == others.to_multiset(),
    ensures
        ({
            let off = spec_gini(values).value() - spec_gini(others).value();
            let u = pow2(1074);
            &&& -(2 * slack(values.len()) * u) <= off * PARTS <= 2 * slack(values.len()) * u
            &&& values.len() <= 1_499 ==> -(u as int) < off * 1_000_000_000 < u
        }),
{
    let n = values.len();
    let u = pow2(1074) as int;
    let t = exact_sum(values);
    let q = 2 * n * t;
    let s = slack(n) as int;
    let g = spec_gini(values).value();
    let h = spec_gini(others).value();
    let d = spread(values);
    lemma_exact_permuted(values, others);
    gini_is_accurate(values);
    gini_is_accurate(others);
    lemma_big();
    let w = PARTS as int;
    assert((g * q - d * u) * w - (h * q - d * u) * w == ((g - h) * w) * q) by (nonlinear_arith);
    assert(2 * (s * (q * u)) == (2 * s * u) * q) by (nonlinear_arith);
    assert((-(2 * s * u)) * q == -((2 * s * u) * q)) by (nonlinear_arith);
    lemma_cancel((g - h) * w, 2 * s * u, q);
    lemma_cancel(-(2 * s * u), (g - h) * w, q);
    if n <= 1_499 {
        assert(s <= 4_500_007) by (nonlinear_arith)
            requires s == 2 * n * n + 4 * n + 9, n <= 1_499;
        assert(2 * s * u <= 9_000_014 * u) by (nonlinear_arith)
            requires s <= 4_500_007, u >= 0;
    }
}

/// The Gini coefficient of `n` values is no more than `(n - 1) / n`, but for rounding. Of no more
/// than 2121 values it is above by less than `10^-9`.
pub proof fn gini_is_below_one(values: Seq<Real>)
    requires
        is_measurable(values),
    ensures
        ({
            let n = values.len();
            let u = pow2(1074);
            let above = spec_gini(values).value() * n - (n - 1) * u;
            &&& above * PARTS <= slack(n) * (n * u)
            &&& n <= 2_121 ==> above * 1_000_000_000 < n * u
        }),
{
    let n = values.len() as int;
    let u = pow2(1074) as int;
    let t = exact_sum(values);
    let q = 2 * n * t;
    let s = slack(values.len()) as int;
    let g = spec_gini(values).value();
    let d = spread(values);
    let w = PARTS as int;
    gini_is_accurate(values);
    lemma_exact_bounds(values);
    lemma_big();
    assert((2 * values.len()) * exact_sum(values) == q);
    let above = g * n - (n - 1) * u;
    assert(n * (d * u) <= ((n - 1) * u) * q) by (nonlinear_arith)
        requires d <= 2 * ((n - 1) * t), q == 2 * n * t, u >= 0, n >= 1;
    assert(n * ((g * q - d * u) * w) <= n * (s * (q * u))) by (nonlinear_arith)
        requires (g * q - d * u) * w <= s * (q * u), n >= 0;
    let a = g * q;
    let x = d * u;
    let y = ((n - 1) * u) * q;
    assert(above * q == n * a - y) by (nonlinear_arith)
        requires above == g * n - (n - 1) * u, a == g * q, y == ((n - 1) * u) * q;
    assert((above * w) * q == (above * q) * w) by (nonlinear_arith);
    assert(n * ((a - x) * w) == (n * a - n * x) * w) by (nonlinear_arith);
    assert((n * a - y) * w <= (n * a - n * x) * w) by (nonlinear_arith)
        requires n * x <= y, w >= 0;
    assert(n * (s * (q * u)) == (s * (n * u)) * q) by (nonlinear_arith);
    lemma_cancel(above * w, s * (n * u), q);
    if n <= 2_121 {
        assert(s <= 9_005_775) by (nonlinear_arith)
            requires s == 2 * n * n + 4 * n + 9, 0 <= n <= 2_121;
        let nu = n * u;
        assert(nu > 0) by (nonlinear_arith)
            requires nu == n * u, n >= 1, u > 0;
        assert(s * nu <= 9_005_775 * nu) by (nonlinear_arith)
            requires s <= 9_005_775, nu >= 0;
    }
}

/// One of some numbers is the largest.
proof fn lemma_largest(s: Seq<Real>) -> (m: int)
    requires
        s.len() > 0,
    ensures
        0 <= m < s.len(),
        forall|i: int| 0 <= i < s.len() ==> (#[trigger] s[i]).value() <= s[m].value(),
    decreases s.len(),
{
    let n = s.len() - 1;
    if n == 0 {
        0
    } else {
        let k = lemma_largest(s.drop_last());
        assert forall|i: int| 0 <= i < n implies (#[trigger] s[i]).value() <= s[k].value() by {
            assert(s.drop_last()[i] == s[i]);
        }
        if s[k].value() < s[n].value() {
            n
        } else {
            k
        }
    }
}

/// A sum is no more than the largest for each.
proof fn lemma_sum_below(s: Seq<Real>, v: int)
    requires
        forall|i: int| 0 <= i < s.len() ==> (#[trigger] s[i]).value() <= v,
    ensures
        exact_sum(s) <= s.len() * v,
    decreases s.len(),
{
    if s.len() > 0 {
        let rest = s.drop_last();
        assert forall|i: int| 0 <= i < rest.len() implies (#[trigger] rest[i]).value() <= v by {
            assert(rest[i] == s[i]);
        }
        lemma_sum_below(rest, v);
        assert(s[s.len() - 1].value() <= v);
        let n = rest.len() as int;
        assert(s.len() * v == n * v + v) by (nonlinear_arith)
            requires s.len() == n + 1;
    } else {
        assert(0 * v == 0);
    }
}

/// A row is no less than one distance in it.
proof fn lemma_row_holds(x: Real, s: Seq<Real>, j: int)
    requires
        0 <= j < s.len(),
    ensures
        apart(x, s[j]) <= row(x, s),
    decreases s.len(),
{
    lemma_row_positive(x, s.drop_last());
    if j < s.len() - 1 {
        assert(s.drop_last()[j] == s[j]);
        lemma_row_holds(x, s.drop_last(), j);
    }
}

proof fn lemma_row_positive(x: Real, s: Seq<Real>)
    ensures
        0 <= row(x, s),
    decreases s.len(),
{
    if s.len() > 0 {
        lemma_row_positive(x, s.drop_last());
    }
}

/// The spread is no less than one row.
proof fn lemma_spread_holds(s: Seq<Real>, i: int, n: int)
    requires
        0 <= i < n <= s.len(),
    ensures
        row(s[i], s) <= summed(s.take(n), row_to(s)),
    decreases n,
{
    assert(s.take(n).drop_last() =~= s.take(n - 1));
    assert(s.take(n).last() == s[n - 1]);
    lemma_row_positive(s[n - 1], s);
    if i < n - 1 {
        lemma_spread_holds(s, i, n - 1);
    } else {
        lemma_rows_positive(s, n - 1);
    }
}

proof fn lemma_rows_positive(s: Seq<Real>, n: int)
    requires
        0 <= n <= s.len(),
    ensures
        0 <= summed(s.take(n), row_to(s)),
    decreases n,
{
    if n > 0 {
        assert(s.take(n).drop_last() =~= s.take(n - 1));
        assert(s.take(n).last() == s[n - 1]);
        lemma_row_positive(s[n - 1], s);
        lemma_rows_positive(s, n - 1);
    }
}

/// Equal numbers have no spread.
proof fn lemma_no_spread(s: Seq<Real>, v: int, n: int)
    requires
        0 <= n <= s.len(),
        forall|i: int| 0 <= i < s.len() ==> (#[trigger] s[i]).value() == v,
    ensures
        summed(s.take(n), row_to(s)) == 0,
    decreases n,
{
    if n > 0 {
        lemma_no_spread(s, v, n - 1);
        assert(s.take(n).drop_last() =~= s.take(n - 1));
        assert(s.take(n).last() == s[n - 1]);
        lemma_no_row(s[n - 1], s, v);
    } else {
        assert(s.take(0).len() == 0);
    }
}

proof fn lemma_no_row(x: Real, s: Seq<Real>, v: int)
    requires
        x.value() == v,
        forall|i: int| 0 <= i < s.len() ==> (#[trigger] s[i]).value() == v,
    ensures
        row(x, s) == 0,
    decreases s.len(),
{
    if s.len() > 0 {
        let rest = s.drop_last();
        assert(s[s.len() - 1].value() == v);
        assert forall|i: int| 0 <= i < rest.len() implies (#[trigger] rest[i]).value() == v by {
            assert(rest[i] == s[i]);
        }
        lemma_no_row(x, rest, v);
    }
}

/// What a quotient is of nothing.
proof fn lemma_no_quotient(g: int, b: int)
    requires
        near(g * b, 0, 1) || -b <= 2 * (g * b) <= b,
        b > 0,
        g >= 0,
    ensures
        g == 0,
{
    assert(1 * 0int == 0);
    assert(2 * (g * b) <= b);
    assert(g == 0) by (nonlinear_arith)
        requires 2 * (g * b) <= b, b > 0, g >= 0;
}

/// Values that differ have a spread, and no small one.
proof fn lemma_spread_of_others(values: Seq<Real>, i: int, m: int)
    requires
        is_measurable(values),
        0 <= i < values.len(),
        0 <= m < values.len(),
        forall|k: int| 0 <= k < values.len() ==> (#[trigger] values[k]).value()
            <= values[m].value(),
        values[i].value() < values[m].value(),
    ensures
        0 < spread(values),
        2 * values.len() * exact_sum(values) <= 2_000_000_000_000 * ((PARTS + 1) * spread(values)),
{
    let n = values.len();
    let t = exact_sum(values);
    let q = 2 * n * t;
    let d = spread(values);
    let top = values[m].value();
    let gap = top - values[i].value();
    let nn = n * n;
    lemma_square(n);
    assert(is_amount(values[i]) && is_amount(values[m]));
    lemma_units_order(values[i].magnitude(), values[m].magnitude());
    lemma_gap(values[i].magnitude(), values[m].magnitude());
    lemma_row_holds(values[m], values, i);
    lemma_spread_holds(values, m, n as int);
    assert(values.take(n as int) =~= values);
    lemma_sum_below(values, top);
    assert(q <= 2 * (nn * top)) by (nonlinear_arith)
        requires q == 2 * n * t, t <= n * top, nn == n * n;
    assert(top <= (PARTS + 1) * d) by (nonlinear_arith)
        requires top <= (PARTS + 1) * gap, gap <= d;
    assert(nn * top <= 1_000_000_000_000 * ((PARTS + 1) * d)) by (nonlinear_arith)
        requires 0 <= nn <= 1_000_000_000_000, 0 <= top <= (PARTS + 1) * d;
}

/// The Gini coefficient is zero of equal values, and of no others.
pub proof fn gini_is_zero_of_equals_only(values: Seq<Real>)
    requires
        is_measurable(values),
    ensures
        spec_gini(values).value() == 0 <==> forall|i: int, j: int|
            0 <= i < values.len() && 0 <= j < values.len() ==> (#[trigger] values[i]).value() == (
            #[trigger] values[j]).value(),
{
    let n = values.len();
    let u = pow2(1074) as int;
    let x = real_sum(distances(values));
    let y = spec_real(2).times(spec_real(n)).times(real_sum(values));
    let e = x.value();
    let b = y.value();
    let g = x.over(y).value();
    let d = spread(values);
    lemma_big();
    lemma_gini_is_quotient(values);
    lemma_over_error(x, y);
    let m = lemma_largest(values);
    let top = values[m].value();
    if forall|i: int| 0 <= i < values.len() ==> (#[trigger] values[i]).value() == top {
        lemma_no_spread(values, top, n as int);
        assert(values.take(n as int) =~= values);
        lemma_computed_spread(values);
        let two = (2 * (n * n) + 2) as nat;
        assert(two * d == 0) by (nonlinear_arith)
            requires d == 0;
        assert(e == 0);
        assert(e * u == 0);
        lemma_no_quotient(g, b);
    } else {
        let i = choose|i: int| 0 <= i < values.len() && (#[trigger] values[i]).value() != top;
        lemma_spread_of_others(values, i, m);
        assert(values[i].value() != values[m].value());
        lemma_not_nothing(g, b, e, d, u);
    }
}

/// A quotient of what is not nothing is not nothing.
proof fn lemma_not_nothing(g: int, b: int, e: int, d: int, u: int)
    requires
        0 < d <= 2 * e,
        0 < b <= 4_000_000_000_000 * ((PARTS + 1) * d),
        u >= 0x1_0000_0000_0000_0000_0000_0000_0000_0000,
        near(g * b, e * u, 1) || -b <= 2 * (g * b - e * u) <= b,
    ensures
        g != 0,
{
    let p = e * u;
    assert(p >= 0x1_0000_0000_0000_0000_0000_0000_0000_0000 * e) by (nonlinear_arith)
        requires u >= 0x1_0000_0000_0000_0000_0000_0000_0000_0000, e >= 0, p == e * u;
    if g == 0 {
        assert(g * b == 0) by (nonlinear_arith)
            requires g == 0;
        assert(b <= 8_000_000_000_000 * ((PARTS + 1) * e)) by (nonlinear_arith)
            requires b <= 4_000_000_000_000 * ((PARTS + 1) * d), d <= 2 * e;
        assert((PARTS + 1) * e == 0x20_0000_0000_0001 * e);
        if near(g * b, p, 1) {
            assert((0 - p) * PARTS == -(0x20_0000_0000_0000 * p));
            assert(p <= 0);
        } else {
            assert(2 * p <= b);
        }
        assert(e <= 0);
    }
}

/// The Gini coefficient of measurable numbers is a quotient, one at most.
proof fn lemma_gini_is_quotient(values: Seq<Real>)
    requires
        is_measurable(values),
    ensures
        ({
            let x = real_sum(distances(values));
            let y = spec_real(2).times(spec_real(values.len())).times(real_sum(values));
            &&& is_amount(x)
            &&& is_amount(y)
            &&& y.value() > 0
            &&& is_amount(x.over(y))
            &&& x.over(y).value() <= 2 * pow2(1074)
            &&& 0 <= spread(values) <= 2 * values.len() * exact_sum(values)
            &&& 0 < 2 * values.len() * exact_sum(values)
            &&& y.value() <= 2 * (2 * values.len() * exact_sum(values))
            &&& spread(values) <= 2 * x.value()
            &&& spec_gini(values) == x.over(y).clamped(Real { bits: 0 }, spec_real(1))
            &&& x.over(y).value() == 0 <==> spec_gini(values).value() == 0
        }),
{
    let n = values.len();
    let u = pow2(1074) as int;
    let t = exact_sum(values);
    let q = 2 * n * t;
    let d = spread(values);
    let total = real_sum(values);
    let x = real_sum(distances(values));
    let y = spec_real(2).times(spec_real(n)).times(total);
    lemma_big();
    lemma_square(n);
    lemma_one();
    lemma_tiny();
    lemma_exact_bounds(values);
    lemma_computed_spread(values);
    lemma_computed_divisor(values);
    assert(!some_negative(values)) by {
        assert forall|i: int| 0 <= i < values.len() implies !(#[trigger] values[i]).less(
            Real { bits: 0 },
        ) by {
            assert(is_amount(values[i]));
        }
    }
    assert(total.absolute() == total);
    let e = x.value();
    let b = y.value();
    assert(d <= q && q > 0) by (nonlinear_arith)
        requires d <= 2 * ((n - 1) * t), q == 2 * n * t, t > 0, n >= 1;
    let m = n * n;
    let c = (2 * n + 2) * q;
    assert((2 * n + 2) as nat * q == c);
    assert(0 <= c <= 2_000_002 * q) by (nonlinear_arith)
        requires c == (2 * n + 2) * q, n <= 1_000_000, q >= 0;
    let h = (2 * m + 2) * d;
    assert((2 * m + 2) as nat * d == h);
    assert(0 <= h <= 2_000_000_000_002 * d) by (nonlinear_arith)
        requires h == (2 * m + 2) * d, m <= 1_000_000_000_000, d >= 0, m >= 0;
    assert(4 * e <= 5 * q && 4 * q <= 5 * b);
    lemma_at_most_two(x, y);
}

/// Numbers, each multiplied by a factor.
pub open spec fn scaled(s: Seq<Real>, c: Real) -> Seq<Real> {
    s.map_values(|x: Real| x.times(c))
}

/// By how much a product may be off, in units squared and in twice `2^-53`ths.
spec fn play(c: Real) -> spec_fn(Real) -> int {
    |x: Real| 2 * (x.value() * c.value()) + pow2(1074) * PARTS
}

/// The computed product of two amounts.
proof fn lemma_product_error(x: Real, c: Real)
    requires
        is_amount(x),
        is_amount(c),
        is_amount(x.times(c)),
    ensures
        ({
            let off = x.times(c).value() * pow2(1074) - x.value() * c.value();
            -play(c)(x) <= 2 * (off * PARTS) <= play(c)(x)
        }),
{
    let u = pow2(1074);
    let p = units(x.magnitude()) * units(c.magnitude());
    lemma_pow2_pos(1074);
    lemma_product_pattern(x, c);
    lemma_pattern(nearest(p, u));
    lemma_rounding_error(p, u);
    let off = x.times(c).value() * u - p;
    assert(u * PARTS >= 0) by (nonlinear_arith)
        requires u >= 0, PARTS >= 0;
    assert(p >= 0);
    if !near(x.times(c).value() * u, p as int, 1) {
        assert(-(u * PARTS) <= 2 * (off * PARTS) <= u * PARTS) by (nonlinear_arith)
            requires -u <= 2 * off <= u, PARTS >= 0;
    }
}

/// The exact sum of computed products.
proof fn lemma_scaled_sum(s: Seq<Real>, c: Real)
    requires
        all_amounts(s),
        is_amount(c),
        all_amounts(scaled(s, c)),
    ensures
        ({
            let off = exact_sum(scaled(s, c)) * pow2(1074) - exact_sum(s) * c.value();
            -summed(s, play(c)) <= 2 * (off * PARTS) <= summed(s, play(c))
        }),
    decreases s.len(),
{
    let u = pow2(1074) as int;
    let v = c.value();
    if s.len() > 0 {
        let rest = s.drop_last();
        let x = s.last();
        let z = scaled(s, c);
        lemma_all_but_last(s);
        lemma_all_but_last(z);
        assert(z.drop_last() =~= scaled(rest, c));
        assert(z.last() == x.times(c));
        lemma_scaled_sum(rest, c);
        lemma_product_error(x, c);
        let a = exact_sum(scaled(rest, c));
        let b = exact_sum(rest);
        let y = x.times(c).value();
        let off = a * u - b * v;
        let more = y * u - x.value() * v;
        assert((a + y) * u - (b + x.value()) * v == off + more) by (nonlinear_arith)
            requires off == a * u - b * v, more == y * u - x.value() * v;
        assert((off + more) * PARTS == off * PARTS + more * PARTS) by (nonlinear_arith);
    } else {
        assert(0 * u == 0 && 0 * v == 0);
    }
}

/// The exact distance of computed products.
proof fn lemma_scaled_gap(x: Real, y: Real, c: Real)
    requires
        is_amount(x),
        is_amount(y),
        is_amount(c),
        is_amount(x.times(c)),
        is_amount(y.times(c)),
    ensures
        ({
            let off = apart(x.times(c), y.times(c)) * pow2(1074) - apart(x, y) * c.value();
            -(play(c)(x) + play(c)(y)) <= 2 * (off * PARTS) <= play(c)(x) + play(c)(y)
        }),
{
    let u = pow2(1074) as int;
    let v = c.value();
    let w = PARTS as int;
    let a = x.times(c).value();
    let b = y.times(c).value();
    let p = x.value();
    let q = y.value();
    let e = a * u - p * v;
    let f = b * u - q * v;
    let k = play(c)(x) + play(c)(y);
    lemma_product_error(x, c);
    lemma_product_error(y, c);
    // Both ways round, so that the absolute values can be compared.
    let one = (a - b) * u - (p - q) * v;
    assert(one == e - f) by (nonlinear_arith)
        requires
            one == (a - b) * u - (p - q) * v,
            e == a * u - p * v,
            f == b * u - q * v,
    ;
    assert((e - f) * w == e * w - f * w) by (nonlinear_arith);
    assert(-k <= 2 * (one * w) <= k);
    let g = apart(x.times(c), y.times(c));
    let h = apart(x, y);
    let off = g * u - h * v;
    lemma_pow2_pos(1074);
    assert(-k <= 2 * (off * w) <= k) by {
        let s = (a - b) * u;
        let t = (p - q) * v;
        assert(s >= 0 <==> a >= b) by (nonlinear_arith)
            requires s == (a - b) * u, u > 0;
        assert(p >= q ==> t >= 0) by (nonlinear_arith)
            requires t == (p - q) * v, v >= 0;
        assert(p < q ==> t <= 0) by (nonlinear_arith)
            requires t == (p - q) * v, v >= 0;
        let gs = if s < 0 {
            -s
        } else {
            s
        };
        let ht = if t < 0 {
            -t
        } else {
            t
        };
        assert(g * u == gs) by (nonlinear_arith)
            requires
                s == (a - b) * u,
                a < b ==> g == b - a && gs == -s,
                a >= b ==> g == a - b && gs == s,
        ;
        assert(h * v == ht) by (nonlinear_arith)
            requires
                t == (p - q) * v,
                p < q ==> h == q - p && ht == -t,
                p >= q ==> h == p - q && ht == t,
        ;
        assert(off == gs - ht);
        assert(one == s - t);
    }
}

/// The exact distances of a computed product to others.
proof fn lemma_scaled_row(x: Real, s: Seq<Real>, c: Real)
    requires
        is_amount(x),
        all_amounts(s),
        is_amount(c),
        is_amount(x.times(c)),
        all_amounts(scaled(s, c)),
    ensures
        ({
            let off = row(x.times(c), scaled(s, c)) * pow2(1074) - row(x, s) * c.value();
            let k = s.len() * play(c)(x) + summed(s, play(c));
            -k <= 2 * (off * PARTS) <= k
        }),
    decreases s.len(),
{
    let u = pow2(1074) as int;
    let v = c.value();
    let n = s.len() as int;
    let k = play(c)(x);
    if n > 0 {
        let rest = s.drop_last();
        let y = s.last();
        let z = scaled(s, c);
        lemma_all_but_last(s);
        lemma_all_but_last(z);
        assert(z.drop_last() =~= scaled(rest, c));
        assert(z.last() == y.times(c));
        lemma_scaled_row(x, rest, c);
        lemma_scaled_gap(x, y, c);
        let a = row(x.times(c), scaled(rest, c));
        let b = row(x, rest);
        let d = apart(x.times(c), y.times(c));
        let e = apart(x, y);
        let off = a * u - b * v;
        let more = d * u - e * v;
        assert((a + d) * u - (b + e) * v == off + more) by (nonlinear_arith)
            requires off == a * u - b * v, more == d * u - e * v;
        assert((off + more) * PARTS == off * PARTS + more * PARTS) by (nonlinear_arith);
        assert(n * k == (n - 1) * k + k) by (nonlinear_arith);
    } else {
        assert(0 * u == 0 && 0 * v == 0 && 0 * k == 0);
    }
}

/// The exact distances of computed products, row by row.
proof fn lemma_scaled_rows(s: Seq<Real>, c: Real, i: int)
    requires
        all_amounts(s),
        is_amount(c),
        all_amounts(scaled(s, c)),
        0 <= i <= s.len(),
    ensures
        ({
            let z = scaled(s, c);
            let off = summed(z.take(i), row_to(z)) * pow2(1074) - summed(s.take(i), row_to(s))
                * c.value();
            let k = s.len() * summed(s.take(i), play(c)) + i * summed(s, play(c));
            -k <= 2 * (off * PARTS) <= k
        }),
    decreases i,
{
    let u = pow2(1074) as int;
    let v = c.value();
    let n = s.len() as int;
    let z = scaled(s, c);
    let r = summed(s, play(c));
    if i > 0 {
        let x = s[i - 1];
        lemma_scaled_rows(s, c, i - 1);
        assert(z.take(i).drop_last() =~= z.take(i - 1));
        assert(s.take(i).drop_last() =~= s.take(i - 1));
        assert(z.take(i).last() == x.times(c));
        assert(s.take(i).last() == x);
        assert(is_amount(s[i - 1]) && is_amount(z[i - 1]));
        lemma_scaled_row(x, s, c);
        let a = summed(z.take(i - 1), row_to(z));
        let b = summed(s.take(i - 1), row_to(s));
        let d = row(x.times(c), z);
        let e = row(x, s);
        let off = a * u - b * v;
        let more = d * u - e * v;
        assert((a + d) * u - (b + e) * v == off + more) by (nonlinear_arith)
            requires off == a * u - b * v, more == d * u - e * v;
        assert((off + more) * PARTS == off * PARTS + more * PARTS) by (nonlinear_arith);
        let p = summed(s.take(i - 1), play(c));
        let k = play(c)(x);
        assert(n * (p + k) == n * p + n * k) by (nonlinear_arith);
        assert(i * r == (i - 1) * r + r) by (nonlinear_arith);
    } else {
        assert(z.take(0).len() == 0 && s.take(0).len() == 0);
        assert(0 * u == 0 && 0 * v == 0 && n * 0 == 0 && 0 * r == 0);
    }
}

/// By how much all products may be off.
proof fn lemma_play(s: Seq<Real>, c: Real)
    ensures
        summed(s, play(c)) == 2 * (exact_sum(s) * c.value()) + s.len() * (pow2(1074) * PARTS),
    decreases s.len(),
{
    let v = c.value();
    let k = pow2(1074) * PARTS;
    if s.len() > 0 {
        lemma_play(s.drop_last(), c);
        let t = exact_sum(s.drop_last());
        let x = s.last().value();
        let n = s.len() - 1;
        assert((t + x) * v == t * v + x * v) by (nonlinear_arith);
        assert(s.len() * k == n * k + k) by (nonlinear_arith)
            requires s.len() == n + 1;
    } else {
        assert(0 * v == 0 && 0 * k == 0);
    }
}

/// Quotients of what is off by little.
proof fn lemma_scaled_quotient(d: int, t: int, d2: int, t2: int, c: int, u: int, n: int, r: int)
    requires
        1 <= n <= 1_000_000,
        u >= 0x1_0000_0000_0000_0000_0000_0000_0000_0000,
        2 * t >= u,
        c >= u,
        0 <= d <= 2 * (n * t),
        r == 2 * (t * c) + n * (u * PARTS),
        -r <= 2 * ((t2 * u - t * c) * PARTS) <= r,
        -(2 * (n * r)) <= 2 * ((d2 * u - d * c) * PARTS) <= 2 * (n * r),
    ensures
        -(12 * (n * (t * t2))) <= (d * t2 - d2 * t) * PARTS <= 12 * (n * (t * t2)),
        t2 >= 0,
{
    let w = PARTS as int;
    let tc = t * c;
    assert(n * (u * PARTS) <= tc) by {
        let x = n * w;
        assert(x <= 1_000_000 * w) by (nonlinear_arith)
            requires x == n * w, n <= 1_000_000, w >= 0;
        assert(n * (u * PARTS) == x * u) by (nonlinear_arith)
            requires x == n * w, w == PARTS;
        assert(x * u <= tc) by (nonlinear_arith)
            requires 0 <= 2 * x <= u, tc == t * c, 2 * t >= u, c >= u, u >= 0;
    }
    assert(tc > 0) by (nonlinear_arith)
        requires tc == t * c, t > 0, c > 0;
    assert(0 <= r <= 3 * tc);
    let e = t2 * u - tc;
    let f = d2 * u - d * c;
    assert(e * PARTS == 0x20_0000_0000_0000 * e);
    assert(f * PARTS == 0x20_0000_0000_0000 * f);
    assert(tc <= 2 * (t2 * u));
    assert(t2 >= 0) by (nonlinear_arith)
        requires t2 * u > 0, u > 0;
    let ew = 2 * (e * w);
    let fw = 2 * (f * w);
    let x = d * t2 - d2 * t;
    assert(x * u == d * e - t * f) by {
        let p = t2 * u;
        let q = d2 * u;
        let dc = d * c;
        assert(d * (p - tc) == d * p - d * tc) by (nonlinear_arith);
        assert(t * (q - dc) == t * q - t * dc) by (nonlinear_arith);
        assert(d * tc == t * dc) by (nonlinear_arith)
            requires tc == t * c, dc == d * c;
        assert((d * t2 - d2 * t) * u == (d * t2) * u - (d2 * t) * u) by (nonlinear_arith);
        assert((d * t2) * u == d * p) by (nonlinear_arith)
            requires p == t2 * u;
        assert((d2 * t) * u == t * q) by (nonlinear_arith)
            requires q == d2 * u;
    }
    assert(2 * ((x * u) * w) == d * ew - t * fw) by {
        let p = d * e;
        let q = t * f;
        assert((p - q) * w == p * w - q * w) by (nonlinear_arith);
        assert(d * ew == 2 * (p * w)) by (nonlinear_arith)
            requires p == d * e, ew == 2 * (e * w);
        assert(t * fw == 2 * (q * w)) by (nonlinear_arith)
            requires q == t * f, fw == 2 * (f * w);
    }
    let nt = n * t;
    assert(-(2 * (nt * r)) <= d * ew <= 2 * (nt * r)) by (nonlinear_arith)
        requires 0 <= d <= 2 * nt, -r <= ew <= r;
    assert(-(2 * (nt * r)) <= t * fw <= 2 * (nt * r)) by (nonlinear_arith)
        requires -(2 * (n * r)) <= fw <= 2 * (n * r), t >= 0, nt == n * t;
    assert(nt >= 0) by (nonlinear_arith)
        requires nt == n * t, n >= 0, t >= 0;
    let tu = t2 * u;
    assert(nt * r <= 6 * (nt * tu)) by (nonlinear_arith)
        requires r <= 6 * tu, nt >= 0;
    let y = nt * t2;
    assert(nt * tu == y * u) by (nonlinear_arith)
        requires tu == t2 * u, y == nt * t2;
    assert((x * u) * w == (x * w) * u) by (nonlinear_arith);
    assert((12 * y) * u == 12 * (y * u)) by (nonlinear_arith);
    assert((-(12 * y)) * u == -(12 * (y * u))) by (nonlinear_arith);
    lemma_cancel(x * w, 12 * y, u);
    lemma_cancel(-(12 * y), x * w, u);
    assert(y == n * (t * t2)) by (nonlinear_arith)
        requires y == nt * t2, nt == n * t;
}

/// The Gini coefficient does not depend on the scale of the values, but for rounding: it stays
/// where each is multiplied by one or more. Of no more than 1499 values it changes by less than
/// `10^-9`.
pub proof fn gini_ignores_scale(values: Seq<Real>, c: Real)
    requires
        is_measurable(values),
        is_amount(c),
        c.value() >= pow2(1074),
        is_measurable(scaled(values, c)),
    ensures
        ({
            let off = spec_gini(values).value() - spec_gini(scaled(values, c)).value();
            let u = pow2(1074);
            let s = 2 * slack(values.len()) + 6;
            &&& -(s * u) <= off * PARTS <= s * u
            &&& values.len() <= 1_499 ==> -(u as int) < off * 1_000_000_000 < u
        }),
{
    let n = values.len() as int;
    let u = pow2(1074) as int;
    let z = scaled(values, c);
    let t = exact_sum(values);
    let t2 = exact_sum(z);
    let d = spread(values);
    let d2 = spread(z);
    let s = slack(values.len()) as int;
    let g = spec_gini(values).value();
    let h = spec_gini(z).value();
    let r = summed(values, play(c));
    lemma_big();
    lemma_exact_bounds(values);
    gini_is_accurate(values);
    gini_is_accurate(z);
    lemma_play(values, c);
    lemma_scaled_sum(values, c);
    lemma_scaled_rows(values, c, n);
    assert(values.take(n) =~= values && z.take(n) =~= z);
    assert(n * r + n * r == 2 * (n * r));
    assert(d <= 2 * (n * t)) by (nonlinear_arith)
        requires d <= 2 * ((n - 1) * t), t >= 0;
    lemma_scaled_quotient(d, t, d2, t2, c.value(), u, n, r);
    lemma_off_by_both(g, h, d, t, d2, t2, u, n, s);
    if n <= 1_499 {
        assert(s <= 4_500_007) by (nonlinear_arith)
            requires s == 2 * n * n + 4 * n + 9, 0 <= n <= 1_499;
        assert((2 * s + 6) * u <= 9_000_020 * u) by (nonlinear_arith)
            requires s <= 4_500_007, u >= 0;
    }
}

/// A difference times two numbers.
proof fn lemma_spread_out(g: int, q: int, q2: int, x: int, w: int)
    ensures
        ((g * q - x) * w) * q2 == (g * w) * (q * q2) - (x * w) * q2,
{
    let a = g * q;
    let p = a * w;
    let r = x * w;
    assert((a - x) * w == p - r) by (nonlinear_arith)
        requires p == a * w, r == x * w;
    assert((p - r) * q2 == p * q2 - r * q2) by (nonlinear_arith);
    assert(p * q2 == (g * w) * (q * q2)) by (nonlinear_arith)
        requires p == (g * q) * w;
}

/// Two numbers, each near to a quotient, the quotients near to each other.
proof fn lemma_off_by_both(
    g: int,
    h: int,
    d: int,
    t: int,
    d2: int,
    t2: int,
    u: int,
    n: int,
    s: int,
)
    requires
        n >= 1,
        u > 0,
        2 * n * t > 0,
        2 * n * t2 > 0,
        -(s * ((2 * n * t) * u)) <= (g * (2 * n * t) - d * u) * PARTS <= s * ((2 * n * t) * u),
        -(s * ((2 * n * t2) * u)) <= (h * (2 * n * t2) - d2 * u) * PARTS <= s * ((2 * n * t2) * u),
        -(12 * (n * (t * t2))) <= (d * t2 - d2 * t) * PARTS <= 12 * (n * (t * t2)),
    ensures
        -((2 * s + 6) * u) <= (g - h) * PARTS <= (2 * s + 6) * u,
{
    let w = PARTS as int;
    let q = 2 * n * t;
    let q2 = 2 * n * t2;
    let qq = q * q2;
    let a = (g * q - d * u) * w;
    let b = (h * q2 - d2 * u) * w;
    let x = (d * t2 - d2 * t) * w;
    assert(qq > 0) by (nonlinear_arith)
        requires qq == q * q2, q > 0, q2 > 0;
    let qu = qq * u;
    let m = q * u;
    let m2 = q2 * u;
    assert(-(s * qu) <= a * q2 <= s * qu) by (nonlinear_arith)
        requires -(s * m) <= a <= s * m, m == q * u, qu == qq * u, qq == q * q2, q2 > 0;
    assert(-(s * qu) <= b * q <= s * qu) by (nonlinear_arith)
        requires -(s * m2) <= b <= s * m2, m2 == q2 * u, qu == qq * u, qq == q * q2, q > 0;
    let k = 2 * n * u;
    let y = n * (t * t2);
    assert(-(12 * (k * y)) <= k * x <= 12 * (k * y)) by (nonlinear_arith)
        requires -(12 * y) <= x <= 12 * y, k == 2 * n * u, n >= 1, u > 0;
    assert(2 * (k * y) == qu) by (nonlinear_arith)
        requires
            k == 2 * n * u,
            y == n * (t * t2),
            qu == qq * u,
            qq == q * q2,
            q == 2 * n * t,
            q2 == 2 * n * t2,
    ;
    let du = d * u;
    let du2 = d2 * u;
    lemma_spread_out(g, q, q2, du, w);
    lemma_spread_out(h, q2, q, du2, w);
    assert(q2 * q == qq) by (nonlinear_arith)
        requires qq == q * q2;
    let dt = d * t2;
    let dt2 = d2 * t;
    assert((du * w) * q2 == k * (dt * w)) by (nonlinear_arith)
        requires du == d * u, q2 == 2 * n * t2, k == 2 * n * u, dt == d * t2;
    assert((du2 * w) * q == k * (dt2 * w)) by (nonlinear_arith)
        requires du2 == d2 * u, q == 2 * n * t, k == 2 * n * u, dt2 == d2 * t;
    assert((dt - dt2) * w == dt * w - dt2 * w) by (nonlinear_arith);
    assert(k * (dt * w - dt2 * w) == k * (dt * w) - k * (dt2 * w)) by (nonlinear_arith);
    let v = (g - h) * w;
    assert(v * qq == (g * w) * qq - (h * w) * qq) by (nonlinear_arith)
        requires v == (g - h) * w;
    let z = (2 * s + 6) * u;
    assert(z * qq == 2 * (s * qu) + 6 * qu) by (nonlinear_arith)
        requires z == (2 * s + 6) * u, qu == qq * u;
    assert((-z) * qq == -(z * qq)) by (nonlinear_arith);
    lemma_cancel(v, z, qq);
    lemma_cancel(-z, v, qq);
}

} // verus!
