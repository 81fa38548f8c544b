//! How near what is computed lies to what is exact.
use crate::binary64::{signed, spec_real, Real};
use crate::bounds::{
    lemma_exact_integer, lemma_pattern, lemma_plus_grows, lemma_product_pattern,
    lemma_quotient_pattern, lemma_sum_pattern, plain,
};
use crate::rounding::{
    lemma_nearest_exact, lemma_nearest_ordered, lemma_nearest_rounds, lemma_units_order,
    lemma_units_scaled, lemma_units_step, nearest, units, BINADE, INF,
};
use crate::world::real_sum;
use vstd::arithmetic::power2::*;
use vstd::prelude::*;

verus! {

/// `2^53`: a number is rounded by no more than this part of it.
pub const PARTS: u64 = 0x20_0000_0000_0000;

/// A number is another one, up to so many `2^-53`ths of it.
pub open spec fn near(a: int, b: int, n: nat) -> bool {
    -(n * b) <= (a - b) * PARTS <= n * b
}

/// A finite number that is not negative.
pub open spec fn is_amount(x: Real) -> bool {
    plain(x) && x.is_finite()
}

/// How far consecutive numbers lie apart.
pub proof fn lemma_spacing(k: nat)
    ensures
        k < BINADE ==> units(k + 1) - units(k) == 1,
        k >= BINADE ==> (units(k + 1) - units(k)) * BINADE <= units(k),
        units(k) <= PARTS * (units(k + 1) - units(k)),
{
    let b = BINADE as nat;
    lemma2_to64();
    if k < b {
        if k + 1 == b {
            lemma_units_scaled(b, 0);
            assert(b * pow2(0) == b);
        }
    } else {
        let s = (k / b - 1) as nat;
        let sig = b + k % b;
        assert(k == s * b + sig) by {
            vstd::arithmetic::div_mod::lemma_fundamental_div_mod(k as int, b as int);
            assert((s + 1) * b == s * b + b) by (nonlinear_arith);
            assert(b * (s + 1) == (s + 1) * b) by (nonlinear_arith);
        }
        lemma_units_scaled(sig, s);
        lemma_units_scaled(sig + 1, s);
        let w = pow2(s);
        lemma_pow2_pos(s);
        assert((sig + 1) * w == sig * w + w) by (nonlinear_arith);
        assert(w * b <= sig * w) by (nonlinear_arith)
            requires b <= sig;
        assert(sig * w <= (2 * b) * w) by (nonlinear_arith)
            requires sig <= 2 * b;
    }
}

/// Numbers that differ lie apart by no less than a `2^-53`th of the larger, about.
pub proof fn lemma_gap(j: nat, k: nat)
    requires
        j < k,
    ensures
        units(k) <= (PARTS + 1) * (units(k) - units(j)),
{
    let i = (k - 1) as nat;
    lemma_spacing(i);
    lemma_units_order(j, i);
    let gap = units(k) - units(i);
    assert((PARTS + 1) * gap == PARTS * gap + gap) by (nonlinear_arith);
    assert((PARTS + 1) * gap <= (PARTS + 1) * (units(k) - units(j))) by (nonlinear_arith)
        requires gap <= units(k) - units(j);
}

/// What is rounded moves by no more than a `2^-53`th of it, or, next to zero, by no more than
/// half a unit.
pub proof fn lemma_rounding_error(p: nat, q: nat)
    requires
        q > 0,
        nearest(p, q) < INF,
    ensures
        ({
            let r = units(nearest(p, q)) * q;
            near(r as int, p as int, 1) || -q <= 2 * (r - p) <= q
        }),
{
    let k = nearest(p, q);
    let uk = units(k);
    let b = BINADE as nat;
    let r = uk * q;
    lemma_nearest_rounds(p, q);
    if r <= p {
        let up = units(k + 1);
        let gap = (up - uk) as nat;
        lemma_units_step(k);
        lemma_spacing(k);
        assert((uk + up) * q == 2 * r + gap * q) by (nonlinear_arith)
            requires up == uk + gap, r == uk * q;
        if k < b {
            assert(gap * q == q) by (nonlinear_arith)
                requires gap == 1;
        } else {
            assert((gap * q) * b <= uk * q) by (nonlinear_arith)
                requires gap * b <= uk;
        }
    } else {
        if k == 0 {
            assert(r == 0) by (nonlinear_arith)
                requires r == uk * q, uk == 0;
        }
        let i = (k - 1) as nat;
        let down = units(i);
        let gap = (uk - down) as nat;
        lemma_units_step(i);
        lemma_spacing(i);
        let l = down * q;
        assert((down + uk) * q == 2 * r - gap * q && r == l + gap * q) by (nonlinear_arith)
            requires uk == down + gap, r == uk * q, l == down * q;
        if i < b {
            assert(gap * q == q) by (nonlinear_arith)
                requires gap == 1;
        } else {
            assert((gap * q) * b <= l) by (nonlinear_arith)
                requires gap * b <= down, l == down * q;
            assert(0 <= gap * q) by (nonlinear_arith);
        }
    }
}

/// The sum of two amounts.
pub proof fn lemma_plus_error(x: Real, y: Real)
    requires
        is_amount(x),
        is_amount(y),
        x.plus(y).is_finite(),
    ensures
        is_amount(x.plus(y)),
        near(x.plus(y).value(), x.value() + y.value(), 1),
{
    let p = units(x.magnitude()) + units(y.magnitude());
    let k = nearest(p, 1);
    lemma_sum_pattern(x, y);
    lemma_pattern(k);
    lemma_rounding_error(p, 1);
    assert(units(k) * 1 == units(k));
}

/// The distance of two amounts.
pub proof fn lemma_distance_error(x: Real, y: Real)
    requires
        is_amount(x),
        is_amount(y),
    ensures
        is_amount(x.minus(y).absolute()),
        near(
            x.minus(y).absolute().value(),
            if x.value() < y.value() {
                y.value() - x.value()
            } else {
                x.value() - y.value()
            },
            1,
        ),
{
    let a = units(x.magnitude());
    let b = units(y.magnitude());
    let m = y.negated();
    assert(m.magnitude() == y.magnitude() && m.value() == -y.value());
    let p: nat = if a < b {
        (b - a) as nat
    } else {
        (a - b) as nat
    };
    let k = nearest(p, 1);
    let top = if a < b {
        y.magnitude()
    } else {
        x.magnitude()
    };
    lemma_nearest_rounds(p, 1);
    lemma_nearest_exact(units(top), 1, top);
    lemma_nearest_ordered(p, units(top), 1);
    lemma_rounding_error(p, 1);
    assert(units(k) * 1 == units(k));
    if p == 0 {
        lemma_nearest_exact(0, 1, 0);
    }
    lemma_pattern(k);
    let d = x.minus(y).absolute();
    assert(d == signed(false, k)) by {
        assert(signed(true, k).magnitude() == k);
        assert(signed(false, k).magnitude() == k);
    }
}

/// The sum of integers.
pub open spec fn int_sum(s: Seq<int>) -> int
    decreases s.len(),
{
    if s.len() == 0 {
        0
    } else {
        int_sum(s.drop_last()) + s.last()
    }
}

/// What numbers stand for, in units.
pub open spec fn amounts(s: Seq<Real>) -> Seq<int> {
    s.map_values(|x: Real| x.value())
}

/// A sum of what is not negative is not negative.
pub proof fn lemma_int_sum_positive(s: Seq<int>)
    requires
        forall|i: int| 0 <= i < s.len() ==> 0 <= #[trigger] s[i],
    ensures
        0 <= int_sum(s),
        forall|i: int| 0 <= i < s.len() ==> #[trigger] s[i] <= int_sum(s),
    decreases s.len(),
{
    if s.len() > 0 {
        let rest = s.drop_last();
        assert forall|i: int| 0 <= i < rest.len() implies 0 <= #[trigger] rest[i] by {
            assert(rest[i] == s[i]);
        }
        lemma_int_sum_positive(rest);
        assert(0 <= s[s.len() - 1]);
        assert forall|i: int| 0 <= i < s.len() implies #[trigger] s[i] <= int_sum(s) by {
            if i < rest.len() {
                assert(rest[i] == s[i]);
            }
        }
    }
}

/// A computed sum of amounts is the exact one up to two `2^-53`ths for each amount.
pub proof fn lemma_sum_error(s: Seq<Real>)
    requires
        s.len() <= 0x4_0000_0000_0000,
        forall|i: int| 0 <= i < s.len() ==> is_amount(#[trigger] s[i]),
        real_sum(s).is_finite(),
    ensures
        is_amount(real_sum(s)),
        0 <= int_sum(amounts(s)),
        near(real_sum(s).value(), int_sum(amounts(s)), (2 * s.len()) as nat),
    decreases s.len(),
{
    let n = s.len();
    let exact = int_sum(amounts(s));
    if n == 0 {
        assert(real_sum(s).value() == 0);
        assert(exact == 0);
        assert(0 * exact == 0);
    } else {
        let rest = s.drop_last();
        let x = s.last();
        let f = real_sum(rest);
        let m = rest.len();
        assert(amounts(s).drop_last() =~= amounts(rest));
        assert(is_amount(s[n - 1]));
        assert forall|i: int| 0 <= i < rest.len() implies is_amount(#[trigger] rest[i]) by {
            assert(rest[i] == s[i]);
        }
        lemma_partial_sum(rest);
        lemma_sum_error(rest);
        lemma_plus_error(f, x);
        let t = int_sum(amounts(rest));
        let v = x.value();
        let g = real_sum(s).value();
        let w = f.value();
        assert(near(g, exact, (2 * n) as nat)) by {
            let c = 2 * m * t;
            assert((2 * m) as nat * t == c) by (nonlinear_arith)
                requires c == 2 * m * t;
            assert(c <= 0x8_0000_0000_0000 * t) by (nonlinear_arith)
                requires c == 2 * m * t, m <= 0x4_0000_0000_0000, t >= 0;
            assert((2 * n) as nat * exact == c + 2 * t + 2 * n * v) by (nonlinear_arith)
                requires c == 2 * m * t, n == m + 1, exact == t + v;
            assert(2 * n * v >= 2 * v) by (nonlinear_arith)
                requires n >= 1, v >= 0;
        }
    }
}

/// Partial sums of amounts are amounts, or overflow.
proof fn lemma_partial_sum(s: Seq<Real>)
    requires
        forall|i: int| 0 <= i < s.len() ==> is_amount(#[trigger] s[i]),
    ensures
        plain(real_sum(s)),
    decreases s.len(),
{
    if s.len() > 0 {
        let rest = s.drop_last();
        assert(is_amount(s[s.len() - 1]));
        assert forall|i: int| 0 <= i < rest.len() implies is_amount(#[trigger] rest[i]) by {
            assert(rest[i] == s[i]);
        }
        lemma_partial_sum(rest);
        if real_sum(rest).is_finite() {
            lemma_plus_grows(real_sum(rest), s.last());
        }
    }
}

/// Sums are near to each other where their parts are.
pub proof fn lemma_near_sums(a: Seq<int>, b: Seq<int>)
    requires
        a.len() == b.len(),
        forall|i: int| 0 <= i < a.len() ==> near(#[trigger] a[i], b[i], 1),
    ensures
        near(int_sum(a), int_sum(b), 1),
    decreases a.len(),
{
    if a.len() > 0 {
        let c = a.drop_last();
        let d = b.drop_last();
        assert forall|i: int| 0 <= i < c.len() implies near(#[trigger] c[i], d[i], 1) by {
            assert(near(a[i], b[i], 1));
        }
        lemma_near_sums(c, d);
        assert(near(a[a.len() - 1], b[a.len() - 1], 1));
    }
}

/// Twice a small integer times an amount.
pub proof fn lemma_times_error(n: nat, x: Real)
    requires
        1 <= n <= 0x10_0000_0000_0000,
        is_amount(x),
        spec_real(2).times(spec_real(n)).times(x).is_finite(),
    ensures
        is_amount(spec_real(2).times(spec_real(n)).times(x)),
        near(spec_real(2).times(spec_real(n)).times(x).value(), 2 * n * x.value(), 1),
{
    let u = pow2(1074);
    let c = spec_real(2 * n);
    lemma_pow2_pos(1074);
    lemma_exact_integer(2);
    lemma_exact_integer(n);
    lemma_exact_integer(2 * n);
    lemma_product_pattern(spec_real(2), spec_real(n));
    assert((2 * u) * (n * u) == (2 * n * u) * u) by (nonlinear_arith);
    lemma_nearest_exact((2 * u) * (n * u), u, c.magnitude());
    assert(spec_real(2).times(spec_real(n)) == c);
    let a = units(x.magnitude());
    let p = units(c.magnitude()) * a;
    let k = nearest(p, u);
    lemma_product_pattern(c, x);
    lemma_pattern(k);
    lemma_rounding_error(p, u);
    let exact = 2 * n * a;
    let v = units(k);
    assert(p == exact * u) by (nonlinear_arith)
        requires p == (2 * n * u) * a, exact == 2 * n * a;
    assert(v * u - p == (v - exact) * u) by (nonlinear_arith)
        requires p == exact * u;
    let e = v - exact;
    if near((v * u) as int, p as int, 1) {
        assert(-exact <= e * PARTS <= exact) by (nonlinear_arith)
            requires
                -(exact * u) <= (e * u) * PARTS <= exact * u,
                u > 0,
        ;
    } else {
        assert(e == 0) by (nonlinear_arith)
            requires
                -u <= 2 * (e * u) <= u,
                u > 0,
        ;
    }
}

/// The quotient of two amounts.
pub proof fn lemma_over_error(x: Real, y: Real)
    requires
        is_amount(x),
        is_amount(y),
        y.value() > 0,
        x.over(y).is_finite(),
    ensures
        is_amount(x.over(y)),
        near(x.over(y).value() * y.value(), x.value() * pow2(1074), 1) || -y.value() <= 2 * (x.over(
            y,
        ).value() * y.value() - x.value() * pow2(1074)) <= y.value(),
{
    let p = units(x.magnitude()) * pow2(1074);
    let q = units(y.magnitude());
    lemma_quotient_pattern(x, y);
    lemma_pattern(nearest(p, q));
    lemma_rounding_error(p, q);
}

} // verus!
