//! Correctly rounded arithmetic on the magnitudes of binary64 numbers.
use crate::rounding::{
    lemma_nearest, lemma_round_between, lemma_round_overflow, lemma_units_order, lemma_units_scaled,
    nearest, units, BINADE, INF,
};
use vstd::arithmetic::power2::*;
use vstd::prelude::*;

verus! {

/// `p` brought to scale `s`: the numerator of `p / (q * 2^s)`.
pub open spec fn scaled_num(p: nat, s: int) -> nat {
    if s < 0 {
        p * pow2((-s) as nat)
    } else {
        p
    }
}

/// `q` brought to scale `s`: the denominator of `p / (q * 2^s)`.
pub open spec fn scaled_den(q: nat, s: int) -> nat {
    if s < 0 {
        q
    } else {
        q * pow2(s as nat)
    }
}

/// `sig` is the integer part of `p / (q * 2^s)`, and all of it unless `rest`.
pub open spec fn is_scaled(sig: nat, s: int, rest: bool, p: nat, q: nat) -> bool {
    &&& sig * scaled_den(q, s) <= scaled_num(p, s) < (sig + 1) * scaled_den(q, s)
    &&& rest <==> sig * scaled_den(q, s) != scaled_num(p, s)
}

/// How what lies behind an integer part compares with one half.
#[derive(Clone, Copy, PartialEq, Eq, Structural)]
enum Rest {
    Nothing,
    BelowHalf,
    Half,
    AboveHalf,
    Something,
}

/// `b / a` is `sig` and a fraction of kind `rest`.
spec fn has_rest(sig: nat, a: nat, b: nat, rest: Rest) -> bool {
    match rest {
        Rest::Nothing => b == sig * a,
        Rest::BelowHalf => sig * a < b && 2 * b < (2 * sig + 1) * a,
        Rest::Half => 2 * b == (2 * sig + 1) * a,
        Rest::AboveHalf => (2 * sig + 1) * a < 2 * b && b < (sig + 1) * a,
        Rest::Something => sig * a < b && b < (sig + 1) * a,
    }
}

/// Halving a number: what its last bit and its fraction leave behind.
proof fn lemma_halve(sig: nat, a: nat, b: nat, rest: Rest, a2: nat, b2: nat, rest2: Rest)
    requires
        a > 0,
        has_rest(sig, a, b, rest),
        (a2 == 2 * a && b2 == b) || (a2 == a && 2 * b2 == b),
        rest2 == (if sig % 2 == 0 {
            if rest == Rest::Nothing {
                Rest::Nothing
            } else {
                Rest::BelowHalf
            }
        } else {
            if rest == Rest::Nothing {
                Rest::Half
            } else {
                Rest::AboveHalf
            }
        }),
    ensures
        has_rest(sig / 2, a2, b2, rest2),
{
    let h = sig / 2;
    let r = sig % 2;
    assert(sig == 2 * h + r);
    assert((2 * h + r) * a == 2 * (h * a) + r * a) by (nonlinear_arith);
    assert((2 * h + r + 1) * a == 2 * (h * a) + r * a + a) by (nonlinear_arith);
    assert((2 * (2 * h + r) + 1) * a == 4 * (h * a) + 2 * (r * a) + a) by (nonlinear_arith);
    assert(h * (2 * a) == 2 * (h * a)) by (nonlinear_arith);
    assert((2 * h + 1) * (2 * a) == 4 * (h * a) + 2 * a) by (nonlinear_arith);
    assert((2 * h + 1) * a == 2 * (h * a) + a) by (nonlinear_arith);
    assert((h + 1) * (2 * a) == 2 * (h * a) + 2 * a) by (nonlinear_arith);
    assert((h + 1) * a == h * a + a) by (nonlinear_arith);
    assert(r == 0 ==> r * a == 0) by (nonlinear_arith);
    assert(r == 1 ==> r * a == a) by (nonlinear_arith);
}

/// Raising the scale by one halves the quotient.
proof fn lemma_scale_step(p: nat, q: nat, s: int)
    ensures
        s >= 0 ==> scaled_den(q, s + 1) == 2 * scaled_den(q, s) && scaled_num(p, s + 1)
            == scaled_num(p, s),
        s < 0 ==> scaled_den(q, s + 1) == scaled_den(q, s) && 2 * scaled_num(p, s + 1)
            == scaled_num(p, s),
{
    if s >= 0 {
        lemma_pow2_unfold((s + 1) as nat);
        assert(q * (2 * pow2(s as nat)) == 2 * (q * pow2(s as nat))) by (nonlinear_arith);
    } else {
        lemma_pow2_unfold((-s) as nat);
        lemma2_to64();
        assert(p * (2 * pow2((-s - 1) as nat)) == 2 * (p * pow2((-s - 1) as nat)))
            by (nonlinear_arith);
        assert(q * pow2(0) == q && p * pow2(0) == p) by (nonlinear_arith)
            requires pow2(0) == 1;
    }
}

proof fn lemma_scaled_den_pos(q: nat, s: int)
    requires
        q > 0,
    ensures
        scaled_den(q, s) > 0,
{
    if s >= 0 {
        lemma_pow2_pos(s as nat);
        assert(q * pow2(s as nat) > 0) by (nonlinear_arith)
            requires q > 0, pow2(s as nat) > 0;
    }
}

/// The pattern nearest to `p / q` units, from the integer part at a scale.
pub(crate) fn round_scaled(sig0: u128, s0: i64, rest0: bool, Ghost(p): Ghost<nat>, Ghost(q): Ghost<nat>) -> (k: u64)
    requires
        q > 0,
        is_scaled(sig0 as nat, s0 as int, rest0, p, q),
        rest0 ==> sig0 >= 4 * BINADE,
        -5000 <= s0 <= 3500,
    ensures
        k <= INF,
        k == nearest(p, q),
{
    let mut sig: u128 = sig0;
    let mut s: i64 = s0;
    let mut rest: Rest = if rest0 { Rest::Something } else { Rest::Nothing };
    if sig == 0 {
        proof {
            lemma_scaled_den_pos(q, s as int);
            assert(p == 0) by {
                if s < 0 {
                    lemma_pow2_pos((-s) as nat);
                    assert(p * pow2((-s) as nat) == 0 && pow2((-s) as nat) > 0 ==> p == 0)
                        by (nonlinear_arith);
                }
            }
            assert((units(0) + units(1)) * q > 0) by (nonlinear_arith)
                requires units(0) == 0, units(1) == 1, q > 0;
            lemma_nearest(p, q, 0);
        }
        return 0;
    }
    while sig < 4503599627370496 && s > 0
        invariant
            q > 0,
            sig >= 1,
            -5000 <= s <= 3500,
            has_rest(sig as nat, scaled_den(q, s as int), scaled_num(p, s as int), rest),
            rest == Rest::Something || rest == Rest::Nothing,
            rest == Rest::Something ==> sig >= 4 * BINADE,
        decreases s,
    {
        proof {
            lemma_scale_step(p, q, s - 1);
            let a = scaled_den(q, s - 1);
            assert(sig as nat * (2 * a) == (2 * sig as nat) * a) by (nonlinear_arith);
        }
        sig = sig * 2;
        s = s - 1;
    }
    while (sig >= 9007199254740992 || s < 0) && s <= 2045
        invariant
            q > 0,
            -5000 <= s <= 3500,
            sig >= BINADE || s <= 0,
            has_rest(sig as nat, scaled_den(q, s as int), scaled_num(p, s as int), rest),
            rest == Rest::Something ==> sig >= 4 * BINADE,
        decreases (if s < 0 { -s as int } else { 0 }) + sig,
    {
        proof {
            lemma_scaled_den_pos(q, s as int);
            lemma_scale_step(p, q, s as int);
            let rest2 = if sig % 2 == 0 {
                if rest == Rest::Nothing { Rest::Nothing } else { Rest::BelowHalf }
            } else {
                if rest == Rest::Nothing { Rest::Half } else { Rest::AboveHalf }
            };
            lemma_halve(sig as nat, scaled_den(q, s as int), scaled_num(p, s as int), rest,
                scaled_den(q, s + 1), scaled_num(p, s + 1), rest2);
        }
        if sig % 2 == 0 {
            if rest != Rest::Nothing {
                rest = Rest::BelowHalf;
            }
        } else {
            if rest == Rest::Nothing {
                rest = Rest::Half;
            } else {
                rest = Rest::AboveHalf;
            }
        }
        sig = sig / 2;
        s = s + 1;
    }
    let ghost a = scaled_den(q, s as int);
    if s > 2045 {
        proof {
            lemma_units_scaled(BINADE as nat, 2046);
            lemma_scaled_den_pos(q, s as int);
            if s > 2046 {
                lemma_pow2_strictly_increases(2046, s as nat);
            }
            assert(units(INF as nat) == BINADE as nat * pow2(2046));
            assert((BINADE as nat * pow2(2046)) * q <= sig as nat * (q * pow2(s as nat)))
                by (nonlinear_arith)
                requires BINADE as nat <= sig as nat, pow2(2046) <= pow2(s as nat);
            assert((2 * sig as nat + 1) * a == 2 * (sig as nat * a) + a) by (nonlinear_arith);
            lemma_round_overflow(p, q);
            lemma_nearest(p, q, INF as nat);
        }
        return INF;
    }
    let k: u64 = (s as u64) * BINADE + (sig as u64);
    let up: bool = match rest {
        Rest::AboveHalf => true,
        Rest::Half => sig % 2 == 1,
        _ => false,
    };
    proof {
        lemma_units_scaled(sig as nat, s as nat);
        lemma_units_scaled(sig as nat + 1, s as nat);
        let w = pow2(s as nat);
        assert((sig as nat * w) * q == sig as nat * (q * w)) by (nonlinear_arith);
        assert(((sig as nat + 1) * w) * q == (sig as nat + 1) * (q * w)) by (nonlinear_arith);
        assert((sig as nat * w + (sig as nat + 1) * w) * q == (2 * sig as nat + 1) * (q * w))
            by (nonlinear_arith);
        lemma_scaled_den_pos(q, s as int);
        assert((2 * sig as nat + 1) * a == 2 * (sig as nat * a) + a) by (nonlinear_arith);
        assert((sig as nat + 1) * a == sig as nat * a + a) by (nonlinear_arith);
        assert(k as nat == s as nat * (BINADE as nat) + sig as nat);
        assert(k % 2 == sig % 2);
        lemma_round_between(p, q, k as nat, up);
        lemma_nearest(p, q, if up { k as nat + 1 } else { k as nat });
    }
    if up {
        k + 1
    } else {
        k
    }
}

/// `2^d`.
pub(crate) fn power_of_two(d: u64) -> (w: u128)
    requires
        d <= 80,
    ensures
        w == pow2(d as nat),
        1 <= w <= 0x1_0000_0000_0000_0000_0000,
{
    let mut w: u128 = 1;
    let mut i: u64 = 0;
    proof {
        lemma2_to64();
        lemma_pow2_adds(64, 16);
    }
    while i < d
        invariant
            i <= d <= 80,
            w == pow2(i as nat),
            w >= 1,
            pow2(80) == 0x1_0000_0000_0000_0000_0000,
        decreases d - i,
    {
        proof {
            lemma_pow2_unfold((i + 1) as nat);
            if i + 1 < 80 {
                lemma_pow2_strictly_increases((i + 1) as nat, 80);
            }
        }
        w = w * 2;
        i = i + 1;
    }
    proof {
        if d < 80 {
            lemma_pow2_strictly_increases(d as nat, 80);
        }
    }
    w
}

/// Significand and scale of a finite magnitude.
pub(crate) fn split(k: u64) -> (r: (u64, u64))
    requires
        k < INF,
    ensures
        r.0 as nat * pow2(r.1 as nat) == units(k as nat),
        r.0 < 2 * BINADE,
        r.1 <= 2045,
        r.0 >= BINADE || r.1 == 0,
        k == r.1 * BINADE + r.0,
{
    let exp: u64 = k / BINADE;
    let frac: u64 = k % BINADE;
    proof {
        lemma2_to64();
        assert(frac as nat * pow2(0) == frac) by (nonlinear_arith)
            requires pow2(0) == 1;
    }
    if exp == 0 {
        (frac, 0)
    } else {
        (BINADE + frac, exp - 1)
    }
}

/// An exact integer at a scale, as `round_scaled` wants it.
pub(crate) proof fn lemma_exact_scaled(sig: nat, s: nat, p: nat)
    requires
        p == sig * pow2(s),
    ensures
        is_scaled(sig, s as int, false, p, 1),
{
    lemma_pow2_pos(s);
    assert((sig + 1) * (1 * pow2(s)) > sig * pow2(s)) by (nonlinear_arith)
        requires pow2(s) > 0;
    assert(1 * pow2(s) == pow2(s));
}

/// A magnitude whose scale is far below another one's is less than the other's last
/// bits.
proof fn lemma_far_below(m: nat, low: nat, high: nat)
    requires
        m < 2 * BINADE,
        low + 65 <= high,
    ensures
        m * pow2(low) < pow2((high - 11) as nat),
        pow2(high) == 2048 * pow2((high - 11) as nat),
{
    lemma2_to64_rest();
    lemma2_to64();
    lemma_pow2_adds(53, low);
    lemma_pow2_adds(11, (high - 11) as nat);
    lemma_pow2_pos(low);
    assert(m * pow2(low) < pow2(53) * pow2(low)) by (nonlinear_arith)
        requires m < pow2(53), pow2(low) > 0;
    if 53 + low < high - 11 {
        lemma_pow2_strictly_increases(53 + low, (high - 11) as nat);
    }
}

/// The pattern nearest to the sum of two magnitudes.
pub(crate) fn sum_magnitudes(j: u64, k: u64) -> (r: u64)
    requires
        k <= j < INF,
    ensures
        r <= INF,
        r == nearest(units(j as nat) + units(k as nat), 1),
{
    let (m1, s1) = split(j);
    let (m2, s2) = split(k);
    let ghost p = units(j as nat) + units(k as nat);
    if s1 - s2 <= 64 {
        let w = power_of_two(s1 - s2);
        proof {
            lemma_pow2_adds((s1 - s2) as nat, s2 as nat);
            lemma_bound_shifted(m1 as nat, (s1 - s2) as nat);
            assert((m1 as nat * w as nat + m2 as nat) * pow2(s2 as nat) == m1 as nat * (w as nat
                * pow2(s2 as nat)) + m2 as nat * pow2(s2 as nat)) by (nonlinear_arith);
            lemma_exact_scaled(m1 as nat * w as nat + m2 as nat, s2 as nat, p);
        }
        let sig: u128 = (m1 as u128) * w + (m2 as u128);
        round_scaled(sig, s2 as i64, false, Ghost(p), Ghost(1))
    } else {
        proof {
            lemma_far_below(m2 as nat, s2 as nat, s1 as nat);
            let v = pow2((s1 - 11) as nat);
            assert(m1 as nat * (2048 * v) == (m1 as nat * 2048) * v) by (nonlinear_arith);
            assert((m1 as nat * 2048 + 1) * v == (m1 as nat * 2048) * v + v) by (nonlinear_arith);
            lemma_pow2_pos(s2 as nat);
            assert(m2 > 0 <==> m2 as nat * pow2(s2 as nat) > 0) by (nonlinear_arith)
                requires pow2(s2 as nat) > 0;
            assert(1 * v == v);
        }
        round_scaled((m1 as u128) * 2048, s1 as i64 - 11, m2 != 0, Ghost(p), Ghost(1))
    }
}

/// A significand shifted by up to 64 places fits.
proof fn lemma_bound_shifted(m: nat, d: nat)
    requires
        m < 2 * BINADE,
        d <= 64,
    ensures
        m * pow2(d) < 0x20_0000_0000_0000 * 0x1_0000_0000_0000_0000,
{
    lemma2_to64();
    if d < 64 {
        lemma_pow2_strictly_increases(d, 64);
    }
    assert(m * pow2(d) < 0x20_0000_0000_0000 * 0x1_0000_0000_0000_0000) by (nonlinear_arith)
        requires m < 0x20_0000_0000_0000, pow2(d) <= 0x1_0000_0000_0000_0000;
}

/// The pattern nearest to the difference of two magnitudes.
pub(crate) fn difference_magnitudes(j: u64, k: u64) -> (r: u64)
    requires
        k <= j < INF,
    ensures
        r <= INF,
        units(j as nat) >= units(k as nat),
        r == nearest((units(j as nat) - units(k as nat)) as nat, 1),
{
    let (m1, s1) = split(j);
    let (m2, s2) = split(k);
    proof {
        lemma_units_order(j as nat, k as nat);
    }
    let ghost p = (units(j as nat) - units(k as nat)) as nat;
    if s1 - s2 <= 64 {
        let w = power_of_two(s1 - s2);
        proof {
            let v = pow2(s2 as nat);
            lemma_pow2_pos(s2 as nat);
            lemma_pow2_adds((s1 - s2) as nat, s2 as nat);
            lemma_bound_shifted(m1 as nat, (s1 - s2) as nat);
            assert(m1 as nat * (w as nat * v) == (m1 as nat * w as nat) * v) by (nonlinear_arith);
            assert(m1 as nat * w as nat >= m2 as nat) by (nonlinear_arith)
                requires (m1 as nat * w as nat) * v >= m2 as nat * v, v > 0;
            assert((m1 as nat * w as nat - m2 as nat) * v == (m1 as nat * w as nat) * v
                - m2 as nat * v) by (nonlinear_arith);
            lemma_exact_scaled((m1 as nat * w as nat - m2 as nat) as nat, s2 as nat, p);
        }
        let sig: u128 = (m1 as u128) * w - (m2 as u128);
        round_scaled(sig, s2 as i64, false, Ghost(p), Ghost(1))
    } else {
        proof {
            lemma_far_below(m2 as nat, s2 as nat, s1 as nat);
            let v = pow2((s1 - 11) as nat);
            assert(m1 as nat * (2048 * v) == (m1 as nat * 2048) * v) by (nonlinear_arith);
            assert((m1 as nat * 2048 - 1) * v == (m1 as nat * 2048) * v - v) by (nonlinear_arith);
            assert((m1 as nat * 2048 + 1) * v == (m1 as nat * 2048) * v + v) by (nonlinear_arith);
            lemma_pow2_pos(s2 as nat);
            lemma_pow2_pos((s1 - 11) as nat);
            assert(m2 > 0 <==> m2 as nat * pow2(s2 as nat) > 0) by (nonlinear_arith)
                requires pow2(s2 as nat) > 0;
            assert(1 * v == v);
        }
        if m2 == 0 {
            round_scaled((m1 as u128) * 2048, s1 as i64 - 11, false, Ghost(p), Ghost(1))
        } else {
            round_scaled((m1 as u128) * 2048 - 1, s1 as i64 - 11, true, Ghost(p), Ghost(1))
        }
    }
}

/// The pattern nearest to the product of two magnitudes.
pub(crate) fn product_magnitudes(j: u64, k: u64) -> (r: u64)
    requires
        j < INF,
        k < INF,
    ensures
        r <= INF,
        r == nearest(units(j as nat) * units(k as nat), pow2(1074)),
{
    let (m1, s1) = split(j);
    let (m2, s2) = split(k);
    let ghost p = units(j as nat) * units(k as nat);
    let ghost q = pow2(1074);
    let s: i64 = s1 as i64 + s2 as i64 - 1074;
    proof {
        let a = m1 as nat;
        let b = m2 as nat;
        let u = pow2(s1 as nat);
        let v = pow2(s2 as nat);
        lemma_pow2_pos(1074);
        lemma_pow2_adds(s1 as nat, s2 as nat);
        assert((a * u) * (b * v) == (a * b) * (u * v)) by (nonlinear_arith);
        assert(a * b < 0x20_0000_0000_0000 * 0x20_0000_0000_0000) by (nonlinear_arith)
            requires a < 0x20_0000_0000_0000, b < 0x20_0000_0000_0000;
        let den = scaled_den(q, s as int);
        lemma_scaled_den_pos(q, s as int);
        if s >= 0 {
            lemma_pow2_adds(1074, s as nat);
        } else {
            lemma_pow2_adds((s1 + s2) as nat, (-s) as nat);
            assert(((a * b) * pow2((s1 + s2) as nat)) * pow2((-s) as nat) == (a * b) * (pow2(
                (s1 + s2) as nat,
            ) * pow2((-s) as nat))) by (nonlinear_arith);
        }
        assert((a * b + 1) * den > (a * b) * den) by (nonlinear_arith)
            requires den > 0;
    }
    round_scaled((m1 as u128) * (m2 as u128), s, false, Ghost(p), Ghost(q))
}

/// The quotient of two magnitudes, from that of their significands.
proof fn lemma_quotient_scaled(
    u: nat, m1: nat, s1: int, m2: nat, s2: nat, n: nat, s: int, p: nat, q: nat, sig: nat, rest: bool,
)
    requires
        s1 >= -52,
        s1 <= 2045,
        m1 * pow2((s1 + 52) as nat) == u * pow2(52),
        m2 > 0,
        n == m1 * pow2(74),
        s == s1 + 1000 - s2,
        p == u * pow2(1074),
        q == m2 * pow2(s2),
        sig == n / m2,
        rest == (n % m2 != 0),
    ensures
        is_scaled(sig, s, rest, p, q),
{
    let w = pow2(52);
    let num = scaled_num(p, s);
    let den = scaled_den(q, s);
    lemma_pow2_pos(52);
    lemma_pow2_pos(s2);
    assert(q > 0) by (nonlinear_arith)
        requires q == m2 * pow2(s2), m2 > 0, pow2(s2) > 0;
    lemma_scaled_den_pos(q, s);
    assert(p * w == m1 * pow2((s1 + 1126) as nat)) by {
        lemma_pow2_adds((s1 + 52) as nat, 1074);
        assert((u * pow2(1074)) * w == (u * w) * pow2(1074)) by (nonlinear_arith);
        assert((m1 * pow2((s1 + 52) as nat)) * pow2(1074) == m1 * (pow2((s1 + 52) as nat) * pow2(
            1074))) by (nonlinear_arith);
    }
    assert((num * m2) * w == (n * den) * w) by {
        if s >= 0 {
            lemma_pow2_adds(s2, s as nat);
            lemma_pow2_adds(74, (s1 + 1000) as nat);
            lemma_pow2_adds((s1 + 1074) as nat, 52);
            let e = pow2((s1 + 1000) as nat);
            assert(den == m2 * e) by {
                assert((m2 * pow2(s2)) * pow2(s as nat) == m2 * (pow2(s2) * pow2(s as nat)))
                    by (nonlinear_arith);
            }
            assert((p * m2) * w == (p * w) * m2) by (nonlinear_arith);
            assert(((m1 * pow2(74)) * (m2 * e)) * w == (m1 * ((pow2(74) * e) * w)) * m2)
                by (nonlinear_arith);
        } else {
            let e = pow2((-s) as nat);
            lemma_pow2_adds((s1 + 1126) as nat, (-s) as nat);
            lemma_pow2_adds(74, 52);
            lemma_pow2_adds(126, s2);
            assert((p * e * m2) * w == (p * w) * e * m2) by (nonlinear_arith);
            assert((m1 * pow2((s1 + 1126) as nat)) * e * m2 == (m1 * (pow2((s1 + 1126) as nat)
                * e)) * m2) by (nonlinear_arith);
            assert(((m1 * pow2(74)) * (m2 * pow2(s2))) * w == (m1 * ((pow2(74) * w) * pow2(s2)))
                * m2) by (nonlinear_arith);
        }
    }
    assert(num * m2 == n * den) by (nonlinear_arith)
        requires (num * m2) * w == (n * den) * w, w > 0;
    vstd::arithmetic::div_mod::lemma_fundamental_div_mod(n as int, m2 as int);
    let r = n % m2;
    assert(n == m2 * sig + r);
    assert((sig * den) * m2 + r * den == num * m2) by (nonlinear_arith)
        requires num * m2 == n * den, n == m2 * sig + r;
    assert(r * den < m2 * den) by (nonlinear_arith)
        requires r < m2, den > 0;
    assert(r > 0 <==> r * den > 0) by (nonlinear_arith)
        requires den > 0;
    assert(((sig + 1) * den) * m2 == (sig * den) * m2 + m2 * den) by (nonlinear_arith);
    assert(sig * den <= num) by (nonlinear_arith)
        requires (sig * den) * m2 <= num * m2, m2 > 0;
    assert(num < (sig + 1) * den) by (nonlinear_arith)
        requires num * m2 < ((sig + 1) * den) * m2, m2 > 0;
    assert(r > 0 ==> sig * den != num);
    assert(r == 0 ==> sig * den == num) by (nonlinear_arith)
        requires (sig * den) * m2 + r * den == num * m2, m2 > 0;
}

/// The pattern nearest to the quotient of two magnitudes.
pub(crate) fn quotient_magnitudes(j: u64, k: u64) -> (r: u64)
    requires
        0 < j < INF,
        0 < k < INF,
    ensures
        r <= INF,
        r == nearest(units(j as nat) * pow2(1074), units(k as nat)),
{
    let (m, e) = split(j);
    let (m2, s2) = split(k);
    let mut m1: u64 = m;
    let mut s1: i64 = e as i64;
    let ghost u = units(j as nat);
    let mut left: u64 = 52;
    proof {
        lemma_pow2_adds(e as nat, 52);
        assert((m as nat * pow2(e as nat)) * pow2(52) == m as nat * (pow2(e as nat) * pow2(52)))
            by (nonlinear_arith);
        lemma2_to64();
        lemma2_to64_rest();
        lemma_units_order(0, j as nat);
        lemma_units_order(0, k as nat);
    }
    while m1 < BINADE && left > 0
        invariant
            left <= 52,
            s1 <= 2045,
            s1 >= -52,
            m1 < BINADE ==> s1 == left - 52,
            m1 as nat * pow2((s1 + 52) as nat) == u * pow2(52),
            m1 < 2 * BINADE,
            pow2(52) == BINADE,
            u > 0,
        decreases left,
    {
        proof {
            lemma_pow2_unfold((s1 + 52) as nat);
            assert(m1 as nat * (2 * pow2((s1 + 51) as nat)) == (2 * m1 as nat) * pow2(
                (s1 + 51) as nat,
            )) by (nonlinear_arith);
        }
        m1 = m1 * 2;
        s1 = s1 - 1;
        left = left - 1;
    }
    let w = power_of_two(74);
    proof {
        if m1 < BINADE {
            assert(m1 as nat * pow2(0) == m1) by (nonlinear_arith)
                requires pow2(0) == 1;
            assert(u * BINADE >= BINADE) by (nonlinear_arith)
                requires u > 0;
        }
        lemma_pow2_adds(64, 10);
        assert(m1 * w >= BINADE * w) by (nonlinear_arith)
            requires m1 >= BINADE;
        assert(m1 * w < 0x20_0000_0000_0000 * w) by (nonlinear_arith)
            requires m1 < 0x20_0000_0000_0000, w > 0;
    }
    let n: u128 = (m1 as u128) * w;
    let sig: u128 = n / (m2 as u128);
    let s: i64 = s1 + 1000 - s2 as i64;
    proof {
        assert(sig >= 4 * BINADE) by (nonlinear_arith)
            requires
                sig == n / (m2 as u128),
                n >= 0x10_0000_0000_0000 * 0x400_0000_0000_0000_0000,
                0 < m2 < 0x20_0000_0000_0000,
        {
            vstd::arithmetic::div_mod::lemma_fundamental_div_mod(n as int, m2 as int);
        }
        lemma_quotient_scaled(u, m1 as nat, s1 as int, m2 as nat, s2 as nat, n as nat, s as int,
            u * pow2(1074), units(k as nat), sig as nat, n % (m2 as u128) != 0);
    }
    round_scaled(sig, s, n % (m2 as u128) != 0, Ghost(u * pow2(1074)), Ghost(units(k as nat)))
}

} // verus!
