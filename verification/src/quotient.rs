//! The binary64 number nearest to a quotient of two natural numbers of any size.
use crate::digits::Digits;
use crate::magnitude::{is_scaled, round_scaled, scaled_den, scaled_num};
use crate::rounding::{
    lemma_nearest, lemma_round_overflow, lemma_units_scaled, nearest, rounds_to, units, BINADE, INF,
};
use vstd::arithmetic::power2::*;
use vstd::prelude::*;

verus! {

/// An integer part and what it leaves, carried from one fraction to an equal one.
pub proof fn lemma_scaled_from_quotient(num: nat, den: nat, n: nat, m: nat, sig: nat, r: nat)
    requires
        m > 0,
        den > 0,
        num * m == n * den,
        n == m * sig + r,
        r < m,
    ensures
        sig * den <= num < (sig + 1) * den,
        r != 0 <==> sig * den != num,
{
    assert((sig * den) * m + r * den == num * m) by (nonlinear_arith)
        requires num * m == n * den, n == m * sig + r;
    assert(r * den < m * den) by (nonlinear_arith)
        requires r < m, den > 0;
    assert(r > 0 <==> r * den > 0) by (nonlinear_arith)
        requires den > 0;
    assert(((sig + 1) * den) * m == (sig * den) * m + m * den) by (nonlinear_arith);
    assert(sig * den <= num) by (nonlinear_arith)
        requires (sig * den) * m <= num * m, m > 0;
    assert(num < (sig + 1) * den) by (nonlinear_arith)
        requires num * m < ((sig + 1) * den) * m, m > 0;
    assert(r == 0 ==> sig * den == num) by (nonlinear_arith)
        requires (sig * den) * m + r * den == num * m, m > 0;
}

/// `(a / b) * 2^e` is `n / d`.
spec fn is_brought(n: nat, d: nat, a: nat, b: nat, e: int) -> bool {
    (n * b) * pow2(1200) == (a * d) * pow2((e + 1200) as nat)
}

proof fn lemma_brought_down(n: nat, d: nat, a: nat, b: nat, e: int)
    requires
        e > -1200,
        is_brought(n, d, a, b, e),
    ensures
        is_brought(n, d, 2 * a, b, e - 1),
{
    lemma_pow2_unfold((e + 1200) as nat);
    let w = pow2((e + 1199) as nat);
    assert((a * d) * (2 * w) == ((2 * a) * d) * w) by (nonlinear_arith);
}

proof fn lemma_brought_up(n: nat, d: nat, a: nat, b: nat, e: int)
    requires
        e >= -1200,
        is_brought(n, d, a, b, e),
    ensures
        is_brought(n, d, a, 2 * b, e + 1),
{
    lemma_pow2_unfold((e + 1201) as nat);
    let w = pow2((e + 1200) as nat);
    assert((a * d) * (2 * w) == 2 * ((a * d) * w)) by (nonlinear_arith);
    assert((n * (2 * b)) * pow2(1200) == 2 * ((n * b) * pow2(1200))) by (nonlinear_arith);
}

/// A quotient far below the smallest number rounds to zero.
proof fn lemma_rounds_to_zero(n: nat, d: nat, a: nat, b: nat)
    requires
        d > 0,
        a < b,
        is_brought(n, d, a, b, -1200),
    ensures
        nearest(n * pow2(1074), d) == 0,
{
    lemma2_to64();
    let w = pow2(1200);
    assert((a * d) * pow2(0) == a * d) by (nonlinear_arith)
        requires pow2(0) == 1;
    assert(n * w < d) by (nonlinear_arith)
        requires (n * b) * w == a * d, a < b, d > 0;
    lemma_pow2_adds(126, 1074);
    lemma_pow2_adds(125, 1);
    lemma_pow2_pos(125);
    assert(2 * (n * pow2(1074)) <= n * w) by (nonlinear_arith)
        requires w == (2 * pow2(125)) * pow2(1074), pow2(125) > 0;
    assert((units(0) + units(1)) * d == d) by (nonlinear_arith)
        requires units(0) == 0, units(1) == 1;
    assert(rounds_to(n * pow2(1074), d, 0));
    lemma_nearest(n * pow2(1074), d, 0);
}

/// A quotient far above the largest number rounds to infinity.
proof fn lemma_rounds_to_infinity(n: nat, d: nat, a: nat, b: nat, e: int)
    requires
        d > 0,
        b > 0,
        e >= 1024,
        a >= b,
        is_brought(n, d, a, b, e),
    ensures
        nearest(n * pow2(1074), d) == INF,
{
    let w = pow2(1200);
    lemma_pow2_pos(1200);
    lemma_pow2_adds(e as nat, 1200);
    let v = pow2(e as nat);
    assert((a * d) * (v * w) == ((a * d) * v) * w) by (nonlinear_arith);
    assert(n * b == (a * d) * v) by (nonlinear_arith)
        requires (n * b) * w == ((a * d) * v) * w, w > 0;
    assert(n >= d * v) by (nonlinear_arith)
        requires n * b == (a * d) * v, a >= b, b > 0;
    if e > 1024 {
        lemma_pow2_strictly_increases(1024, e as nat);
    }
    lemma_pow2_adds(1024, 1074);
    lemma_pow2_adds(52, 2046);
    lemma2_to64_rest();
    lemma_units_scaled(BINADE as nat, 2046);
    assert(units(INF as nat) == pow2(1024) * pow2(1074));
    assert(units(INF as nat) * d <= n * pow2(1074)) by (nonlinear_arith)
        requires
            units(INF as nat) == pow2(1024) * pow2(1074),
            n >= d * v,
            v >= pow2(1024);
    lemma_round_overflow(n * pow2(1074), d);
    lemma_nearest(n * pow2(1074), d, INF as nat);
}

/// The bits of a quotient, as `round_scaled` wants them.
proof fn lemma_bits_scaled(n: nat, d: nat, a: nat, b: nat, e: int, sig: nat, r: nat)
    requires
        d > 0,
        b > 0,
        -1200 <= e,
        is_brought(n, d, a, b, e),
        a * pow2(56) == sig * (2 * b) + r,
        r < 2 * b,
    ensures
        is_scaled(sig, e + 1019, r != 0, n * pow2(1074), d),
{
    let s = e + 1019;
    let p = n * pow2(1074);
    let num = scaled_num(p, s);
    let den = scaled_den(d, s);
    let w = pow2(125);
    lemma_pow2_pos(125);
    assert(den > 0) by {
        if s >= 0 {
            lemma_pow2_pos(s as nat);
            assert(d * pow2(s as nat) > 0) by (nonlinear_arith)
                requires d > 0, pow2(s as nat) > 0;
        }
    }
    lemma_pow2_adds(1074, 1);
    lemma_pow2_adds(1075, 125);
    lemma2_to64();
    assert((p * (2 * b)) * w == (n * b) * pow2(1200)) by (nonlinear_arith)
        requires p == n * pow2(1074), pow2(1200) == (pow2(1074) * 2) * w;
    let k = a * pow2(56);
    lemma_pow2_adds(56, 125);
    assert((num * (2 * b)) * w == (k * den) * w) by {
        if s >= 0 {
            lemma_pow2_adds(s as nat, 181);
            assert((k * (d * pow2(s as nat))) * w == (a * d) * (pow2(s as nat) * (pow2(56) * w)))
                by (nonlinear_arith)
                requires k == a * pow2(56);
        } else {
            let t = pow2((-s) as nat);
            lemma_pow2_adds((e + 1200) as nat, (-s) as nat);
            assert(((p * t) * (2 * b)) * w == ((p * (2 * b)) * w) * t) by (nonlinear_arith);
            assert(((a * d) * pow2((e + 1200) as nat)) * t == (a * d) * (pow2((e + 1200) as nat)
                * t)) by (nonlinear_arith);
            assert((k * d) * w == (a * d) * (pow2(56) * w)) by (nonlinear_arith)
                requires k == a * pow2(56);
        }
    }
    assert(num * (2 * b) == k * den) by (nonlinear_arith)
        requires (num * (2 * b)) * w == (k * den) * w, w > 0;
    assert(sig * (2 * b) == (2 * b) * sig) by (nonlinear_arith);
    lemma_scaled_from_quotient(num, den, k, 2 * b, sig, r);
}

/// The pattern nearest to `n / d`.
pub fn nearest_quotient(n: &Digits, d: &Digits) -> (k: u64)
    requires
        n.wf(),
        d.wf(),
        d.value() > 0,
    ensures
        k <= INF,
        k == nearest(n.value() * pow2(1074), d.value()),
{
    let ghost nv = n.value();
    let ghost dv = d.value();
    if n.is_zero() {
        proof {
            assert(0 * pow2(1074) == 0);
            assert((units(0) + units(1)) * dv > 0) by (nonlinear_arith)
                requires units(0) == 0, units(1) == 1, dv > 0;
            lemma_nearest(0, dv, 0);
        }
        return 0;
    }
    let mut a = n.copied();
    let mut b = d.copied();
    let mut e: i64 = 0;
    proof {
        assert(is_brought(nv, dv, nv, dv, 0));
    }
    while a.less(&b)
        invariant
            a.wf(),
            b.wf(),
            a.value() > 0,
            b.value() > 0,
            dv > 0,
            -1200 <= e <= 0,
            n.value() == nv,
            d.value() == dv,
            is_brought(nv, dv, a.value(), b.value(), e as int),
        decreases e + 1200,
    {
        if e <= -1200 {
            proof {
                lemma_rounds_to_zero(nv, dv, a.value(), b.value());
            }
            return 0;
        }
        proof {
            lemma_brought_down(nv, dv, a.value(), b.value(), e as int);
        }
        a.times_plus(2, 0);
        e = e - 1;
    }
    let mut c = b.copied();
    c.times_plus(2, 0);
    while !a.less(&c)
        invariant
            a.wf(),
            b.wf(),
            c.wf(),
            c.value() == 2 * b.value(),
            a.value() >= b.value() > 0,
            dv > 0,
            n.value() == nv,
            d.value() == dv,
            -1200 <= e <= 1024,
            is_brought(nv, dv, a.value(), b.value(), e as int),
        decreases 1024 - e,
    {
        if e >= 1024 {
            proof {
                lemma_rounds_to_infinity(nv, dv, a.value(), b.value(), e as int);
            }
            return INF;
        }
        proof {
            lemma_brought_up(nv, dv, a.value(), b.value(), e as int);
        }
        b.times_plus(2, 0);
        c.times_plus(2, 0);
        e = e + 1;
    }
    let ghost a0 = a.value();
    let mut sig: u128 = 0;
    let mut i: u64 = 0;
    proof {
        lemma2_to64();
        lemma2_to64_rest();
        assert(a0 * pow2(0) == a0) by (nonlinear_arith)
            requires pow2(0) == 1;
        assert(0 * (2 * b.value()) == 0);
    }
    while i < 56
        invariant
            a.wf(),
            b.wf(),
            c.wf(),
            c.value() == 2 * b.value(),
            b.value() > 0,
            a.value() < 2 * b.value(),
            i <= 56,
            i == 0 ==> a.value() == a0 && sig == 0,
            b.value() <= a0,
            sig < pow2(i as nat),
            i > 0 ==> 2 * sig >= pow2(i as nat),
            pow2(56) == 0x100_0000_0000_0000,
            pow2(0) == 1,
            a0 * pow2(i as nat) == sig as nat * (2 * b.value()) + a.value(),
        decreases 56 - i,
    {
        proof {
            lemma_pow2_unfold((i + 1) as nat);
            if i + 1 < 56 {
                lemma_pow2_strictly_increases((i + 1) as nat, 56);
            }
            let w = pow2(i as nat);
            let m = 2 * b.value();
            assert(a0 * (2 * w) == 2 * (a0 * w)) by (nonlinear_arith);
            assert((2 * sig as nat) * m == 2 * (sig as nat * m)) by (nonlinear_arith);
            assert((2 * sig as nat + 1) * m == 2 * (sig as nat * m) + m) by (nonlinear_arith);
        }
        if a.less(&b) {
            sig = sig * 2;
        } else {
            sig = sig * 2 + 1;
            a.subtract(&b);
        }
        a.times_plus(2, 0);
        i = i + 1;
    }
    let rest: bool = !a.is_zero();
    proof {
        lemma_bits_scaled(nv, dv, a0, b.value(), e as int, sig as nat, a.value());
    }
    round_scaled(sig, e + 1019, rest, Ghost(nv * pow2(1074)), Ghost(dv))
}

} // verus!
