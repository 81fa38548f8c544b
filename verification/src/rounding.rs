//! Magnitudes of binary64 numbers and rounding to the nearest of them.
//!
//! The bit pattern of a non-negative binary64 number, read as an integer, is its
//! rank among the non-negative binary64 numbers. Every finite one is a whole number
//! of `2^-1074`; `units` gives that number for a pattern. The pattern of infinity
//! stands for `2^1024` here, which makes rounding that overflows a case like any
//! other.
use vstd::arithmetic::power2::*;
use vstd::prelude::*;

verus! {

/// `2^52`, the number of significands of one binade.
pub const BINADE: u64 = 0x10_0000_0000_0000;

/// The pattern of positive infinity.
pub const INF: u64 = 0x7FF0_0000_0000_0000;

/// The magnitude of pattern `k` in units of `2^-1074`.
pub open spec fn units(k: nat) -> nat {
    if k < BINADE {
        k
    } else {
        (BINADE as nat + k % (BINADE as nat)) * pow2((k / (BINADE as nat) - 1) as nat)
    }
}

/// Pattern `k` is the one nearest to `p / q` units, ties going to the even pattern.
pub open spec fn rounds_to(p: nat, q: nat, k: nat) -> bool {
    &&& k <= INF
    &&& k > 0 ==> {
        let low = (units((k - 1) as nat) + units(k)) * q;
        low < 2 * p || (low == 2 * p && k % 2 == 0)
    }
    &&& k < INF ==> {
        let high = (units(k) + units(k + 1)) * q;
        2 * p < high || (2 * p == high && k % 2 == 0)
    }
}

/// The pattern nearest to `p / q` units.
pub open spec fn nearest(p: nat, q: nat) -> nat {
    choose|k: nat| rounds_to(p, q, k)
}

/// A significand and a scale give the pattern that ranks them.
pub proof fn lemma_units_scaled(sig: nat, s: nat)
    requires
        sig <= 2 * BINADE,
        sig >= BINADE || s == 0,
    ensures
        units(s * (BINADE as nat) + sig) == sig * pow2(s),
{
    let b = BINADE as nat;
    let k = s * b + sig;
    lemma2_to64();
    if sig < b {
        assert(k == sig);
        assert(sig * pow2(0) == sig) by (nonlinear_arith)
            requires pow2(0) == 1;
    } else if sig < 2 * b {
        assert(k == (s + 1) * b + (sig - b)) by (nonlinear_arith)
            requires k == s * b + sig;
        assert(k / b == s + 1 && k % b == sig - b) by {
            vstd::arithmetic::div_mod::lemma_fundamental_div_mod_converse(
                k as int, b as int, (s + 1) as int, sig - b);
        }
    } else {
        assert(sig == 2 * b);
        assert(k == (s + 2) * b) by (nonlinear_arith)
            requires k == s * b + 2 * b;
        assert(k / b == s + 2 && k % b == 0) by {
            vstd::arithmetic::div_mod::lemma_fundamental_div_mod_converse(
                k as int, b as int, (s + 2) as int, 0);
        }
        lemma_pow2_unfold((s + 1) as nat);
        assert(b * (2 * pow2(s)) == (2 * b) * pow2(s)) by (nonlinear_arith);
    }
}

/// Consecutive patterns are consecutive numbers.
pub proof fn lemma_units_step(k: nat)
    ensures
        units(k) < units(k + 1),
{
    let b = BINADE as nat;
    if k < b {
        if k + 1 == b {
            lemma_units_scaled(b, 0);
            lemma2_to64();
        }
    } else {
        let s = (k / b - 1) as nat;
        let sig = b + k % b;
        assert(k == s * b + sig) by {
            vstd::arithmetic::div_mod::lemma_fundamental_div_mod(k as int, b as int);
            assert((s + 1) * b == s * b + b) by (nonlinear_arith);
            assert(b * (s + 1) == (s + 1) * b) by (nonlinear_arith);
        }
        lemma_units_scaled(sig, s);
        lemma_units_scaled(sig + 1, s);
        lemma_pow2_pos(s);
        assert(sig * pow2(s) < (sig + 1) * pow2(s)) by (nonlinear_arith)
            requires pow2(s) > 0;
    }
}

/// A larger pattern is a larger number.
pub proof fn lemma_units_increase(j: nat, k: nat)
    requires
        j < k,
    ensures
        units(j) < units(k),
    decreases k,
{
    if j + 1 == k {
        lemma_units_step(j);
    } else {
        lemma_units_increase(j, (k - 1) as nat);
        lemma_units_step((k - 1) as nat);
    }
}

/// Patterns order as the numbers do.
pub proof fn lemma_units_order(j: nat, k: nat)
    ensures
        units(j) < units(k) <==> j < k,
        units(j) == units(k) <==> j == k,
{
    if j < k {
        lemma_units_increase(j, k);
    } else if k < j {
        lemma_units_increase(k, j);
    }
}

/// At most one pattern is nearest.
pub proof fn lemma_rounds_to_unique(p: nat, q: nat, j: nat, k: nat)
    requires
        q > 0,
        rounds_to(p, q, j),
        rounds_to(p, q, k),
    ensures
        j == k,
{
    if j < k {
        lemma_rounds_to_no_higher(p, q, j, k);
    } else if k < j {
        lemma_rounds_to_no_higher(p, q, k, j);
    }
}

proof fn lemma_rounds_to_no_higher(p: nat, q: nat, j: nat, k: nat)
    requires
        q > 0,
        j < k,
        rounds_to(p, q, j),
    ensures
        !rounds_to(p, q, k),
{
    let high = units(j) + units(j + 1);
    let low = units((k - 1) as nat) + units(k);
    if j + 1 == k {
        assert(j % 2 == 0 ==> k % 2 != 0);
    } else {
        lemma_units_increase(j, (k - 1) as nat);
        lemma_units_increase(j + 1, k);
        assert(high * q < low * q) by (nonlinear_arith)
            requires high < low, q > 0;
    }
}

/// A pattern shown to be nearest is the value of `nearest`.
pub proof fn lemma_nearest(p: nat, q: nat, k: nat)
    requires
        q > 0,
        rounds_to(p, q, k),
    ensures
        nearest(p, q) == k,
{
    lemma_rounds_to_unique(p, q, nearest(p, q), k);
}

/// Rounding a number that lies between two consecutive patterns.
pub proof fn lemma_round_between(p: nat, q: nat, k: nat, up: bool)
    requires
        q > 0,
        k < INF,
        units(k) * q <= p < units(k + 1) * q,
        ({
            let mid = (units(k) + units(k + 1)) * q;
            up == (2 * p > mid || (2 * p == mid && k % 2 != 0))
        }),
    ensures
        rounds_to(p, q, if up { k + 1 } else { k }),
{
    if up {
        lemma_units_step(k + 1);
        assert((units(k + 1) + units(k + 2)) * q > 2 * p) by (nonlinear_arith)
            requires
                p < units(k + 1) * q,
                units(k + 1) < units(k + 2),
                q > 0;
    } else if k > 0 {
        lemma_units_step((k - 1) as nat);
        assert((units((k - 1) as nat) + units(k)) * q < 2 * p) by (nonlinear_arith)
            requires
                units(k) * q <= p,
                units((k - 1) as nat) < units(k),
                q > 0;
    }
}

/// A number of at least `2^1024` rounds to infinity.
pub proof fn lemma_round_overflow(p: nat, q: nat)
    requires
        q > 0,
        units(INF as nat) * q <= p,
    ensures
        rounds_to(p, q, INF as nat),
{
    let k = INF as nat;
    lemma_units_step((k - 1) as nat);
    assert((units((k - 1) as nat) + units(k)) * q < 2 * p) by (nonlinear_arith)
        requires
            units(k) * q <= p,
            units((k - 1) as nat) < units(k),
            q > 0;
}

/// Some pattern is nearest.
proof fn lemma_some_nearest(p: nat, q: nat, k: nat)
    requires
        q > 0,
        k <= INF,
        units(k) * q <= p,
    ensures
        exists|j: nat| rounds_to(p, q, j),
    decreases INF - k,
{
    if k == INF {
        lemma_round_overflow(p, q);
    } else if p < units(k + 1) * q {
        let mid = (units(k) + units(k + 1)) * q;
        let up = 2 * p > mid || (2 * p == mid && k % 2 != 0);
        lemma_round_between(p, q, k, up);
    } else {
        lemma_some_nearest(p, q, k + 1);
    }
}

/// `nearest` is nearest.
pub proof fn lemma_nearest_rounds(p: nat, q: nat)
    requires
        q > 0,
    ensures
        rounds_to(p, q, nearest(p, q)),
        nearest(p, q) <= INF,
{
    assert(units(0) * q == 0) by (nonlinear_arith)
        requires units(0) == 0;
    lemma_some_nearest(p, q, 0);
}

/// What is no larger rounds to no larger a pattern.
pub proof fn lemma_nearest_ordered(p: nat, p2: nat, q: nat)
    requires
        q > 0,
        p <= p2,
    ensures
        nearest(p, q) <= nearest(p2, q),
{
    let k = nearest(p, q);
    let j = nearest(p2, q);
    lemma_nearest_rounds(p, q);
    lemma_nearest_rounds(p2, q);
    if j < k {
        let high = units(j) + units(j + 1);
        let low = units((k - 1) as nat) + units(k);
        if j + 1 == k {
            assert(j % 2 == 0 ==> k % 2 != 0);
        } else {
            lemma_units_increase(j, (k - 1) as nat);
            lemma_units_increase(j + 1, k);
            assert(high * q < low * q) by (nonlinear_arith)
                requires high < low, q > 0;
        }
    }
}

/// A number that a pattern stands for rounds to that pattern.
pub proof fn lemma_nearest_exact(p: nat, q: nat, k: nat)
    requires
        q > 0,
        k <= INF,
        units(k) * q == p,
    ensures
        nearest(p, q) == k,
{
    if k == INF {
        lemma_round_overflow(p, q);
    } else {
        lemma_units_step(k);
        assert(units(k + 1) * q > p && (units(k) + units(k + 1)) * q > 2 * p) by (nonlinear_arith)
            requires units(k) * q == p, units(k) < units(k + 1), q > 0;
        lemma_round_between(p, q, k, false);
    }
    lemma_nearest(p, q, k);
}

} // verus!
