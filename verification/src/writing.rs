//! Writing binary64 numbers in decimal.
use crate::binary64::{Real, SIGN};
use crate::digits::{lemma_ten_to_pos, low_value, ten_to, Digits};
use crate::magnitude::{power_of_two, split};
use crate::rounding::{units, INF};
use crate::text::{decimal, digit_char, push_decimal};
use vstd::arithmetic::div_mod::*;
use vstd::arithmetic::power2::*;
use vstd::prelude::*;
use vstd::string::*;

verus! {

/// The integer nearest to `p / q`, halves going to the even one.
pub open spec fn half_even(p: nat, q: nat) -> nat {
    let n = p / q;
    let r = p % q;
    if 2 * r < q || (2 * r == q && n % 2 == 0) {
        n
    } else {
        n + 1
    }
}

/// A number in exactly `width` digits, the lowest ones if it has more.
pub open spec fn padded(n: nat, width: nat) -> Seq<char>
    decreases width,
{
    if width == 0 {
        seq![]
    } else {
        padded(n / 10, (width - 1) as nat).push(digit_char(n % 10))
    }
}

/// A magnitude of units with a fixed number of digits behind the point.
pub open spec fn fixed_magnitude(u: nat, places: nat) -> Seq<char> {
    let n = half_even(u * ten_to(places), pow2(1074));
    if places == 0 {
        decimal(n)
    } else {
        decimal(n / ten_to(places)).push('.') + padded(n % ten_to(places), places)
    }
}

/// A number with a fixed number of digits behind the point.
pub open spec fn fixed(x: Real, places: nat) -> Seq<char> {
    if x.is_nan() {
        "NaN"@
    } else {
        (if x.negative() { "-"@ } else { ""@ }) + (if x.is_infinite() {
            "inf"@
        } else {
            fixed_magnitude(units(x.magnitude()), places)
        })
    }
}

/// Puts a number of any size at the end of a text.
fn push_digits(s: &mut String, n: &Digits)
    requires
        n.wf(),
    ensures
        final(s)@ == old(s)@ + decimal(n.value()),
{
    let ghost before = s@;
    let ghost d = n.d@;
    let mut top: usize = n.d.len();
    while top > 0 && n.d[top - 1] == 0
        invariant
            top <= n.d@.len(),
            n.d@ == d,
            low_value(d, top as nat) == n.value(),
        decreases top,
    {
        proof {
            assert(0 * ten_to((top - 1) as nat) == 0);
        }
        top = top - 1;
    }
    if top == 0 {
        push_decimal(s, 0);
        return;
    }
    let ghost mut high: nat = 0;
    let mut i: usize = top;
    proof {
        assert(0 * ten_to(top as nat) == 0);
    }
    while i > 0
        invariant
            i <= top <= d.len(),
            top > 0,
            d[top - 1] != 0,
            n.wf(),
            n.d@ == d,
            n.value() == high * ten_to(i as nat) + low_value(d, i as nat),
            i == top ==> high == 0 && s@ == before,
            i < top ==> high > 0 && s@ == before + decimal(high),
        decreases i,
    {
        let c: u8 = n.d[i - 1];
        let ghost w = ten_to((i - 1) as nat);
        s.push((48 + c) as char);
        proof {
            let next = 10 * high + c as nat;
            assert(next * w == high * (10 * w) + c as nat * w) by (nonlinear_arith)
                requires next == 10 * high + c as nat;
            assert(next / 10 == high && next % 10 == c as nat);
            assert(s@ =~= before + decimal(next));
            high = next;
        }
        i = i - 1;
    }
    proof {
        assert(high * 1 == high);
    }
}

/// Puts exactly `width` digits of a number at the end of a text.
pub(crate) fn push_padded(s: &mut String, n: u64, width: u32)
    ensures
        final(s)@ == old(s)@ + padded(n as nat, width as nat),
    decreases width,
{
    let ghost before = s@;
    if width > 0 {
        push_padded(s, n / 10, width - 1);
        s.push((48 + (n % 10) as u8) as char);
    }
    proof {
        assert(s@ =~= before + padded(n as nat, width as nat));
    }
}

/// A factor that numerator and denominator share makes no difference.
proof fn lemma_half_even_scaled(p: nat, q: nat, c: nat)
    requires
        q > 0,
        c > 0,
    ensures
        half_even(p * c, q * c) == half_even(p, q),
{
    lemma_fundamental_div_mod(p as int, q as int);
    let n = p / q;
    let r = p % q;
    assert(p * c == n * (q * c) + r * c) by (nonlinear_arith)
        requires p == q * n + r;
    assert(r * c < q * c) by (nonlinear_arith)
        requires r < q, c > 0;
    lemma_fundamental_div_mod_converse((p * c) as int, (q * c) as int, n as int, (r * c) as int);
    assert(2 * r < q <==> 2 * (r * c) < q * c) by (nonlinear_arith)
        requires c > 0;
    assert(2 * r == q <==> 2 * (r * c) == q * c) by (nonlinear_arith)
        requires c > 0;
}

/// What an integer scale leaves of a magnitude to write.
proof fn lemma_fixed_whole(m: nat, e: nat, places: nat)
    ensures
        ({
            let n = half_even((m * pow2(1074 + e)) * ten_to(places), pow2(1074));
            n / ten_to(places) == m * pow2(e) && n % ten_to(places) == 0
        }),
{
    let w = pow2(1074);
    let t = ten_to(places);
    let v = m * pow2(e);
    lemma_pow2_pos(1074);
    lemma_ten_to_pos(places);
    lemma_pow2_adds(e, 1074);
    let p = (m * pow2(1074 + e)) * t;
    assert(p == (v * t) * w) by (nonlinear_arith)
        requires
            p == (m * pow2(1074 + e)) * t,
            v == m * pow2(e),
            pow2(1074 + e) == pow2(e) * w;
    lemma_fundamental_div_mod_converse(p as int, w as int, (v * t) as int, 0);
    lemma_fundamental_div_mod_converse((v * t) as int, t as int, v as int, 0);
}

/// Puts a magnitude at the end of a text.
fn push_fixed_magnitude(s: &mut String, k: u64, places: u32)
    requires
        k < INF,
        places <= 3,
    ensures
        final(s)@ == old(s)@ + fixed_magnitude(units(k as nat), places as nat),
{
    let ghost before = s@;
    let (m, e) = split(k);
    let ghost u = units(k as nat);
    let t: u64 = match places {
        0 => 1,
        1 => 10,
        2 => 100,
        _ => 1000,
    };
    proof {
        reveal_with_fuel(ten_to, 4);
        assert(t == ten_to(places as nat));
    }
    if e >= 1074 {
        let mut n = Digits::of(m);
        let mut i: u64 = 1074;
        proof {
            lemma2_to64();
            assert(m as nat * pow2(0) == m as nat) by (nonlinear_arith)
                requires pow2(0) == 1;
        }
        while i < e
            invariant
                1074 <= i <= e,
                n.wf(),
                n.value() == m as nat * pow2((i - 1074) as nat),
            decreases e - i,
        {
            n.times_plus(2, 0);
            proof {
                lemma_pow2_unfold((i + 1 - 1074) as nat);
                let w = pow2((i - 1074) as nat);
                assert(m as nat * (2 * w) == (m as nat * w) * 2) by (nonlinear_arith);
            }
            i = i + 1;
        }
        proof {
            lemma_fixed_whole(m as nat, (e - 1074) as nat, places as nat);
        }
        push_digits(s, &n);
        if places > 0 {
            s.push('.');
            push_padded(s, 0, places);
        }
        proof {
            let r = half_even(u * ten_to(places as nat), pow2(1074));
            if places == 0 {
                assert(r / 1 == r) by (nonlinear_arith);
            }
            assert(s@ =~= before + fixed_magnitude(u, places as nat));
        }
    } else {
        let x: u128 = (m as u128) * (t as u128);
        let ghost g = (1074 - e) as nat;
        proof {
            lemma_pow2_pos(g);
            lemma_pow2_pos(e as nat);
            lemma_pow2_adds(g, e as nat);
            lemma_half_even_scaled(x as nat, pow2(g), pow2(e as nat));
            assert(x as nat * pow2(e as nat) == (m as nat * pow2(e as nat)) * t as nat)
                by (nonlinear_arith)
                requires x as nat == m as nat * t as nat;
        }
        let n: u64 = if 1074 - e > 80 {
            proof {
                lemma2_to64();
                lemma_pow2_strictly_increases(64, g);
                lemma_basic_div(x as int, pow2(g) as int);
                lemma_small_mod(x as nat, pow2(g));
            }
            0
        } else {
            let w = power_of_two(1074 - e);
            let f: u128 = x / w;
            let r: u128 = x % w;
            proof {
                assert(f <= x) by (nonlinear_arith)
                    requires f == x / w, w >= 1;
            }
            if 2 * r < w || (2 * r == w && f % 2 == 0) {
                f as u64
            } else {
                (f + 1) as u64
            }
        };
        proof {
            assert(n as nat == half_even(u * ten_to(places as nat), pow2(1074)));
        }
        push_decimal(s, n / t);
        let ghost whole = decimal((n / t) as nat);
        if places > 0 {
            s.push('.');
            push_padded(s, n % t, places);
            proof {
                assert(fixed_magnitude(u, places as nat) == whole.push('.') + padded(
                    (n % t) as nat,
                    places as nat,
                ));
                assert(s@ =~= before + (whole.push('.') + padded((n % t) as nat, places as nat)));
            }
        } else {
            proof {
                assert(t == 1 && n / t == n);
                assert(fixed_magnitude(u, places as nat) == whole);
            }
        }
    }
}

/// Puts a number with a fixed number of digits behind the point at the end of a text.
pub fn push_fixed(s: &mut String, x: Real, places: u32)
    requires
        places <= 3,
    ensures
        final(s)@ == old(s)@ + fixed(x, places as nat),
{
    let ghost before = s@;
    let k: u64 = x.bits % SIGN;
    if k > INF {
        s.append("NaN");
        return;
    }
    if x.bits >= SIGN {
        s.append("-");
    }
    let ghost between = s@;
    if k == INF {
        s.append("inf");
    } else {
        push_fixed_magnitude(s, k, places);
    }
    proof {
        reveal_strlit("");
        assert(between =~= before + (if x.negative() { "-"@ } else { ""@ }));
        assert(s@ =~= before + fixed(x, places as nat));
    }
}

} // verus!
