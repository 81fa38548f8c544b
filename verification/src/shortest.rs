//! Writing a binary64 number in as few digits as read back as the same number.
use crate::binary64::{Real, SIGN};
use crate::digits::{lemma_ten_to_adds, lemma_ten_to_pos, ten_to, Digits};
use crate::magnitude::split;
use crate::numerals::{lemma_ten_to_outgrows, nearest_decimal, times_power_of_ten};
use crate::quotient::{lemma_scaled_from_quotient, nearest_quotient};
use crate::rounding::{lemma_units_order, units, INF};
use crate::text::{decimal, push_decimal};
use crate::writing::{padded, push_padded};
use vstd::arithmetic::div_mod::*;
use vstd::arithmetic::power2::*;
use vstd::prelude::*;
use vstd::string::*;

verus! {

/// Numerator of a magnitude of units times `10^t`.
pub open spec fn shifted_num(u: nat, t: int) -> nat {
    if t >= 0 {
        u * ten_to(t as nat)
    } else {
        u
    }
}

/// Denominator of a magnitude of units times `10^t`.
pub open spec fn shifted_den(t: int) -> nat {
    if t >= 0 {
        pow2(1074)
    } else {
        pow2(1074) * ten_to((-t) as nat)
    }
}

/// The digits of a magnitude down to the `t`-th place behind the point.
pub open spec fn cut(u: nat, t: int) -> nat {
    shifted_num(u, t) / shifted_den(t)
}

/// What `cut` drops is at least half a unit of the last place.
pub open spec fn cuts_half(u: nat, t: int) -> bool {
    2 * (shifted_num(u, t) % shifted_den(t)) >= shifted_den(t)
}

/// The place of the first digit that is not zero.
pub open spec fn first_place(u: nat) -> int {
    choose|t: int| 1 <= #[trigger] cut(u, t) < 10
}

/// The fewest digits from `n` on that read back as pattern `k`, with the place of the last
/// one; the nearer of two such numbers; at most seventeen digits.
pub open spec fn fewest_digits(k: nat, t: int, n: nat) -> (nat, int)
    decreases 17 - n,
{
    let d = cut(units(k), t);
    let low = nearest_decimal(d, -t) == k;
    let high = nearest_decimal(d + 1, -t) == k;
    if low && high || (!low && !high && n >= 17) {
        (if cuts_half(units(k), t) { d + 1 } else { d }, t)
    } else if low {
        (d, t)
    } else if high {
        (d + 1, t)
    } else {
        fewest_digits(k, t + 1, n + 1)
    }
}

/// `d / 10^t` in digits, without zeros at the end behind the point.
pub open spec fn plain(d: nat, t: int) -> Seq<char>
    decreases d,
{
    if d > 0 && d % 10 == 0 {
        plain(d / 10, t - 1)
    } else if t <= 0 {
        decimal(d) + Seq::new((-t) as nat, |i: int| '0')
    } else {
        decimal(d / ten_to(t as nat)).push('.') + padded(d % ten_to(t as nat), t as nat)
    }
}

/// A number in as few digits as read back as the same number.
pub open spec fn shortest(x: Real) -> Seq<char> {
    if x.is_nan() {
        "NaN"@
    } else {
        (if x.negative() { "-"@ } else { ""@ }) + (if x.is_infinite() {
            "inf"@
        } else if x.magnitude() == 0 {
            "0"@
        } else {
            let (d, t) = fewest_digits(
                x.magnitude(),
                first_place(units(x.magnitude())),
                1,
            );
            plain(d, t)
        })
    }
}

/// `a / b` is a magnitude of units times `10^t`.
spec fn stands_at_place(u: nat, t: int, a: nat, b: nat) -> bool {
    shifted_num(u, t) * b == a * shifted_den(t)
}

pub proof fn lemma_shifted_den_pos(t: int)
    ensures
        shifted_den(t) > 0,
{
    lemma_pow2_pos(1074);
    if t < 0 {
        lemma_ten_to_pos((-t) as nat);
        assert(pow2(1074) * ten_to((-t) as nat) > 0) by (nonlinear_arith)
            requires pow2(1074) > 0, ten_to((-t) as nat) > 0;
    }
}

/// Moving the point by one place.
pub proof fn lemma_next_place(u: nat, t: int)
    ensures
        t >= 0 ==> shifted_num(u, t + 1) == 10 * shifted_num(u, t) && shifted_den(t + 1)
            == shifted_den(t),
        t < 0 ==> shifted_num(u, t + 1) == shifted_num(u, t) && shifted_den(t) == 10 * shifted_den(
            t + 1,
        ),
{
    if t >= 0 {
        let w = ten_to(t as nat);
        assert(ten_to((t + 1) as nat) == 10 * w);
        assert(u * (10 * w) == 10 * (u * w)) by (nonlinear_arith);
    } else {
        let w = ten_to((-t - 1) as nat);
        assert(ten_to((-t) as nat) == 10 * w);
        assert(pow2(1074) * (10 * w) == 10 * (pow2(1074) * w)) by (nonlinear_arith);
        if t == -1 {
            assert(w == 1);
            assert(u * 1 == u && pow2(1074) * 1 == pow2(1074));
        }
    }
}

proof fn lemma_place_up(u: nat, t: int, a: nat, b: nat)
    requires
        stands_at_place(u, t, a, b),
    ensures
        stands_at_place(u, t + 1, 10 * a, b),
{
    lemma_next_place(u, t);
    let n = shifted_num(u, t);
    let d = shifted_den(t);
    let d1 = shifted_den(t + 1);
    if t >= 0 {
        assert((10 * n) * b == (10 * a) * d) by (nonlinear_arith)
            requires n * b == a * d;
    } else {
        assert(n * b == (10 * a) * d1) by (nonlinear_arith)
            requires n * b == a * d, d == 10 * d1;
    }
}

proof fn lemma_place_down(u: nat, t: int, a: nat, b: nat)
    requires
        stands_at_place(u, t, a, b),
    ensures
        stands_at_place(u, t - 1, a, 10 * b),
{
    lemma_next_place(u, t - 1);
    let n = shifted_num(u, t);
    let d = shifted_den(t);
    let n1 = shifted_num(u, t - 1);
    let d1 = shifted_den(t - 1);
    if t - 1 >= 0 {
        assert(n1 * (10 * b) == a * d1) by (nonlinear_arith)
            requires n * b == a * d, n == 10 * n1, d == d1;
    } else {
        assert(n1 * (10 * b) == a * d1) by (nonlinear_arith)
            requires n * b == a * d, n == n1, d1 == 10 * d;
    }
}

/// The digits and what they drop, seen on an equal fraction.
proof fn lemma_cut(u: nat, t: int, a: nat, b: nat, d: nat, r: nat)
    requires
        b > 0,
        stands_at_place(u, t, a, b),
        a == d * b + r,
        r < b,
    ensures
        cut(u, t) == d,
        cuts_half(u, t) == (2 * r >= b),
{
    let num = shifted_num(u, t);
    let den = shifted_den(t);
    lemma_shifted_den_pos(t);
    assert(d * b == b * d) by (nonlinear_arith);
    lemma_scaled_from_quotient(num, den, a, b, d, r);
    let rest = num - d * den;
    assert((d + 1) * den == d * den + den) by (nonlinear_arith);
    lemma_fundamental_div_mod_converse(num as int, den as int, d as int, rest);
    assert(rest * b == r * den) by (nonlinear_arith)
        requires num * b == a * den, a == d * b + r, rest == num - d * den;
    if 2 * r >= b {
        assert(2 * rest >= den) by (nonlinear_arith)
            requires rest * b == r * den, 2 * r >= b, b > 0, den > 0;
    } else {
        assert(2 * rest < den) by (nonlinear_arith)
            requires rest * b == r * den, 2 * r < b, b > 0, den > 0;
    }
}

/// One place only has the first digit that is not zero.
proof fn lemma_first_place(u: nat, t: int)
    requires
        1 <= cut(u, t) < 10,
    ensures
        first_place(u) == t,
{
    let f = first_place(u);
    if f < t {
        lemma_later_place(u, f, t);
    } else if t < f {
        lemma_later_place(u, t, f);
    }
}

/// A later place has more digits.
proof fn lemma_later_place(u: nat, t: int, f: int)
    requires
        t < f,
    ensures
        cut(u, f) >= 10 * cut(u, t),
    decreases f - t,
{
    if t + 1 < f {
        lemma_later_place(u, t, f - 1);
    }
    lemma_shifted_den_pos(f - 1);
    lemma_shifted_den_pos(f);
    let n = shifted_num(u, f - 1);
    let d = shifted_den(f - 1);
    let c = n / d;
    lemma_fundamental_div_mod(n as int, d as int);
    lemma_next_place(u, f - 1);
    let n1 = shifted_num(u, f);
    let d1 = shifted_den(f);
    assert((10 * c) * d1 <= n1) by (nonlinear_arith)
        requires
            d * c <= n,
            (n1 == 10 * n && d1 == d) || (n1 == n && d == 10 * d1);
    lemma_div_is_ordered(((10 * c) * d1) as int, n1 as int, d1 as int);
    lemma_div_by_multiple((10 * c) as int, d1 as int);
    assert(cut(u, f) >= 10 * c);
}

/// The pattern nearest to `d / 10^t`.
fn read_back(d: u64, t: i64) -> (k: u64)
    requires
        -1000 <= t <= 1000,
    ensures
        k == nearest_decimal(d as nat, -(t as int)),
{
    let mut n = Digits::of(d);
    let mut m = Digits::of(1);
    if t <= 0 {
        times_power_of_ten(&mut n, (-t) as u128);
    } else {
        times_power_of_ten(&mut m, t as u128);
        proof {
            lemma_ten_to_pos(t as nat);
            assert(1 * ten_to(t as nat) == ten_to(t as nat));
        }
    }
    nearest_quotient(&n, &m)
}

/// Takes as many of `b` from `a` as there are, at most nine.
fn take_digit(a: &mut Digits, b: &Digits) -> (c: u64)
    requires
        old(a).wf(),
        b.wf(),
        0 < b.value(),
        old(a).value() < 10 * b.value(),
    ensures
        final(a).wf(),
        final(a).value() < b.value(),
        old(a).value() == c as nat * b.value() + final(a).value(),
        c < 10,
{
    let ghost v = b.value();
    let ghost a0 = a.value();
    let mut c: u64 = 0;
    proof {
        assert(0 * v == 0);
    }
    while !a.less(b)
        invariant
            a.wf(),
            b.wf(),
            b.value() == v,
            v > 0,
            a0 < 10 * v,
            a0 == c as nat * v + a.value(),
        decreases a.value(),
    {
        proof {
            assert(c < 9) by (nonlinear_arith)
                requires a0 < 10 * v, a0 == c as nat * v + a.value(), a.value() >= v;
            assert((c as nat + 1) * v == c as nat * v + v) by (nonlinear_arith);
        }
        a.subtract(b);
        c = c + 1;
    }
    proof {
        assert(c < 10) by (nonlinear_arith)
            requires a0 < 10 * v, a0 >= c as nat * v;
    }
    c
}

/// The fraction of a magnitude, to start with.
fn fraction_of(k: u64) -> (r: (Digits, Digits))
    requires
        0 < k < INF,
    ensures
        r.0.wf(),
        r.1.wf(),
        0 < r.0.value() < ten_to(342),
        0 < r.1.value() <= ten_to(358),
        stands_at_place(units(k as nat), 0, r.0.value(), r.1.value()),
{
    let (m, e) = split(k);
    let mut a = Digits::of(m);
    let mut b = Digits::of(1);
    let ghost u = units(k as nat);
    let mut i: u64 = e;
    proof {
        lemma2_to64();
        lemma2_to64_rest();
        lemma_units_order(0, k as nat);
        assert(m > 0) by {
            if m == 0 {
                assert(0 * pow2(e as nat) == 0);
            }
        }
        lemma_pow2_pos(1074);
        lemma_ten_to_outgrows(342);
        lemma_ten_to_outgrows(358);
    }
    if e >= 1074 {
        proof {
            lemma_pow2_adds(0, 0);
            assert(m as nat * pow2(0) == m as nat) by (nonlinear_arith)
                requires pow2(0) == 1;
        }
        i = 1074;
        while i < e
            invariant
                1074 <= i <= e <= 2045,
                m > 0,
                a.wf(),
                a.value() == m as nat * pow2((i - 1074) as nat),
            decreases e - i,
        {
            a.times_plus(2, 0);
            proof {
                lemma_pow2_unfold((i + 1 - 1074) as nat);
                let w = pow2((i - 1074) as nat);
                assert(m as nat * (2 * w) == (m as nat * w) * 2) by (nonlinear_arith);
            }
            i = i + 1;
        }
        proof {
            let w = pow2((e - 1074) as nat);
            lemma_pow2_adds((e - 1074) as nat, 1074);
            lemma_pow2_pos((e - 1074) as nat);
            assert(m as nat * (w * pow2(1074)) == (m as nat * w) * pow2(1074)) by (nonlinear_arith);
            if e - 1074 < 971 {
                lemma_pow2_strictly_increases((e - 1074) as nat, 971);
            }
            lemma_pow2_adds(53, 971);
            lemma_pow2_strictly_increases(1024, 1026);
            assert(0 < m as nat * w < pow2(53) * pow2(971)) by (nonlinear_arith)
                requires 0 < m < pow2(53), 0 < w <= pow2(971);
        }
    } else {
        let mut j: u64 = 0;
        while j < 1074 - e
            invariant
                j <= 1074 - e,
                e < 1074,
                b.wf(),
                b.value() == pow2(j as nat),
            decreases 1074 - e - j,
        {
            b.times_plus(2, 0);
            proof {
                lemma_pow2_unfold((j + 1) as nat);
            }
            j = j + 1;
        }
        proof {
            let w = pow2((1074 - e) as nat);
            lemma_pow2_pos((1074 - e) as nat);
            lemma_pow2_adds(e as nat, (1074 - e) as nat);
            if e > 0 {
                lemma_pow2_strictly_increases((1074 - e) as nat, 1074);
            }
            assert((m as nat * pow2(e as nat)) * w == m as nat * (pow2(e as nat) * w))
                by (nonlinear_arith);
            lemma_pow2_strictly_increases(53, 1026);
        }
    }
    proof {
        assert(ten_to(0) == 1);
        assert(u * 1 == u);
    }
    (a, b)
}

/// The fewest digits that read back as pattern `k`, with the place of the last one.
fn find_digits(k: u64) -> (r: (u64, i64))
    requires
        0 < k < INF,
    ensures
        (r.0 as nat, r.1 as int) == fewest_digits(k as nat, first_place(units(k as nat)), 1),
        0 < r.0 <= ten_to(17),
        -342 <= r.1 <= 400,
{
    let (a0, b0) = fraction_of(k);
    let mut a = a0;
    let mut b = b0;
    let mut t: i64 = 0;
    let ghost u = units(k as nat);
    proof {
        assert(ten_to(0) == 1);
    }
    loop
        invariant
            a.wf(),
            b.wf(),
            0 < a.value() < ten_to(342),
            b.value() > 0,
            -342 <= t <= 0,
            b.value() >= ten_to((-t) as nat),
            t == 0 ==> b.value() <= ten_to(358),
            t < 0 ==> a.value() >= b.value(),
            stands_at_place(u, t as int, a.value(), b.value()),
        ensures
            a.value() < 10 * b.value(),
        decreases t + 342,
    {
        let mut c = b.copied();
        c.times_plus(10, 0);
        if a.less(&c) {
            break ;
        }
        proof {
            assert(t > -342) by {
                if t == -342 {
                    assert(false);
                }
            }
            assert(ten_to((-t + 1) as nat) == 10 * ten_to((-t) as nat));
            lemma_place_down(u, t as int, a.value(), b.value());
        }
        b = c;
        t = t - 1;
    }
    let ghost t1 = t;
    while a.less(&b)
        invariant
            a.wf(),
            b.wf(),
            a.value() > 0,
            b.value() > 0,
            a.value() < 10 * b.value(),
            t1 <= 0,
            t1 <= t <= 358,
            t1 >= -342,
            t1 < 0 ==> a.value() >= b.value(),
            t1 == 0 ==> b.value() <= ten_to(358) && a.value() >= ten_to(t as nat),
            stands_at_place(u, t as int, a.value(), b.value()),
        decreases 358 - t,
    {
        proof {
            lemma_place_up(u, t as int, a.value(), b.value());
            assert(ten_to((t + 1) as nat) == 10 * ten_to(t as nat));
        }
        a.times_plus(10, 0);
        t = t + 1;
    }
    let ghost f = t as int;
    let ghost mut whole = a.value();
    let mut d: u64 = take_digit(&mut a, &b);
    proof {
        assert(d >= 1) by {
            assert(d == 0 ==> d as nat * b.value() == 0);
        }
        lemma_cut(u, t as int, whole, b.value(), d as nat, a.value());
        lemma_first_place(u, f);
        reveal_with_fuel(ten_to, 2);
    }
    let mut n: u64 = 1;
    loop
        invariant
            a.wf(),
            b.wf(),
            b.value() > 0,
            a.value() < b.value(),
            1 <= n <= 17,
            t <= 358 + n - 1,
            t >= -342,
            u == units(k as nat),
            f == first_place(u),
            stands_at_place(u, t as int, whole, b.value()),
            whole == d as nat * b.value() + a.value(),
            0 < d < ten_to(n as nat),
            fewest_digits(k as nat, f, 1) == fewest_digits(k as nat, t as int, n as nat),
        decreases 17 - n,
    {
        proof {
            lemma_cut(u, t as int, whole, b.value(), d as nat, a.value());
            lemma_power_bound(n as nat);
        }
        let low: bool = read_back(d, t) == k;
        let high: bool = read_back(d + 1, t) == k;
        if (low && high) || (!low && !high && n >= 17) {
            let mut twice = a.copied();
            twice.times_plus(2, 0);
            return if twice.less(&b) { (d, t) } else { (d + 1, t) };
        }
        if low {
            return (d, t);
        }
        if high {
            return (d + 1, t);
        }
        proof {
            lemma_place_up(u, t as int, whole, b.value());
            assert(ten_to((n + 1) as nat) == 10 * ten_to(n as nat));
        }
        a.times_plus(10, 0);
        let ghost before = a.value();
        let c: u64 = take_digit(&mut a, &b);
        proof {
            let v = b.value();
            assert((10 * d as nat + c as nat) * v == 10 * (d as nat * v) + c as nat * v)
                by (nonlinear_arith);
            whole = 10 * whole;
            lemma_power_bound((n + 1) as nat);
        }
        d = 10 * d + c;
        t = t + 1;
        n = n + 1;
    }
}

/// Seventeen digits fit.
proof fn lemma_power_bound(n: nat)
    requires
        n <= 17,
    ensures
        ten_to(n) <= ten_to(17),
        ten_to(17) == 100_000_000_000_000_000,
{
    reveal_with_fuel(ten_to, 18);
    lemma_ten_to_adds(n, (17 - n) as nat);
    lemma_ten_to_pos((17 - n) as nat);
    assert(ten_to(17) >= ten_to(n)) by (nonlinear_arith)
        requires ten_to(17) == ten_to(n) * ten_to((17 - n) as nat), ten_to((17 - n) as nat) > 0;
}

/// Puts `d / 10^t` in digits at the end of a text.
fn push_plain(s: &mut String, d: u64, t: i64)
    requires
        -400 <= t <= 400,
    ensures
        final(s)@ == old(s)@ + plain(d as nat, t as int),
{
    let ghost before = s@;
    let mut d: u64 = d;
    let mut t: i64 = t;
    let ghost d0 = d;
    let ghost t0 = t;
    while d > 0 && d % 10 == 0 && t > 0
        invariant
            -400 <= t <= 400,
            plain(d0 as nat, t0 as int) == plain(d as nat, t as int),
        decreases d,
    {
        d = d / 10;
        t = t - 1;
    }
    if t <= 0 {
        proof {
            lemma_plain_whole(d as nat, t as int);
        }
        push_decimal(s, d);
        let ghost between = s@;
        let mut i: i64 = t;
        while i < 0
            invariant
                t <= i <= 0,
                s@ == between + Seq::new((i - t) as nat, |j: int| '0'),
            decreases -i,
        {
            s.push('0');
            i = i + 1;
            proof {
                assert(s@ =~= between + Seq::new((i - t) as nat, |j: int| '0'));
            }
        }
        proof {
            assert(s@ =~= before + plain(d as nat, t as int));
        }
    } else {
        proof {
            lemma_power_bound(17);
            lemma_ten_to_pos(t as nat);
        }
        if t <= 17 {
            let mut w: u64 = 1;
            let mut i: i64 = 0;
            proof {
                reveal_with_fuel(ten_to, 1);
            }
            while i < t
                invariant
                    0 <= i <= t <= 17,
                    w == ten_to(i as nat),
                decreases t - i,
            {
                proof {
                    lemma_power_bound((i + 1) as nat);
                    assert(ten_to((i + 1) as nat) == 10 * ten_to(i as nat));
                }
                w = w * 10;
                i = i + 1;
            }
            push_decimal(s, d / w);
            s.push('.');
            push_padded(s, d % w, t as u32);
        } else if t <= 19 {
            // The eighteenth and nineteenth powers of ten still fit.
            let w: u64 = if t == 18 { 1_000_000_000_000_000_000 } else { 10_000_000_000_000_000_000 };
            proof {
                reveal_with_fuel(ten_to, 20);
            }
            push_decimal(s, d / w);
            s.push('.');
            push_padded(s, d % w, t as u32);
        } else {
            proof {
                reveal_with_fuel(ten_to, 21);
                lemma_ten_to_adds((t - 20) as nat, 20);
                lemma_ten_to_pos((t - 20) as nat);
                assert(ten_to(t as nat) >= ten_to(20)) by (nonlinear_arith)
                    requires
                        ten_to(t as nat) == ten_to((t - 20) as nat) * ten_to(20),
                        ten_to((t - 20) as nat) > 0;
                lemma_basic_div(d as int, ten_to(t as nat) as int);
                lemma_small_mod(d as nat, ten_to(t as nat));
            }
            push_decimal(s, 0);
            s.push('.');
            push_padded(s, d, t as u32);
        }
        proof {
            assert(s@ =~= before + plain(d as nat, t as int));
        }
    }
}

/// Zeros at the end before the point stay.
proof fn lemma_plain_whole(d: nat, t: int)
    requires
        t <= 0,
    ensures
        plain(d, t) == decimal(d) + Seq::new((-t) as nat, |i: int| '0'),
    decreases d,
{
    if d > 0 && d % 10 == 0 {
        lemma_plain_whole(d / 10, t - 1);
        let zeros = Seq::new((-t) as nat, |i: int| '0');
        let more = Seq::new((1 - t) as nat, |i: int| '0');
        assert(decimal(d) == decimal(d / 10).push('0'));
        assert(decimal(d / 10) + more =~= decimal(d / 10).push('0') + zeros);
    }
}

/// Puts a number at the end of a text in as few digits as read back as the same number.
pub fn push_shortest(s: &mut String, x: Real)
    ensures
        final(s)@ == old(s)@ + shortest(x),
{
    let ghost before = s@;
    let k: u64 = x.bits % SIGN;
    if k > INF {
        s.append("NaN");
        return;
    }
    if x.bits >= SIGN {
        s.append("-");
    }
    let ghost between = s@;
    if k == INF {
        s.append("inf");
    } else if k == 0 {
        s.append("0");
    } else {
        let (d, t) = find_digits(k);
        proof {
            lemma_power_bound(17);
        }
        push_plain(s, d, t);
    }
    proof {
        reveal_strlit("");
        assert(between =~= before + (if x.negative() { "-"@ } else { ""@ }));
        assert(s@ =~= before + shortest(x));
    }
}

} // verus!
