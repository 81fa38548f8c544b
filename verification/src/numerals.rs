//! Reading and writing binary64 numbers in decimal.
use crate::binary64::{signed, Real, NAN, SIGN};
use crate::digits::{lemma_ten_to_adds, lemma_ten_to_pos, ten_to, Digits};
use crate::quotient::nearest_quotient;
use crate::rounding::{
    lemma_nearest, lemma_round_overflow, lemma_units_scaled, nearest, rounds_to, units, BINADE, INF,
};
use crate::text::{
    decimal, digit_run, is_digit, is_text, lower_case, lowered, number, part_of, skip_digits,
};
use vstd::arithmetic::power2::*;
use vstd::prelude::*;

verus! {

/// The pattern nearest to `n * 10^e`.
pub open spec fn nearest_decimal(n: nat, e: int) -> nat {
    if e >= 0 {
        nearest((n * ten_to(e as nat)) * pow2(1074), 1)
    } else {
        nearest(n * pow2(1074), ten_to((-e) as nat))
    }
}

/// The number nearest to `n * 10^e`.
pub open spec fn decimal_real(negative: bool, n: nat, e: int) -> Real {
    signed(negative, nearest_decimal(n, e))
}

/// The exponent that a numeral ends with from `b` on: none, or an `e` and an integer.
pub open spec fn exponent(s: Seq<char>, b: int) -> Option<int> {
    if b == s.len() {
        Some(0)
    } else if s[b] == 'e' || s[b] == 'E' {
        let sign = b + 1 < s.len() && (s[b + 1] == '-' || s[b + 1] == '+');
        let c = if sign { b + 2 } else { b + 1 };
        if c < s.len() && digit_run(s, c) == s.len() {
            let n = number(s.subrange(c, s.len() as int)) as int;
            Some(if s[b + 1] == '-' { -n } else { n })
        } else {
            None
        }
    } else {
        None
    }
}

/// The number that a numeral without a sign stands for: digits, with a point among or
/// beside them or without one, and perhaps an exponent.
pub open spec fn numeral(negative: bool, s: Seq<char>) -> Option<Real> {
    let a = digit_run(s, 0);
    let point = a < s.len() && s[a] == '.';
    let b = if point { digit_run(s, a + 1) } else { a };
    let places = if point { b - a - 1 } else { 0 };
    let digits = if point { s.subrange(0, a) + s.subrange(a + 1, b) } else { s.subrange(0, a) };
    if digits.len() == 0 {
        None
    } else {
        match exponent(s, b) {
            Some(e) => Some(decimal_real(negative, number(digits), e - places)),
            None => None,
        }
    }
}

/// The number that a text stands for: a sign or none, then `inf`, `infinity` or `nan` in
/// letters of any case, or a numeral.
pub open spec fn spec_parse_real(s: Seq<char>) -> Option<Real> {
    let signs = s.len() > 0 && (s[0] == '-' || s[0] == '+');
    let negative = s.len() > 0 && s[0] == '-';
    let body = if signs { s.drop_first() } else { s };
    if lowered(body) == "inf"@ || lowered(body) == "infinity"@ {
        Some(signed(negative, INF as nat))
    } else if lowered(body) == "nan"@ {
        Some(signed(negative, NAN as nat))
    } else {
        numeral(negative, body)
    }
}

pub(crate) proof fn lemma_ten_to_outgrows(n: nat)
    ensures
        ten_to(n) >= pow2(3 * n),
    decreases n,
{
    lemma2_to64();
    if n > 0 {
        let m = (n - 1) as nat;
        lemma_ten_to_outgrows(m);
        lemma_pow2_adds(3 * m, 3);
    }
}

/// A decimal exponent above four hundred overflows.
proof fn lemma_huge(n: nat, e: nat)
    requires
        n > 0,
        e > 400,
    ensures
        nearest((n * ten_to(e)) * pow2(1074), 1) == INF,
{
    let p = (n * ten_to(e)) * pow2(1074);
    lemma_ten_to_outgrows(e);
    lemma_pow2_strictly_increases(1024, 3 * e);
    lemma_pow2_adds(1024, 1074);
    lemma_pow2_adds(52, 2046);
    lemma2_to64_rest();
    lemma_units_scaled(BINADE as nat, 2046);
    assert(p >= pow2(1024) * pow2(1074)) by (nonlinear_arith)
        requires
            p == (n * ten_to(e)) * pow2(1074),
            n > 0,
            ten_to(e) >= pow2(1024);
    lemma_round_overflow(p, 1);
    lemma_nearest(p, 1, INF as nat);
}

/// `n` of at most `l` digits, divided by ten to the power of more than `l + 400`, is zero.
proof fn lemma_tiny(n: nat, l: nat, e: nat)
    requires
        n < ten_to(l),
        e > l + 400,
    ensures
        nearest(n * pow2(1074), ten_to(e)) == 0,
{
    let t = (e - l) as nat;
    let q = ten_to(e);
    lemma_ten_to_adds(l, t);
    lemma_ten_to_outgrows(t);
    lemma_pow2_strictly_increases(1075, 3 * t);
    lemma_pow2_unfold(1075);
    lemma_pow2_pos(1075);
    lemma_ten_to_pos(l);
    assert(2 * (n * pow2(1074)) < q) by (nonlinear_arith)
        requires
            q == ten_to(l) * ten_to(t),
            n < ten_to(l),
            ten_to(t) >= pow2(1075),
            pow2(1075) == 2 * pow2(1074),
            ten_to(l) > 0,
            pow2(1075) > 0;
    assert((units(0) + units(1)) * q == q) by (nonlinear_arith)
        requires units(0) == 0, units(1) == 1;
    lemma_ten_to_pos(e);
    assert(rounds_to(n * pow2(1074), q, 0));
    lemma_nearest(n * pow2(1074), q, 0);
}

/// Multiplies by a power of ten.
pub(crate) fn times_power_of_ten(n: &mut Digits, e: u128)
    requires
        old(n).wf(),
    ensures
        final(n).wf(),
        final(n).value() == old(n).value() * ten_to(e as nat),
{
    let ghost v = n.value();
    let mut i: u128 = 0;
    proof {
        assert(ten_to(0) == 1);
        assert(v * 1 == v);
    }
    while i < e
        invariant
            i <= e,
            n.wf(),
            n.value() == v * ten_to(i as nat),
        decreases e - i,
    {
        n.times_plus(10, 0);
        proof {
            let w = ten_to(i as nat);
            assert(v * (10 * w) == (v * w) * 10) by (nonlinear_arith);
        }
        i = i + 1;
    }
}

/// The number that digits stand for.
fn digits_of(v: &Vec<char>) -> (n: Digits)
    requires
        forall|k: int| 0 <= k < v@.len() ==> is_digit(v@[k]),
    ensures
        n.wf(),
        n.value() == number(v@),
{
    let mut n = Digits::of(0);
    let mut i: usize = 0;
    while i < v.len()
        invariant
            i <= v@.len(),
            forall|k: int| 0 <= k < v@.len() ==> is_digit(v@[k]),
            n.wf(),
            n.value() == number(v@.take(i as int)),
        decreases v@.len() - i,
    {
        let d: u32 = v[i] as u32 - '0' as u32;
        n.times_plus(10, d);
        proof {
            assert(v@.take(i + 1).drop_last() =~= v@.take(i as int));
        }
        i = i + 1;
    }
    proof {
        assert(v@.take(v@.len() as int) =~= v@);
    }
    n
}

/// A row of `l` digits stands for a number below `10^l`.
proof fn lemma_number_bound(s: Seq<char>)
    requires
        forall|k: int| 0 <= k < s.len() ==> is_digit(s[k]),
    ensures
        number(s) < ten_to(s.len()),
    decreases s.len(),
{
    if s.len() > 0 {
        lemma_number_bound(s.drop_last());
    }
}

/// The number nearest to what digits stand for, times ten to the power of `e`.
fn scaled_digits(negative: bool, v: &Vec<char>, e: i128) -> (r: Real)
    requires
        forall|k: int| 0 <= k < v@.len() ==> is_digit(v@[k]),
    ensures
        r == decimal_real(negative, number(v@), e as int),
{
    let mut n = digits_of(v);
    let k: u64 = if e >= 0 {
        if n.is_zero() {
            proof {
                assert(0 * ten_to(e as nat) == 0);
                assert(0 * pow2(1074) == 0);
                lemma_nearest(0, 1, 0);
            }
            0
        } else if e > 400 {
            proof {
                lemma_huge(number(v@), e as nat);
            }
            INF
        } else {
            times_power_of_ten(&mut n, e as u128);
            let one = Digits::of(1);
            nearest_quotient(&n, &one)
        }
    } else {
        let l: usize = v.len();
        if e < -(l as i128) - 400 {
            proof {
                lemma_number_bound(v@);
                lemma_tiny(number(v@), v@.len(), (-e) as nat);
            }
            0
        } else {
            let mut d = Digits::of(1);
            times_power_of_ten(&mut d, (-e) as u128);
            proof {
                lemma_ten_to_pos((-e) as nat);
                assert(1 * ten_to((-e) as nat) == ten_to((-e) as nat));
            }
            nearest_quotient(&n, &d)
        }
    };
    Real { bits: if negative { k + SIGN } else { k } }
}

/// Far exponents all round alike.
proof fn lemma_far_exponents(negative: bool, s: Seq<char>, e: int, f: int)
    requires
        forall|k: int| 0 <= k < s.len() ==> is_digit(s[k]),
        (e > 400 && f > 400) || (e < -(s.len() as int) - 400 && f < -(s.len() as int) - 400),
    ensures
        decimal_real(negative, number(s), e) == decimal_real(negative, number(s), f),
{
    let n = number(s);
    if e > 400 {
        if n == 0 {
            assert(0 * ten_to(e as nat) == 0 && 0 * ten_to(f as nat) == 0);
        } else {
            lemma_huge(n, e as nat);
            lemma_huge(n, f as nat);
        }
    } else {
        lemma_number_bound(s);
        lemma_tiny(n, s.len(), (-e) as nat);
        lemma_tiny(n, s.len(), (-f) as nat);
    }
}

/// `2^100`, past every exponent that makes a difference.
const FAR: u128 = 0x10_0000_0000_0000_0000_0000_0000;

/// `e` is the exponent `f`, or both are far from zero on the same side.
spec fn stands_for(e: int, f: int) -> bool {
    e == f || (e >= FAR && f >= FAR) || (e <= -FAR && f <= -FAR)
}

/// The exponent that a numeral ends with, or one as far from zero.
fn read_exponent(v: &Vec<char>, b: usize) -> (r: Option<i128>)
    requires
        b <= v@.len(),
    ensures
        match r {
            Some(e) => match exponent(v@, b as int) {
                Some(f) => stands_for(e as int, f) && -16 * FAR <= e <= 16 * FAR,
                None => false,
            },
            None => exponent(v@, b as int) is None,
        },
{
    let len: usize = v.len();
    if b == len {
        return Some(0);
    }
    if v[b] != 'e' && v[b] != 'E' {
        return None;
    }
    if b + 1 == len {
        return None;
    }
    let negative: bool = v[b + 1] == '-';
    let sign: bool = v[b + 1] == '-' || v[b + 1] == '+';
    let c: usize = if sign { b + 2 } else { b + 1 };
    if c >= len || skip_digits(v, c) != len {
        return None;
    }
    let mut n: u128 = 0;
    let mut i: usize = c;
    proof {
        assert(v@.subrange(c as int, c as int).len() == 0);
    }
    while i < len
        invariant
            c <= i <= len == v@.len(),
            forall|k: int| c <= k < len ==> is_digit(v@[k]),
            stands_for(n as int, number(v@.subrange(c as int, i as int)) as int),
            n <= 16 * FAR,
        decreases len - i,
    {
        proof {
            let s = v@.subrange(c as int, i + 1);
            assert(s.drop_last() =~= v@.subrange(c as int, i as int));
            assert(s.last() == v@[i as int]);
        }
        let d: u128 = v[i] as u128 - '0' as u128;
        if n < FAR {
            n = 10 * n + d;
        }
        i = i + 1;
    }
    Some(if negative { -(n as i128) } else { n as i128 })
}

/// The number that a numeral without a sign stands for.
fn read_numeral(negative: bool, v: &Vec<char>) -> (r: Option<Real>)
    ensures
        r == numeral(negative, v@),
{
    let len: usize = v.len();
    let a: usize = skip_digits(v, 0);
    let point: bool = a < len && v[a] == '.';
    let b: usize = if point { skip_digits(v, a + 1) } else { a };
    let places: i128 = if point { b as i128 - a as i128 - 1 } else { 0 };
    let mut digits = part_of(v, 0, a);
    if point {
        let mut fraction = part_of(v, a + 1, b);
        digits.append(&mut fraction);
    }
    if digits.len() == 0 {
        return None;
    }
    match read_exponent(v, b) {
        None => None,
        Some(e) => {
            let r = scaled_digits(negative, &digits, e - places);
            proof {
                let f = exponent(v@, b as int)->0;
                if f != e {
                    lemma_far_exponents(negative, digits@, e - places, f - places);
                }
            }
            Some(r)
        },
    }
}

/// The number that a text stands for.
pub fn parse_real(v: &Vec<char>) -> (r: Option<Real>)
    ensures
        r == spec_parse_real(v@),
{
    let len: usize = v.len();
    let signs: bool = len > 0 && (v[0] == '-' || v[0] == '+');
    let negative: bool = len > 0 && v[0] == '-';
    let body = if signs { part_of(v, 1, len) } else { part_of(v, 0, len) };
    proof {
        assert(v@.subrange(0, len as int) =~= v@);
        assert(len > 0 ==> v@.subrange(1, len as int) =~= v@.drop_first());
    }
    let low = lower_case(&body);
    if is_text(&low, "inf") || is_text(&low, "infinity") {
        Some(Real { bits: if negative { INF + SIGN } else { INF } })
    } else if is_text(&low, "nan") {
        Some(Real { bits: if negative { NAN + SIGN } else { NAN } })
    } else {
        read_numeral(negative, &body)
    }
}

} // verus!
