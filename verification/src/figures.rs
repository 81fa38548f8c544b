//! Numbers that are written and read again, and other laws of figures.
use crate::accuracy::{lemma_gap, lemma_spacing, PARTS};
use crate::binary64::{integer_part, nearest_integer, signed, spec_real, Real};
use crate::config::{mode_named, CustomerMode};
use crate::digits::{lemma_ten_to_pos, ten_to};
use crate::estimates::size;
use crate::experiments::value_under;
use crate::hashing::low_bytes;
use crate::metrics::spec_menu_similarity;
use crate::numerals::{exponent, lemma_ten_to_outgrows, nearest_decimal, numeral, spec_parse_real};
use crate::prompts::{json_number, JsonView};
use crate::readback::{lemma_decimal, lemma_padded, lemma_parse_decimal, lemma_run_of_digits};
use crate::record::run_values;
use crate::rounding::{lemma_nearest, lemma_nearest_rounds, nearest, rounds_to, units, INF};
use crate::shortest::{
    cut, cuts_half, fewest_digits, first_place, lemma_next_place, lemma_shifted_den_pos, plain,
    shifted_den, shifted_num, shortest,
};
use crate::simulation::{outcomes_of, SimulationResult};
use crate::tellings::lemma_padded_number;
use crate::text::{
    decimal, digit_run, is_digit, is_white_space, lower, lowered, number, trimmed, trimmed_end,
    trimmed_start,
};
use crate::world::{real_mean, AgentId, DishView, FirmView};
use crate::writing::padded;
use vstd::arithmetic::power2::*;
use vstd::prelude::*;
use vstd::string::*;

verus! {

/// One place further on there is one digit more.
proof fn lemma_next_cut(u: nat, t: int)
    ensures
        10 * cut(u, t) <= cut(u, t + 1) <= 10 * cut(u, t) + 9,
{
    let n = shifted_num(u, t) as int;
    let d = shifted_den(t) as int;
    let n1 = shifted_num(u, t + 1) as int;
    let d1 = shifted_den(t + 1) as int;
    lemma_shifted_den_pos(t);
    lemma_shifted_den_pos(t + 1);
    lemma_next_place(u, t);
    let c = n / d;
    let q = n1 / d1;
    vstd::arithmetic::div_mod::lemma_fundamental_div_mod(n, d);
    vstd::arithmetic::div_mod::lemma_fundamental_div_mod(n1, d1);
    let r = n % d;
    let cd = d1 * c;
    if t >= 0 {
        assert(d * c == cd);
        assert(n1 == 10 * cd + 10 * r);
        assert(10 * r < 10 * d1);
    } else {
        assert(d * c == 10 * cd) by (nonlinear_arith)
            requires d == 10 * d1, cd == d1 * c;
        assert(n1 == 10 * cd + r);
        assert(r < 10 * d1);
    }
    assert(10 * cd <= n1 < 10 * cd + 10 * d1);
    assert(d1 * q <= n1 < d1 * q + d1);
    assert(q < 10 * c + 10) by (nonlinear_arith)
        requires d1 * q <= n1, n1 < 10 * cd + 10 * d1, cd == d1 * c, d1 > 0;
    assert(10 * c < q + 1) by (nonlinear_arith)
        requires 10 * cd <= n1, n1 < d1 * q + d1, cd == d1 * c, d1 > 0;
}

/// From a place with a digit one gets to the first place.
proof fn lemma_place_exists(u: nat, t: int) -> (f: int)
    requires
        cut(u, t) >= 1,
    ensures
        1 <= cut(u, f) < 10,
    decreases cut(u, t),
{
    if cut(u, t) < 10 {
        t
    } else {
        lemma_next_cut(u, t - 1);
        lemma_place_exists(u, t - 1)
    }
}

/// The first place is one.
proof fn lemma_first_digit(u: nat)
    requires
        u > 0,
    ensures
        1 <= cut(u, first_place(u)) < 10,
{
    let t: int = 358;
    let w = ten_to(358);
    lemma_ten_to_outgrows(358);
    lemma_pow2_pos(1074);
    assert(u * w >= pow2(1074)) by (nonlinear_arith)
        requires u >= 1, w >= pow2(1074);
    let p = (u * w) as int;
    let unit = pow2(1074) as int;
    let q = p / unit;
    let r = p % unit;
    vstd::arithmetic::div_mod::lemma_fundamental_div_mod(p, unit);
    assert(q >= 1) by (nonlinear_arith)
        requires p >= unit, p == unit * q + r, r < unit, unit > 0;
    assert(cut(u, t) == q);
    let f = lemma_place_exists(u, t);
    assert(1 <= cut(u, f) < 10);
}

/// A quotient near enough to a pattern rounds to it.
proof fn lemma_near_rounds(k: nat, p: nat, q: nat, den: nat)
    requires
        0 < k < INF,
        q > 0,
        den > 0,
        2 * size(p - units(k) * q) <= den,
        units(k) * q >= 10_000_000_000_000_000 * den,
    ensures
        nearest(p, q) == k,
{
    reveal(size);
    let u = units(k) as int;
    let below = u - units((k - 1) as nat);
    let above = units(k + 1) - u;
    lemma_gap((k - 1) as nat, k);
    lemma_spacing(k);
    let uq = u * q;
    let bq = below * q;
    let aq = above * q;
    assert((PARTS + 1) * bq >= uq) by (nonlinear_arith)
        requires u <= (PARTS + 1) * below, bq == below * q, uq == u * q, q > 0;
    assert(PARTS * aq >= uq) by (nonlinear_arith)
        requires u <= PARTS * above, aq == above * q, uq == u * q, q > 0;
    assert((PARTS + 1) * bq == 0x20_0000_0000_0001 * bq);
    assert(PARTS * aq == 0x20_0000_0000_0000 * aq);
    assert(bq > den && aq > den);
    assert((units((k - 1) as nat) + units(k)) * q == 2 * uq - bq) by (nonlinear_arith)
        requires below == u - units((k - 1) as nat), u == units(k), uq == u * q, bq == below * q;
    assert((units(k) + units(k + 1)) * q == 2 * uq + aq) by (nonlinear_arith)
        requires above == units(k + 1) - u, u == units(k), uq == u * q, aq == above * q;
    assert(rounds_to(p, q, k));
    lemma_nearest(p, q, k);
}

/// Seventeen digits are enough.
proof fn lemma_seventeen_digits(k: nat, t: int)
    requires
        0 < k < INF,
        cut(units(k), t) >= 10_000_000_000_000_000,
    ensures
        ({
            let d = cut(units(k), t);
            let c = if cuts_half(units(k), t) {
                d + 1
            } else {
                d
            };
            nearest_decimal(c, -t) == k
        }),
{
    reveal(size);
    let u = units(k);
    let d = cut(u, t);
    let num = shifted_num(u, t);
    let den = shifted_den(t);
    let c = if cuts_half(u, t) {
        d + 1
    } else {
        d
    };
    lemma_shifted_den_pos(t);
    vstd::arithmetic::div_mod::lemma_fundamental_div_mod(num as int, den as int);
    assert(den * d == d * den) by (nonlinear_arith);
    assert((d + 1) * den == d * den + den) by (nonlinear_arith);
    assert(d * den >= 10_000_000_000_000_000 * den) by (nonlinear_arith)
        requires d >= 10_000_000_000_000_000, den > 0;
    assert(2 * size(c * den - num) <= den);
    let s = if t > 0 {
        t as nat
    } else {
        (-t) as nat
    };
    let w = ten_to(s);
    let unit = pow2(1074);
    lemma_ten_to_pos(s);
    if t > 0 {
        lemma_near_rounds(k, c * unit, w, den);
    } else {
        assert((c * w) * unit == c * (unit * w)) by (nonlinear_arith);
        assert(u * 1 == u);
        if t == 0 {
            assert(w == 1);
            assert(unit * w == unit) by (nonlinear_arith)
                requires w == 1;
        }
        lemma_near_rounds(k, (c * w) * unit, 1, den);
    }
}

/// The fewest digits read back.
proof fn lemma_fewest_digits(k: nat, t: int, n: nat)
    requires
        0 < k < INF,
        1 <= n <= 17,
        cut(units(k), t) >= ten_to((n - 1) as nat),
    ensures
        ({
            let (d, s) = fewest_digits(k, t, n);
            nearest_decimal(d, -s) == k
        }),
    decreases 17 - n,
{
    let d = cut(units(k), t);
    let low = nearest_decimal(d, -t) == k;
    let high = nearest_decimal(d + 1, -t) == k;
    if n == 17 {
        assert(ten_to(16) == 10_000_000_000_000_000) by {
            reveal_with_fuel(ten_to, 17);
        }
        lemma_seventeen_digits(k, t);
    } else if !low && !high {
        lemma_next_cut(units(k), t);
        lemma_fewest_digits(k, t + 1, n + 1);
    }
}

/// A fraction that is extended rounds to the same.
proof fn lemma_nearest_extended(p: nat, q: nat, c: nat)
    requires
        q > 0,
        c > 0,
    ensures
        nearest(c * p, c * q) == nearest(p, q),
{
    let k = nearest(p, q);
    lemma_nearest_rounds(p, q);
    assert(c * q > 0) by (nonlinear_arith)
        requires c > 0, q > 0;
    if k > 0 {
        let m = units((k - 1) as nat) + units(k);
        assert(m * (c * q) == c * (m * q)) by (nonlinear_arith);
        assert(m * q < 2 * p ==> c * (m * q) < 2 * (c * p)) by (nonlinear_arith)
            requires c > 0;
        assert(m * q == 2 * p ==> c * (m * q) == 2 * (c * p)) by (nonlinear_arith);
    }
    if k < INF {
        let m = units(k) + units(k + 1);
        assert(m * (c * q) == c * (m * q)) by (nonlinear_arith);
        assert(2 * p < m * q ==> 2 * (c * p) < c * (m * q)) by (nonlinear_arith)
            requires c > 0;
        assert(m * q == 2 * p ==> c * (m * q) == 2 * (c * p)) by (nonlinear_arith);
    }
    assert(rounds_to(c * p, c * q, k));
    lemma_nearest(c * p, c * q, k);
}

/// A zero at the end of the digits makes no difference.
proof fn lemma_zero_dropped(d: nat, t: int)
    requires
        d % 10 == 0,
    ensures
        nearest_decimal(d, -t) == nearest_decimal(d / 10, 1 - t),
{
    let m = d / 10;
    let u = pow2(1074);
    if t > 0 {
        let w = ten_to((t - 1) as nat);
        lemma_ten_to_pos((t - 1) as nat);
        assert(ten_to(t as nat) == 10 * w);
        assert((10 * m) * u == 10 * (m * u)) by (nonlinear_arith);
        lemma_nearest_extended(m * u, w, 10);
        if t == 1 {
            assert(w == 1);
            assert((m * 1) * u == m * u);
        }
    } else {
        let w = ten_to((-t) as nat);
        assert(ten_to((1 - t) as nat) == 10 * w);
        assert((10 * m) * w == m * (10 * w)) by (nonlinear_arith);
    }
}

/// Digits put behind digits.
pub proof fn digits_join(a: Seq<char>, b: Seq<char>)
    ensures
        number(a + b) == number(a) * ten_to(b.len()) + number(b),
    decreases b.len(),
{
    if b.len() == 0 {
        assert(a + b =~= a);
        assert(number(a) * 1 == number(a));
    } else {
        let c = b.drop_last();
        digits_join(a, c);
        assert((a + b).drop_last() =~= a + c);
        assert((a + b).last() == b.last());
        let w = ten_to(c.len());
        assert(10 * (number(a) * w) == number(a) * (10 * w)) by (nonlinear_arith);
    }
}

/// Zeros are digits that stand for nothing.
proof fn lemma_zeros(n: nat)
    ensures
        number(Seq::new(n, |i: int| '0')) == 0,
    decreases n,
{
    let z = Seq::new(n, |i: int| '0');
    if n > 0 {
        lemma_zeros((n - 1) as nat);
        assert(z.drop_last() =~= Seq::new((n - 1) as nat, |i: int| '0'));
        assert(z.last() == '0');
    }
}

/// Digits, with others behind a point, stand for their number by the power of ten.
pub proof fn numerals_are_read(negative: bool, a: Seq<char>, b: Seq<char>)
    requires
        a.len() > 0,
        forall|i: int| 0 <= i < a.len() ==> is_digit(#[trigger] a[i]),
        forall|i: int| 0 <= i < b.len() ==> is_digit(#[trigger] b[i]),
    ensures
        numeral(negative, a) == Some(signed(negative, nearest_decimal(number(a), 0))),
        numeral(negative, a + seq!['.'] + b) == Some(
            signed(
                negative,
                nearest_decimal(number(a) * ten_to(b.len()) + number(b), -(b.len() as int)),
            ),
        ),
{
    let s = a + seq!['.'] + b;
    let n = a.len() as int;
    lemma_run_of_digits(a, 0, n, 0);
    assert(a.subrange(0, n) =~= a);
    assert(exponent(a, n) == Some(0int));
    assert forall|k: int| 0 <= k < n implies is_digit(#[trigger] s[k]) by {
        assert(s[k] == a[k]);
    }
    assert(s[n] == '.');
    lemma_run_of_digits(s, 0, n, 0);
    assert forall|k: int| n + 1 <= k < s.len() implies is_digit(#[trigger] s[k]) by {
        assert(s[k] == b[k - n - 1]);
    }
    lemma_run_of_digits(s, n + 1, s.len() as int, n + 1);
    assert(s.subrange(0, n) + s.subrange(n + 1, s.len() as int) =~= a + b);
    assert(exponent(s, s.len() as int) == Some(0int));
    digits_join(a, b);
}

/// A numeral with an exponent stands for the digits times the power of ten.
pub proof fn exponents_are_read(negative: bool, a: Seq<char>, e: nat)
    requires
        a.len() > 0,
        forall|i: int| 0 <= i < a.len() ==> is_digit(#[trigger] a[i]),
    ensures
        numeral(negative, a + seq!['e'] + decimal(e)) == Some(
            signed(negative, nearest_decimal(number(a), e as int)),
        ),
        numeral(negative, a + seq!['e', '-'] + decimal(e)) == Some(
            signed(negative, nearest_decimal(number(a), -(e as int))),
        ),
{
    let n = a.len() as int;
    let d = decimal(e);
    lemma_decimal(e);
    assert(is_digit(d[0]));
    let s = a + seq!['e'] + d;
    assert forall|k: int| 0 <= k < n implies is_digit(#[trigger] s[k]) by {
        assert(s[k] == a[k]);
    }
    assert(s[n] == 'e' && s[n + 1] == d[0]);
    lemma_run_of_digits(s, 0, n, 0);
    assert forall|k: int| n + 1 <= k < s.len() implies is_digit(#[trigger] s[k]) by {
        assert(s[k] == d[k - n - 1]);
    }
    lemma_run_of_digits(s, n + 1, s.len() as int, n + 1);
    assert(s.subrange(0, n) =~= a);
    assert(s.subrange(n + 1, s.len() as int) =~= d);
    assert(exponent(s, n) == Some(e as int));
    let r = a + seq!['e', '-'] + d;
    assert forall|k: int| 0 <= k < n implies is_digit(#[trigger] r[k]) by {
        assert(r[k] == a[k]);
    }
    assert(r[n] == 'e' && r[n + 1] == '-');
    lemma_run_of_digits(r, 0, n, 0);
    assert forall|k: int| n + 2 <= k < r.len() implies is_digit(#[trigger] r[k]) by {
        assert(r[k] == d[k - n - 2]);
    }
    lemma_run_of_digits(r, n + 2, r.len() as int, n + 2);
    assert(r.subrange(0, n) =~= a);
    assert(r.subrange(n + 2, r.len() as int) =~= d);
    assert(exponent(r, n) == Some(-(e as int)));
}

/// Digits as they are written are read as what they stand for.
proof fn lemma_plain_reads(negative: bool, d: nat, t: int)
    ensures
        plain(d, t).len() > 0,
        is_digit(plain(d, t)[0]),
        numeral(negative, plain(d, t)) == Some(signed(negative, nearest_decimal(d, -t))),
    decreases d,
{
    if d > 0 && d % 10 == 0 {
        lemma_plain_reads(negative, d / 10, t - 1);
        lemma_zero_dropped(d, t);
    } else if t <= 0 {
        let n = (-t) as nat;
        let z = Seq::new(n, |i: int| '0');
        let s = decimal(d) + z;
        lemma_decimal(d);
        lemma_zeros(n);
        digits_join(decimal(d), z);
        assert forall|k: int| 0 <= k < s.len() implies is_digit(#[trigger] s[k]) by {
            if k < decimal(d).len() {
                assert(s[k] == decimal(d)[k]);
            } else {
                assert(s[k] == '0');
            }
        }
        numerals_are_read(negative, s, Seq::<char>::empty());
        let w = d * ten_to(n);
        assert(ten_to(0) == 1);
        assert(w * 1 == w);
    } else {
        let n = t as nat;
        let w = ten_to(n);
        let a = decimal(d / w);
        let b = padded(d % w, n);
        lemma_ten_to_pos(n);
        lemma_decimal(d / w);
        lemma_padded(d % w, n);
        lemma_padded_number(d % w, n);
        vstd::arithmetic::div_mod::lemma_fundamental_div_mod(d as int, w as int);
        assert(w * (d / w) == (d / w) * w) by (nonlinear_arith);
        numerals_are_read(negative, a, b);
        assert(a.push('.') + b =~= a + seq!['.'] + b);
        assert(is_digit(a[0]));
    }
}

/// A number that is written in as few digits as it takes is read as the same number.
pub proof fn shortest_digits_read_back(x: Real)
    requires
        !x.is_nan(),
    ensures
        spec_parse_real(shortest(x)) == Some(x),
{
    reveal_strlit("");
    reveal_strlit("-");
    reveal_strlit("0");
    reveal_strlit("inf");
    reveal_strlit("infinity");
    reveal_strlit("nan");
    let k = x.magnitude();
    let sign = if x.negative() {
        "-"@
    } else {
        ""@
    };
    assert(signed(x.negative(), k) == x);
    let body = if x.is_infinite() {
        "inf"@
    } else if k == 0 {
        "0"@
    } else {
        let (d, t) = fewest_digits(k, first_place(units(k)), 1);
        plain(d, t)
    };
    let s = sign + body;
    assert(shortest(x) == s);
    if x.is_infinite() {
        assert(lowered("inf"@) =~= "inf"@);
    } else {
        if k == 0 {
            assert(decimal(0) =~= "0"@);
            lemma_plain_reads(x.negative(), 0, 0);
            assert(plain(0, 0) =~= "0"@);
            assert(nearest_decimal(0, 0) == 0) by {
                assert(0 * ten_to(0) == 0);
                assert(0 * pow2(1074) == 0);
                crate::rounding::lemma_nearest_exact(0, 1, 0);
            }
        } else {
            crate::rounding::lemma_units_order(0, k);
            lemma_first_digit(units(k));
            assert(ten_to(0) == 1);
            lemma_fewest_digits(k, first_place(units(k)), 1);
            let (d, t) = fewest_digits(k, first_place(units(k)), 1);
            lemma_plain_reads(x.negative(), d, t);
        }
        assert(is_digit(body[0]));
        assert(lowered(body)[0] == body[0]);
        assert(lowered(body) != "inf"@ && lowered(body) != "infinity"@ && lowered(body) != "nan"@) by {
            assert("inf"@[0] == 'i' && "infinity"@[0] == 'i' && "nan"@[0] == 'n');
        }
    }
    if x.negative() {
        assert(s[0] == '-');
        assert(s.drop_first() =~= body);
    } else {
        assert(s =~= body);
    }
}

/// The integer part is the largest integer that is no larger, and the nearest integer is no
/// further away than a half, which goes up.
pub proof fn integers_are_near(u: nat)
    ensures
        integer_part(u) * pow2(1074) <= u < (integer_part(u) + 1) * pow2(1074),
        -(pow2(1074) as int) <= 2 * (u - nearest_integer(u) * pow2(1074)) < pow2(1074),
{
    let w = pow2(1074) as int;
    lemma_pow2_pos(1074);
    lemma_pow2_unfold(1075);
    vstd::arithmetic::div_mod::lemma_fundamental_div_mod(u as int, w);
    let n = integer_part(u) as int;
    assert(w * n == n * w && (n + 1) * w == n * w + w) by (nonlinear_arith);
    let a = 2 * u + w;
    let m = nearest_integer(u) as int;
    vstd::arithmetic::div_mod::lemma_fundamental_div_mod(a, 2 * w);
    assert((2 * w) * m == 2 * (m * w)) by (nonlinear_arith);
}

/// A number in range becomes an integer that is no further from it than a half; a half goes away
/// from zero, and numbers of opposite sign become integers of opposite sign.
pub proof fn numbers_become_near_integers(x: Real)
    requires
        x.is_finite(),
        size(x.value()) <= 1_000_000_000_000_000_000 * pow2(1074),
    ensures
        2 * size(x.to_nearest_i64() * pow2(1074) - x.value()) <= pow2(1074),
        2 * size(x.to_nearest_i64() * pow2(1074) - x.value()) == pow2(1074) ==> size(
            x.to_nearest_i64() * pow2(1074),
        ) > size(x.value()),
{
    reveal(size);
    let w = pow2(1074) as int;
    let u = units(x.magnitude());
    let n = nearest_integer(u) as int;
    lemma_pow2_pos(1074);
    integers_are_near(u);
    assert(n <= 1_000_000_000_000_000_001) by (nonlinear_arith)
        requires
            -w <= 2 * (u - n * w),
            u <= 1_000_000_000_000_000_000 * w,
            w > 0,
    ;
    assert((-n) * w == -(n * w)) by (nonlinear_arith);
}

/// A number that is not negative, in range, becomes the largest integer that is no larger;
/// negative numbers become zero.
pub proof fn numbers_become_their_integer_parts(x: Real)
    requires
        x.is_finite(),
        x.value() <= 1_000_000_000_000_000_000 * pow2(1074),
    ensures
        !x.negative() ==> x.to_u64() * pow2(1074) <= x.value() < (x.to_u64() + 1) * pow2(1074),
        x.negative() ==> x.to_u64() == 0,
{
    let w = pow2(1074) as int;
    let u = units(x.magnitude());
    let n = integer_part(u) as int;
    lemma_pow2_pos(1074);
    integers_are_near(u);
    if !x.negative() {
        assert(n <= 1_000_000_000_000_000_000) by (nonlinear_arith)
            requires n * w <= u, u <= 1_000_000_000_000_000_000 * w, w > 0;
    }
}

/// The `i`th of the bytes of a number is what is left of it after `i` bytes, without the higher
/// ones.
pub proof fn bytes_go_up(x: nat, n: nat, i: nat)
    requires
        i < n,
    ensures
        low_bytes(x, n).len() == n,
        low_bytes(x, n)[i as int] == (x / pow2(8 * i)) % 256,
    decreases n,
{
    lemma2_to64();
    if i == 0 {
        assert(x / 1 == x);
        if n > 1 {
            bytes_go_up(x / 256, (n - 1) as nat, 0);
        } else {
            assert(low_bytes(x / 256, 0) =~= seq![]);
        }
        assert(low_bytes(x, n).len() == 1 + low_bytes(x / 256, (n - 1) as nat).len());
    } else {
        let j = (i - 1) as nat;
        bytes_go_up(x / 256, (n - 1) as nat, j);
        lemma_pow2_pos(8 * j);
        lemma_pow2_adds(8, 8 * j);
        vstd::arithmetic::div_mod::lemma_div_denominator(x as int, 256, pow2(8 * j) as int);
        assert(low_bytes(x, n).len() == 1 + low_bytes(x / 256, (n - 1) as nat).len());
        assert(low_bytes(x, n)[i as int] == low_bytes(x / 256, (n - 1) as nat)[j as int]);
    }
}

/// Nothing has a mean of zero, and fewer than two menus a similarity of zero.
pub proof fn nothing_measures_zero(menus: Seq<Seq<DishView>>, s: Seq<Real>)
    ensures
        s.len() == 0 ==> real_mean(s).value() == 0,
        menus.len() < 2 ==> spec_menu_similarity(menus).value() == 0,
{
}

/// Whatever the case of the letters and the white space around it, `individual`, `indiv` and
/// `single` name the mode in which customers decide for themselves, `group` and `grouped` the one
/// in which they decide in groups, and no other word names a mode.
pub proof fn words_name_modes(s: Seq<char>)
    ensures
        ({
            let word = trimmed(s).map_values(|c: char| lower(c));
            &&& word == "individual"@ ==> mode_named(s) == Some(CustomerMode::Individual)
            &&& word == "indiv"@ ==> mode_named(s) == Some(CustomerMode::Individual)
            &&& word == "single"@ ==> mode_named(s) == Some(CustomerMode::Individual)
            &&& word == "group"@ ==> mode_named(s) == Some(CustomerMode::Group)
            &&& word == "grouped"@ ==> mode_named(s) == Some(CustomerMode::Group)
            &&& mode_named(s) is Some ==> word == "individual"@ || word == "indiv"@ || word
                == "single"@ || word == "group"@ || word == "grouped"@
        }),
{
    reveal_strlit("individual");
    reveal_strlit("indiv");
    reveal_strlit("single");
    reveal_strlit("group");
    reveal_strlit("grouped");
    assert("group"@[0] == 'g' && "grouped"@[0] == 'g');
    assert("individual"@[0] == 'i' && "indiv"@[0] == 'i' && "single"@[0] == 's');
}

/// A text has no characters but white space.
pub open spec fn is_blank(s: Seq<char>) -> bool {
    forall|i: int| 0 <= i < s.len() ==> is_white_space(#[trigger] s[i])
}

/// What is trimmed off a text is white space at its start and at its end, and none is left there.
pub proof fn trimming_takes_white_space_off(s: Seq<char>) -> (ab: (Seq<char>, Seq<char>))
    ensures
        s == ab.0 + trimmed(s) + ab.1,
        is_blank(ab.0),
        is_blank(ab.1),
        trimmed(s).len() > 0 ==> !is_white_space(trimmed(s)[0]) && !is_white_space(
            trimmed(s).last(),
        ),
{
    let a = lemma_start_taken(s);
    let t = trimmed_start(s);
    let b = lemma_end_taken(t);
    assert(s =~= a + trimmed(s) + b);
    (a, b)
}

/// White space at the start.
proof fn lemma_start_taken(s: Seq<char>) -> (a: Seq<char>)
    ensures
        s == a + trimmed_start(s),
        is_blank(a),
        trimmed_start(s).len() > 0 ==> !is_white_space(trimmed_start(s)[0]),
    decreases s.len(),
{
    if s.len() > 0 && is_white_space(s[0]) {
        let rest = s.drop_first();
        let t = trimmed_start(rest);
        let b = lemma_start_taken(rest);
        let a = seq![s[0]] + b;
        assert(s =~= seq![s[0]] + rest);
        assert(seq![s[0]] + (b + t) =~= a + t);
        assert forall|i: int| 0 <= i < a.len() implies is_white_space(#[trigger] a[i]) by {
            if i > 0 {
                assert(a[i] == b[i - 1]);
            }
        }
        a
    } else {
        assert(s =~= Seq::<char>::empty() + s);
        Seq::empty()
    }
}

/// White space at the end.
proof fn lemma_end_taken(s: Seq<char>) -> (b: Seq<char>)
    ensures
        s == trimmed_end(s) + b,
        is_blank(b),
        trimmed_end(s).len() > 0 ==> trimmed_end(s)[0] == s[0] && !is_white_space(
            trimmed_end(s).last(),
        ),
    decreases s.len(),
{
    if s.len() > 0 && is_white_space(s.last()) {
        let rest = s.drop_last();
        let t = trimmed_end(rest);
        let c = lemma_end_taken(rest);
        let b = c.push(s.last());
        assert(s =~= rest.push(s.last()));
        assert((t + c).push(s.last()) =~= t + b);
        assert forall|i: int| 0 <= i < b.len() implies is_white_space(#[trigger] b[i]) by {
            if i < c.len() {
                assert(b[i] == c[i]);
            }
        }
        b
    } else {
        assert(s =~= s + Seq::<char>::empty());
        Seq::empty()
    }
}

/// Blanks, tabs, line feeds and carriage returns are white space; digits and letters are not.
pub proof fn white_space_is_white(c: char)
    ensures
        c == ' ' || c == '\t' || c == '\n' || c == '\r' ==> is_white_space(c),
        is_digit(c) || 'a' <= c <= 'z' || 'A' <= c <= 'Z' ==> !is_white_space(c),
{
}

/// A letter from A to Z becomes the small letter at its place in the alphabet; every other
/// character stays.
pub proof fn capitals_become_small(c: char)
    ensures
        'A' <= c <= 'Z' ==> lower(c) as int - 'a' as int == c as int - 'A' as int,
        !('A' <= c <= 'Z') ==> lower(c) == c,
        lower(lower(c)) == lower(c),
{
}

/// A value that is a number is that number; one that is a text is the number that the text,
/// without the white space around it, is a numeral of; any other value is no number.
pub proof fn values_are_numbers_or_numerals(x: Real, t: Seq<char>, n: nat)
    ensures
        json_number(Some(JsonView::Number(x))) == Some(x),
        trimmed(t) == decimal(n) ==> json_number(Some(JsonView::Text(t))) == Some(spec_real(n)),
        !x.is_nan() && trimmed(t) == shortest(x) ==> json_number(Some(JsonView::Text(t))) == Some(x),
        trimmed(t).len() == 0 ==> json_number(Some(JsonView::Text(t))) is None,
        json_number(Some(JsonView::Other)) is None,
        json_number(None) is None,
{
    lemma_parse_decimal(n);
    if !x.is_nan() {
        shortest_digits_read_back(x);
    }
    if trimmed(t).len() == 0 {
        reveal_strlit("inf");
        reveal_strlit("infinity");
        reveal_strlit("nan");
        let e = trimmed(t);
        assert(lowered(e).len() == 0);
        assert(digit_run(e, 0) == 0);
    }
}

/// What became of a restaurant is told under its identity: whether it is in business, and its
/// funds.
pub proof fn outcomes_tell_of_their_restaurants(firms: Seq<(AgentId, FirmView)>, i: int)
    requires
        0 <= i < firms.len(),
    ensures
        outcomes_of(firms).len() == firms.len(),
        outcomes_of(firms)[i].firm == firms[i].0.0,
        outcomes_of(firms)[i].alive == firms[i].1.alive,
        outcomes_of(firms)[i].funds == firms[i].1.funds,
{
}

/// The values of a run are the numbers of its restaurants, days, calls and answers from the
/// cache, and how many of the calls the cache answered if there were any.
pub proof fn run_values_tell_of_the_run(r: SimulationResult)
    ensures
        run_values(r)[0] == ("n_units"@, spec_real(r.firm_outcomes@.len())),
        run_values(r)[1] == ("final_day"@, spec_real(r.final_day as nat)),
        run_values(r)[4] == ("llm_calls"@, spec_real(r.metadata.total as nat)),
        run_values(r)[5] == ("llm_cache_hits"@, spec_real(r.metadata.cache_hits as nat)),
        r.metadata.total > 0 ==> run_values(r)[6] == (
            "llm_cache_hit_rate"@,
            r.metadata.cache_hit_rate,
        ),
        r.metadata.total == 0 ==> run_values(r).len() == 6,
{
}

/// A value under a name is the first one under it.
pub proof fn values_are_found_by_name(values: Seq<(Seq<char>, Real)>, name: Seq<char>, k: int)
    requires
        0 <= k < values.len(),
        values[k].0 == name,
        forall|j: int| 0 <= j < k ==> (#[trigger] values[j]).0 != name,
    ensures
        value_under(values, name) == Some(values[k].1),
    decreases k,
{
    if k > 0 {
        assert(values[0].0 != name);
        let rest = values.drop_first();
        assert(rest[k - 1] == values[k]);
        assert forall|j: int| 0 <= j < k - 1 implies (#[trigger] rest[j]).0 != name by {
            assert(rest[j] == values[j + 1]);
        }
        values_are_found_by_name(rest, name, k - 1);
    }
}

} // verus!
