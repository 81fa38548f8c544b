//! What the scripted managers and customers go by.
use crate::accuracy::PARTS;
use crate::binary64::{spec_ratio, spec_real, Real};
use crate::bounds::{lemma_exact_integer, lemma_real_ordered};
use crate::estimates::{lemma_plus_off, lemma_ratio_off, size};
use crate::hashing::fnv;
use crate::prompts::{CHOICE_MARK, DELIBERATION_MARK, FIRM_MARK};
use crate::readback::{lemma_decimal, lemma_parse_decimal};
use crate::reproduce_mock::{
    cheapest_choice, choice, crowd, customer_reply, digits_after, field, firm_reply, herd_gap,
    is_number_char, leader, lemma_line_end, line_at, line_end, looks_to_price, lowest_price,
    number_run, offer_in, offers_from, offers_near, own_customers, preference, price_sensitive,
    raised, reply, signal, slogan, split_number, told_salary, Offered,
};
use crate::rounding::{lemma_nearest_exact, INF};
use crate::text::{decimal, digit_run, find, find_from, is_digit, number, occurs_at};
use vstd::arithmetic::power2::*;
use vstd::prelude::*;
use vstd::string::*;
use vstd::utf8::encode_utf8;

verus! {

/// Whole numbers add up exactly.
proof fn lemma_whole_plus(a: nat, b: nat)
    requires
        a + b <= 0x20_0000_0000_0000,
    ensures
        spec_real(a).plus(spec_real(b)) == spec_real(a + b),
{
    let u = pow2(1074);
    lemma_pow2_pos(1074);
    lemma_exact_integer(a);
    lemma_exact_integer(b);
    lemma_exact_integer(a + b);
    assert(a * u + b * u == (a + b) * u) by (nonlinear_arith);
    if a + b == 0 {
        assert((a + b) * u == 0) by (nonlinear_arith)
            requires a + b == 0;
        lemma_real_ordered(0, 0);
    } else {
        assert((a + b) * u > 0) by (nonlinear_arith)
            requires a + b > 0, u > 0;
    }
}

/// Whole numbers multiply exactly.
proof fn lemma_whole_times(a: nat, b: nat)
    requires
        a <= 0x20_0000_0000_0000,
        b <= 0x20_0000_0000_0000,
        a * b <= 0x20_0000_0000_0000,
    ensures
        spec_real(a).times(spec_real(b)) == spec_real(a * b),
{
    let u = pow2(1074);
    lemma_pow2_pos(1074);
    lemma_exact_integer(a);
    lemma_exact_integer(b);
    lemma_exact_integer(a * b);
    let k = spec_real(a * b).magnitude();
    assert((a * b * u) * u == (a * u) * (b * u)) by (nonlinear_arith);
    lemma_nearest_exact((a * u) * (b * u), u, k);
}

/// The order of whole numbers.
proof fn lemma_whole_less(a: nat, b: nat)
    requires
        a <= 0x20_0000_0000_0000,
        b <= 0x20_0000_0000_0000,
    ensures
        spec_real(a).less(spec_real(b)) <==> a < b,
{
    let u = pow2(1074);
    lemma_pow2_pos(1074);
    lemma_exact_integer(a);
    lemma_exact_integer(b);
    assert(a * u < b * u <==> a < b) by (nonlinear_arith)
        requires u > 0;
}

/// A manager raises a whole salary by 80 and by 12 for each customer of the day before, but not
/// above 5000; a salary that is above stays.
pub proof fn salaries_rise_with_customers(salary: nat, customers: u64)
    requires
        salary <= 0x4_0000_0000_0000,
        customers <= 1_000_000_000_000,
    ensures
        ({
            let more = salary + 80 + 12 * customers;
            &&& more <= 5_000 ==> raised(spec_real(salary), customers) == spec_real(more as nat)
            &&& salary <= 5_000 < more ==> raised(spec_real(salary), customers) == spec_real(5_000)
            &&& salary > 5_000 ==> raised(spec_real(salary), customers) == spec_real(salary)
        }),
{
    let c = customers as nat;
    let more = salary + 80 + 12 * c;
    lemma_whole_times(12, c);
    lemma_whole_plus(80, 12 * c);
    lemma_whole_plus(salary, 80 + 12 * c);
    lemma_whole_less(5_000, more);
    lemma_whole_less(salary, more);
    lemma_whole_less(salary, 5_000);
    lemma_exact_integer(salary);
    lemma_exact_integer(more);
    lemma_exact_integer(5_000);
}

/// Whatever the salary, it is not lowered, and it is not raised above 5000.
pub proof fn salaries_are_not_lowered(salary: Real, customers: u64)
    requires
        !salary.is_nan(),
    ensures
        salary.at_most(raised(salary, customers)),
        raised(salary, customers).at_most(spec_real(5_000)) || raised(salary, customers) == salary,
{
    lemma_exact_integer(5_000);
}

/// A restaurant with fewer than 15 customers advertises otherwise than one with 15 or more, and
/// restaurants on the same side of this advertise the same.
pub proof fn slogans_go_by_customers(a: u64, b: u64)
    ensures
        slogan(a) == slogan(b) <==> ((a < 15) == (b < 15)),
        a < 15 ==> slogan(a) == "Come discover us — fresh quality every day!"@,
        a >= 15 ==> slogan(a) == "A customer favorite — quality you can taste."@,
{
    reveal_strlit("Come discover us — fresh quality every day!");
    reveal_strlit("A customer favorite — quality you can taste.");
    assert("Come discover us — fresh quality every day!"@[0]
        != "A customer favorite — quality you can taste."@[0]);
}

/// No offer is cheaper than the lowest price, and some offer has it.
pub proof fn the_lowest_price_is_lowest(offers: Seq<Offered>, n: nat) -> (m: int)
    requires
        1 <= n <= offers.len(),
        forall|i: int| 0 <= i < n ==> (#[trigger] offers[i]).price.is_finite(),
    ensures
        0 <= m < n,
        offers[m].price == lowest_price(offers, n),
        forall|i: int| 0 <= i < n ==> !(#[trigger] offers[i]).price.less(lowest_price(offers, n)),
    decreases n,
{
    let last = n - 1;
    assert(offers[last].price.is_finite());
    if n == 1 {
        assert(lowest_price(offers, 0) == (Real { bits: INF }));
        crate::rounding::lemma_units_order(INF as nat, offers[0].price.magnitude());
        crate::rounding::lemma_units_order(offers[0].price.magnitude(), INF as nat);
        assert(offers[0].price.less(Real { bits: INF }));
        0
    } else {
        let m = the_lowest_price_is_lowest(offers, last as nat);
        if offers[last].price.less(offers[m].price) {
            last
        } else {
            m
        }
    }
}

/// The numbers of the offers near a price are those of the offers whose prices are less than
/// `10^-6` away from it, in their order.
pub proof fn near_offers_are_near(offers: Seq<Offered>, price: Real, n: nat)
    requires
        n <= offers.len(),
    ensures
        offers_near(offers, price, n) == offers.take(n as int).filter(
            |o: Offered| o.price.minus(price).absolute().less(spec_ratio(1, 1_000_000)),
        ).map_values(|o: Offered| o.index),
    decreases n,
{
    reveal(Seq::filter);
    let p = |o: Offered| o.price.minus(price).absolute().less(spec_ratio(1, 1_000_000));
    let f = |o: Offered| o.index;
    if n > 0 {
        near_offers_are_near(offers, price, (n - 1) as nat);
        let now = offers.take(n as int);
        assert(now.drop_last() =~= offers.take(n - 1));
        assert(now.last() == offers[n - 1]);
        let before = now.drop_last().filter(p);
        assert(before.push(now.last()).map_values(f) =~= before.map_values(f).push(
            now.last().index,
        ));
    }
    assert(offers_near(offers, price, n) =~= offers.take(n as int).filter(p).map_values(f));
}

/// Who is near a price.
proof fn lemma_some_near(offers: Seq<Offered>, price: Real, n: nat, i: int) -> (k: int)
    requires
        n <= offers.len(),
        0 <= i < offers_near(offers, price, n).len(),
    ensures
        0 <= k < n,
        offers[k].index == offers_near(offers, price, n)[i],
        offers[k].price.minus(price).absolute().less(spec_ratio(1, 1_000_000)),
    decreases n,
{
    let before = offers_near(offers, price, (n - 1) as nat);
    if i < before.len() {
        lemma_some_near(offers, price, (n - 1) as nat, i)
    } else {
        n - 1
    }
}

/// A customer who looks to the price goes to an offer than which none is cheaper by `10^-6` or
/// more.
pub proof fn the_thrifty_go_to_the_cheapest(offers: Seq<Offered>, s: Seq<char>) -> (km: (int, int))
    requires
        offers.len() > 0,
        forall|i: int| 0 <= i < offers.len() ==> (#[trigger] offers[i]).price.is_finite(),
        cheapest_choice(offers, s) is Some,
    ensures
        0 <= km.0 < offers.len(),
        0 <= km.1 < offers.len(),
        cheapest_choice(offers, s) == Some(offers[km.0].index),
        forall|i: int|
            0 <= i < offers.len() ==> !(#[trigger] offers[i]).price.less(offers[km.1].price),
        offers[km.0].price.minus(offers[km.1].price).absolute().less(spec_ratio(1, 1_000_000)),
{
    let n = offers.len();
    let m = the_lowest_price_is_lowest(offers, n);
    let near = offers_near(offers, lowest_price(offers, n), n);
    let i = split_number(s) as int % near.len() as int;
    assert(0 <= i < near.len());
    let k = lemma_some_near(offers, lowest_price(offers, n), n, i);
    (k, m)
}

/// What draws customers to an offer is its reputation and its quality together, up to a
/// rounding.
pub proof fn reputation_and_quality_draw(o: Offered)
    requires
        o.reputation.is_finite(),
        o.quality.is_finite(),
        signal(o).is_finite(),
    ensures
        size(signal(o).value() - (o.reputation.value() + o.quality.value())) * PARTS <= size(
            o.reputation.value() + o.quality.value(),
        ),
{
    lemma_plus_off(o.reputation, o.quality);
}

/// The leader draws no less than any other offer, and more than those before it, one offer
/// passed over.
pub proof fn the_leader_draws_most(offers: Seq<Offered>, n: nat, passed: int)
    requires
        n <= offers.len(),
        forall|i: int| 0 <= i < n ==> !signal(#[trigger] offers[i]).is_nan(),
    ensures
        match leader(offers, n, passed) {
            Some(k) => {
                &&& 0 <= k < n && k != passed
                &&& forall|i: int|
                    0 <= i < n && i != passed ==> !signal(offers[k]).less(
                        signal(#[trigger] offers[i]),
                    )
                &&& forall|i: int|
                    0 <= i < k && i != passed ==> signal(#[trigger] offers[i]).less(
                        signal(offers[k]),
                    )
            },
            None => n == 0 || n == 1 && passed == 0,
        },
    decreases n,
{
    if n > 0 {
        the_leader_draws_most(offers, (n - 1) as nat, passed);
        assert(!signal(offers[n - 1]).is_nan());
        match leader(offers, (n - 1) as nat, passed) {
            Some(k) => {
                assert(!signal(offers[k]).is_nan());
            },
            None => {},
        }
    }
}

/// Customers follow the crowd exactly if the offer that draws most does so by at least four
/// hundredths more than the next.
pub proof fn crowds_gather_at_a_clear_leader(offers: Seq<Offered>, k: int, j: int)
    requires
        0 <= k < offers.len(),
        0 <= j < offers.len(),
        k != j,
        forall|i: int| 0 <= i < offers.len() ==> !signal(#[trigger] offers[i]).is_nan(),
        forall|i: int|
            0 <= i < offers.len() && i != k ==> signal(#[trigger] offers[i]).less(
                signal(offers[k]),
            ),
        forall|i: int|
            0 <= i < offers.len() && i != k ==> !signal(offers[j]).less(signal(#[trigger] offers[i])),
        forall|i: int|
            0 <= i < j && i != k ==> signal(#[trigger] offers[i]).less(signal(offers[j])),
    ensures
        crowd(offers) == if signal(offers[k]).minus(signal(offers[j])).less(spec_ratio(4, 100)) {
            None::<int>
        } else {
            Some(k)
        },
        size(100 * herd_gap().value() - 4 * pow2(1074)) * PARTS <= 5 * pow2(1074),
{
    let n = offers.len();
    lemma_ratio_off(4, 100);
    the_leader_draws_most(offers, n, -1);
    let top = leader(offers, n, -1)->0;
    if top != k {
        assert(signal(offers[top]).less(signal(offers[k])));
        assert(!signal(offers[top]).less(signal(offers[k])));
    }
    the_leader_draws_most(offers, n, k);
    if leader(offers, n, k) is None {
        assert(j == k);
    }
    let second = leader(offers, n, k)->0;
    if second < j {
        assert(signal(offers[second]).less(signal(offers[j])));
        assert(!signal(offers[second]).less(signal(offers[j])));
    } else if j < second {
        assert(signal(offers[j]).less(signal(offers[second])));
        assert(!signal(offers[j]).less(signal(offers[second])));
    }
}

/// A customer who decides alone and does not look to the price follows the crowd, if there is
/// one.
pub proof fn the_crowd_is_followed(s: Seq<char>, k: int)
    requires
        offers_from(s, 0).len() > 0,
        !looks_to_price(s),
        find(s, DELIBERATION_MARK@) is None,
        crowd(offers_from(s, 0)) == Some(k),
    ensures
        choice(s) == Some(offers_from(s, 0)[k].index),
{
}

/// Of several cheapest offers a customer goes to the one that the number drawn from the budget
/// points at; and so does one, among all offers, who decides alone and finds no crowd.
pub proof fn budgets_break_ties(s: Seq<char>, k: int)
    ensures
        ({
            let offers = offers_from(s, 0);
            let near = offers_near(offers, lowest_price(offers, offers.len()), offers.len());
            &&& 0 <= k < near.len() && (split_number(s) - k) % near.len() as int == 0
                ==> cheapest_choice(offers, s) == Some(near[k])
            &&& 0 <= k < offers.len() && (split_number(s) - k) % offers.len() as int == 0
                && !looks_to_price(s) && find(s, DELIBERATION_MARK@) is None && crowd(offers) is None
                ==> choice(s) == Some(offers[k].index)
            &&& offers.len() > 0 && looks_to_price(s) ==> choice(s) == cheapest_choice(offers, s)
        }),
{
    let offers = offers_from(s, 0);
    let near = offers_near(offers, lowest_price(offers, offers.len()), offers.len());
    if 0 <= k < near.len() && (split_number(s) - k) % near.len() as int == 0 {
        lemma_same_remainder(split_number(s) as int, k, near.len() as int);
    }
    if 0 <= k < offers.len() && (split_number(s) - k) % offers.len() as int == 0 {
        lemma_same_remainder(split_number(s) as int, k, offers.len() as int);
    }
}

/// What differs by a multiple leaves the same.
proof fn lemma_same_remainder(a: int, k: int, n: int)
    requires
        0 <= k < n,
        (a - k) % n == 0,
    ensures
        a % n == k,
{
    vstd::arithmetic::div_mod::lemma_fundamental_div_mod(a - k, n);
    let q = (a - k) / n;
    assert(n * q == q * n) by (nonlinear_arith);
    vstd::arithmetic::div_mod::lemma_fundamental_div_mod_converse(a, n, q, k);
}

/// In a group a customer who does not look to the price goes to the offer that the hash of the
/// preference points at.
pub proof fn tastes_decide_in_groups(s: Seq<char>, k: int)
    requires
        !looks_to_price(s),
        find(s, DELIBERATION_MARK@) is Some,
        0 <= k < offers_from(s, 0).len(),
        (fnv(encode_utf8(preference(s))) - k) % offers_from(s, 0).len() as int == 0,
    ensures
        choice(s) == Some(offers_from(s, 0)[k].index),
{
    lemma_same_remainder(
        fnv(encode_utf8(preference(s))) as int,
        k,
        offers_from(s, 0).len() as int,
    );
}

/// A number in digits behind a marker is read as that number, where the marker first stands.
pub proof fn numbers_are_read_behind_markers(
    a: Seq<char>,
    m: Seq<char>,
    n: nat,
    b: Seq<char>,
)
    requires
        find(a + m + decimal(n) + b, m) == Some(a.len() as int),
        b.len() > 0 ==> !is_number_char(b[0]),
    ensures
        field(a + m + decimal(n) + b, m) == Some(spec_real(n)),
        digits_after(a + m + decimal(n) + b, m) == Some(decimal(n)),
{
    let s = a + m + decimal(n) + b;
    let i = (a.len() + m.len()) as int;
    let e = (i + decimal(n).len()) as int;
    lemma_decimal(n);
    lemma_parse_decimal(n);
    assert forall|k: int| i <= k < e implies is_digit(#[trigger] s[k]) by {
        assert(s[k] == decimal(n)[k - i]);
    }
    if e < s.len() {
        assert(s[e] == b[0]);
    }
    lemma_number_run_ends(s, i, e);
    assert(s.subrange(i, e) =~= decimal(n));
}

/// Runs of digits and of the characters of a number end at the first other character.
proof fn lemma_number_run_ends(s: Seq<char>, i: int, e: int)
    requires
        0 <= i <= e <= s.len(),
        forall|k: int| i <= k < e ==> is_digit(#[trigger] s[k]),
        e < s.len() ==> !is_number_char(s[e]),
    ensures
        number_run(s, i) == e,
        digit_run(s, i) == e,
    decreases e - i,
{
    if i < e {
        assert(is_digit(s[i]));
        lemma_number_run_ends(s, i + 1, e);
    }
}

/// What a question tells of is read: the customers of the day before, the salary, and whether
/// the budget is low, which it is below 6000.
pub proof fn questions_are_understood(a: Seq<char>, n: nat, b: Seq<char>)
    requires
        b.len() > 0 ==> !is_number_char(b[0]),
        n <= 0x20_0000_0000_0000,
    ensures
        find(a + "Yesterday: "@ + decimal(n) + b, "Yesterday: "@) == Some(a.len() as int)
            ==> own_customers(a + "Yesterday: "@ + decimal(n) + b) == n,
        find(a + "Chef salary: "@ + decimal(n) + b, "Chef salary: "@) == Some(a.len() as int)
            ==> told_salary(a + "Chef salary: "@ + decimal(n) + b) == spec_real(n),
        find(a + "Daily budget: "@ + decimal(n) + b, "Daily budget: "@) == Some(a.len() as int) ==> (
        price_sensitive(a + "Daily budget: "@ + decimal(n) + b) <==> n < 6_000),
{
    lemma_decimal(n);
    lemma_parse_decimal(n);
    lemma_whole_less(n, 6_000);
    if find(a + "Yesterday: "@ + decimal(n) + b, "Yesterday: "@) == Some(a.len() as int) {
        numbers_are_read_behind_markers(a, "Yesterday: "@, n, b);
    }
    if find(a + "Chef salary: "@ + decimal(n) + b, "Chef salary: "@) == Some(a.len() as int) {
        numbers_are_read_behind_markers(a, "Chef salary: "@, n, b);
    }
    if find(a + "Daily budget: "@ + decimal(n) + b, "Daily budget: "@) == Some(a.len() as int) {
        numbers_are_read_behind_markers(a, "Daily budget: "@, n, b);
    }
}

/// Where a question tells of no customers there were none; where it tells of no salary it is
/// 2000; where it tells of no budget the budget is not low.
pub proof fn what_is_not_told_is_supposed(s: Seq<char>)
    ensures
        find(s, "Yesterday: "@) is None ==> own_customers(s) == 0,
        find(s, "Chef salary: "@) is None ==> told_salary(s) == spec_real(2_000),
        find(s, "Daily budget: "@) is None ==> !price_sensitive(s),
{
}

/// Where a text is found, looking from a place on.
proof fn lemma_first(s: Seq<char>, m: Seq<char>, i: int)
    requires
        0 <= i,
    ensures
        match find_from(s, m, i) {
            Some(k) => i <= k && occurs_at(s, m, k) && forall|j: int|
                i <= j < k ==> !#[trigger] occurs_at(s, m, j),
            None => forall|j: int| i <= j ==> !#[trigger] occurs_at(s, m, j),
        },
    decreases s.len() + 1 - i,
{
    if i <= s.len() && !occurs_at(s, m, i) {
        lemma_first(s, m, i + 1);
    }
}

/// Something is found where it first stands, and only if it stands somewhere.
pub proof fn what_is_found_stands_first(s: Seq<char>, part: Seq<char>)
    ensures
        match find(s, part) {
            Some(i) => {
                &&& 0 <= i <= s.len() - part.len()
                &&& s.subrange(i, i + part.len()) == part
                &&& forall|j: int|
                    0 <= j < i ==> #[trigger] s.subrange(j, j + part.len()) != part
            },
            None => forall|j: int|
                0 <= j <= s.len() - part.len() ==> #[trigger] s.subrange(j, j + part.len()) != part,
        },
{
    lemma_first(s, part, 0);
    match find(s, part) {
        Some(i) => {
            assert forall|j: int| 0 <= j < i implies #[trigger] s.subrange(j, j + part.len())
                != part by {
                assert(!occurs_at(s, part, j));
            }
        },
        None => {
            assert forall|j: int| 0 <= j <= s.len() - part.len() implies #[trigger] s.subrange(
                j,
                j + part.len(),
            ) != part by {
                assert(!occurs_at(s, part, j));
            }
        },
    }
}

/// The offers that a text tells of are those of its lines, one after the other.
pub proof fn lines_are_read_one_by_one(a: Seq<char>, b: Seq<char>)
    requires
        !a.contains('\n'),
        a.len() > 0 ==> a.last() != '\r',
    ensures
        offers_from(a + seq!['\n'] + b, 0) == offers_from(a, 0) + offers_from(b, 0),
        offers_from(a, 0) == match offer_in(a) {
            Some(o) => if a.len() > 0 {
                seq![o]
            } else {
                seq![]
            },
            None => seq![],
        },
{
    let s = a + seq!['\n'] + b;
    lemma_line_ends(a, a, 0);
    lemma_line_ends(a, s, 0);
    assert(s[a.len() as int] == '\n');
    lemma_lines_behind(a, b, 0);
    assert(s.subrange(0, a.len() as int) =~= a);
    assert(a.subrange(0, a.len() as int) =~= a);
    if a.len() > 0 {
        assert(s[a.len() - 1] == a.last());
        assert(offers_from(a, a.len() as int + 1) =~= seq![]);
        assert(line_at(a, 0) =~= a);
        assert(line_at(s, 0) =~= a);
        assert(offers_from(a, 0) =~= match offer_in(a) {
            Some(o) => seq![o],
            None => seq![],
        });
    } else {
        reveal_strlit("- Option ");
        assert(line_at(s, 0) =~= seq![]);
        assert(offer_in(line_at(s, 0)) is None);
        assert(offers_from(a, 0) =~= seq![]);
    }
    assert(offers_from(s, 0) =~= offers_from(a, 0) + offers_from(b, 0));
}

/// A line ends at the line feed, or at the end.
proof fn lemma_line_ends(a: Seq<char>, s: Seq<char>, i: int)
    requires
        0 <= i <= a.len() <= s.len(),
        forall|k: int| 0 <= k < a.len() ==> s[k] == a[k],
        !a.contains('\n'),
        a.len() < s.len() ==> s[a.len() as int] == '\n',
    ensures
        line_end(s, i) == a.len(),
    decreases a.len() - i,
{
    if i < a.len() {
        assert(a.contains(a[i]));
        lemma_line_ends(a, s, i + 1);
    }
}

/// Where a line ends behind a line feed.
proof fn lemma_ends_behind(a: Seq<char>, b: Seq<char>, i: int)
    requires
        0 <= i <= b.len(),
    ensures
        line_end(a + seq!['\n'] + b, a.len() + 1 + i) == a.len() + 1 + line_end(b, i),
    decreases b.len() - i,
{
    let s = a + seq!['\n'] + b;
    if i < b.len() {
        assert(s[a.len() + 1 + i] == b[i]);
        if b[i] != '\n' {
            lemma_ends_behind(a, b, i + 1);
        }
    }
}

/// The offers of the lines behind a line feed.
proof fn lemma_lines_behind(a: Seq<char>, b: Seq<char>, i: int)
    requires
        0 <= i,
    ensures
        offers_from(a + seq!['\n'] + b, a.len() + 1 + i) == offers_from(b, i),
    decreases b.len() + 1 - i,
{
    let s = a + seq!['\n'] + b;
    if i < b.len() {
        lemma_line_end(b, i);
        lemma_ends_behind(a, b, i);
        let e = line_end(b, i);
        let d = a.len() + 1;
        assert(s.subrange(d + i, d + e) =~= b.subrange(i, e));
        if e > i {
            assert(s[d + e - 1] == b[e - 1]);
            assert(s.subrange(d + i, d + e - 1) =~= b.subrange(i, e - 1));
        }
        assert(line_at(s, d + i) =~= line_at(b, i));
        lemma_lines_behind(a, b, e + 1);
    }
}

/// A question with the mark of a manager's is answered as one; of the others, one with the mark
/// of a customer's is answered as such; any other is answered with the first choice.
pub proof fn marks_tell_who_answers(a: Seq<char>, b: Seq<char>)
    ensures
        reply(a + FIRM_MARK@ + b) == firm_reply(a + FIRM_MARK@ + b),
        find(a + CHOICE_MARK@ + b, FIRM_MARK@) is None ==> reply(a + CHOICE_MARK@ + b)
            == customer_reply(a + CHOICE_MARK@ + b),
        find(a, FIRM_MARK@) is None && find(a, CHOICE_MARK@) is None ==> reply(a)
            == "{\"choice\": 0}"@,
{
    crate::text::lemma_part_found(a, FIRM_MARK@, b);
    crate::text::lemma_part_found(a, CHOICE_MARK@, b);
}

} // verus!
