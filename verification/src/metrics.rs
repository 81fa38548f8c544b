//! What is measured of the market.
use crate::binary64::{ratio, real_of, real_of_wide, spec_ratio, spec_real, Real};
use crate::bounds::{
    lemma_exact_integer, lemma_fraction, lemma_fractions_sum, lemma_one, lemma_product_not_zero,
    lemma_quotient_is_number, lemma_real_ordered, lemma_reciprocal_not_zero, lemma_zero_over,
};
use crate::rounding::{lemma_nearest_rounds, lemma_units_order};
use crate::text::{chars_of, is_text};
use crate::world::{mean_of, menu_view, real_mean, real_sum, sum_of, Dish, DishView, Firm};
use vstd::arithmetic::power2::*;
use vstd::prelude::*;
use vstd::string::*;

verus! {

/// The distances of all pairs of numbers, each number with itself and both ways round.
pub open spec fn distances(values: Seq<Real>) -> Seq<Real> {
    let n = values.len();
    Seq::new(
        n * n,
        |k: int| values[k / (n as int)].minus(values[k % (n as int)]).absolute(),
    )
}

/// Some number lies below zero.
pub open spec fn some_negative(values: Seq<Real>) -> bool {
    exists|i: int| 0 <= i < values.len() && (#[trigger] values[i]).less(Real { bits: 0 })
}

/// The Gini coefficient: the sum of all distances by twice the number of values times their
/// sum. It is zero where it cannot be defined: of no values, of a sum that is next to
/// nothing, and where a value is negative.
pub open spec fn spec_gini(values: Seq<Real>) -> Real {
    let total = real_sum(values);
    if values.len() == 0 || total.absolute().less(spec_ratio(1, 1_000_000_000_000))
        || some_negative(values) {
        Real { bits: 0 }
    } else {
        real_sum(distances(values)).over(
            spec_real(2).times(spec_real(values.len())).times(total),
        ).clamped(Real { bits: 0 }, spec_real(1))
    }
}

/// The Gini coefficient of the restaurants' revenues.
pub fn revenue_gini(values: &[Real]) -> (r: Real)
    ensures
        r == spec_gini(values@),
{
    let n: usize = values.len();
    if n == 0 {
        return Real { bits: 0 };
    }
    let total = sum_of(values);
    if total.absolute().less(ratio(1, 1_000_000_000_000)) {
        return Real { bits: 0 };
    }
    let mut i: usize = 0;
    while i < n
        invariant
            i <= n == values@.len(),
            forall|k: int| 0 <= k < i ==> !(#[trigger] values@[k]).less(Real { bits: 0 }),
        decreases n - i,
    {
        if values[i].less(Real { bits: 0 }) {
            proof {
                assert(values@[i as int].less(Real { bits: 0 }));
            }
            return Real { bits: 0 };
        }
        i = i + 1;
    }
    let ghost all = distances(values@);
    let mut sum = Real { bits: 0 };
    i = 0;
    proof {
        assert(all.take(0).len() == 0);
        assert(0 * n == 0);
    }
    while i < n
        invariant
            i <= n == values@.len(),
            n > 0,
            all == distances(values@),
            i * n <= n * n,
            sum == real_sum(all.take(i * n)),
        decreases n - i,
    {
        let mut j: usize = 0;
        proof {
            assert(i * n + n <= n * n) by (nonlinear_arith)
                requires i < n;
        }
        while j < n
            invariant
                i < n == values@.len(),
                j <= n,
                n > 0,
                all == distances(values@),
                i * n + n <= n * n,
                sum == real_sum(all.take(i * n + j)),
            decreases n - j,
        {
            proof {
                let k = i * n + j;
                assert(k / (n as int) == i && k % (n as int) == j) by {
                    vstd::arithmetic::div_mod::lemma_fundamental_div_mod_converse(
                        k, n as int, i as int, j as int);
                }
                assert(all.take(k + 1).drop_last() =~= all.take(k));
            }
            sum = sum.plus(values[i].minus(values[j]).absolute());
            j = j + 1;
        }
        proof {
            assert((i + 1) * n == i * n + n) by (nonlinear_arith);
        }
        i = i + 1;
    }
    proof {
        assert(all.take(n * n) =~= all);
    }
    sum.over(real_of(2).times(real_of(n as u64)).times(total)).clamped(
        Real { bits: 0 },
        real_of(1),
    )
}

/// The sum of counts.
pub open spec fn count_sum(s: Seq<u64>) -> nat
    decreases s.len(),
{
    if s.len() == 0 {
        0
    } else {
        count_sum(s.drop_last()) + s.last() as nat
    }
}

/// The largest of counts; zero of none.
pub open spec fn count_max(s: Seq<u64>) -> u64
    decreases s.len(),
{
    if s.len() == 0 {
        0
    } else if s.last() >= count_max(s.drop_last()) {
        s.last()
    } else {
        count_max(s.drop_last())
    }
}

/// The largest share of the customers of a day; zero on a day without customers.
pub open spec fn spec_share(counts: Seq<u64>) -> Real {
    if count_sum(counts) == 0 {
        Real { bits: 0 }
    } else {
        spec_real(count_max(counts) as nat).over(spec_real(count_sum(counts)))
    }
}

/// No part of a sum is larger than the sum.
pub proof fn lemma_count_sum_grows(s: Seq<u64>, n: int)
    requires
        0 <= n <= s.len(),
    ensures
        count_sum(s.take(n)) <= count_sum(s),
    decreases s.len(),
{
    if n < s.len() {
        lemma_count_sum_grows(s.drop_last(), n);
        assert(s.drop_last().take(n) =~= s.take(n));
    } else {
        assert(s.take(n) =~= s);
    }
}

/// The largest share of the customers of a day.
pub fn market_share_max(day_customers: &[u64]) -> (r: Real)
    requires
        count_sum(day_customers@) <= u64::MAX,
    ensures
        r == spec_share(day_customers@),
{
    let mut total: u64 = 0;
    let mut max: u64 = 0;
    let mut i: usize = 0;
    while i < day_customers.len()
        invariant
            i <= day_customers@.len(),
            count_sum(day_customers@) <= u64::MAX,
            total == count_sum(day_customers@.take(i as int)),
            max == count_max(day_customers@.take(i as int)),
        decreases day_customers@.len() - i,
    {
        let c: u64 = day_customers[i];
        proof {
            lemma_count_sum_grows(day_customers@, i + 1);
            assert(day_customers@.take(i + 1).drop_last() =~= day_customers@.take(i as int));
        }
        total = total + c;
        if c >= max {
            max = c;
        }
        i = i + 1;
    }
    proof {
        assert(day_customers@.take(day_customers@.len() as int) =~= day_customers@);
    }
    if total == 0 {
        Real { bits: 0 }
    } else {
        real_of(max).over(real_of(total))
    }
}

/// The largest share was above a threshold on every day from one on, and there was such a
/// day.
pub open spec fn wins_all(shares: Seq<Real>, start_day: int, threshold: Real) -> bool {
    start_day < shares.len() && forall|d: int|
        start_day <= d < shares.len() ==> threshold.less(#[trigger] shares[d])
}

/// Whether one restaurant took all.
pub fn winner_take_all(max_share_by_day: &[Real], start_day: usize, threshold: Real) -> (r: bool)
    ensures
        r == wins_all(max_share_by_day@, start_day as int, threshold),
        r ==> start_day < max_share_by_day@.len(),
        r ==> forall|d: int|
            start_day <= d < max_share_by_day@.len() ==> threshold.less(
                #[trigger] max_share_by_day@[d],
            ),
        !r && start_day < max_share_by_day@.len() ==> exists|d: int|
            start_day <= d < max_share_by_day@.len() && !threshold.less(
                #[trigger] max_share_by_day@[d],
            ),
{
    if start_day >= max_share_by_day.len() {
        return false;
    }
    let mut d: usize = start_day;
    while d < max_share_by_day.len()
        invariant
            start_day <= d <= max_share_by_day@.len(),
            forall|e: int| start_day <= e < d ==> threshold.less(#[trigger] max_share_by_day@[e]),
        decreases max_share_by_day@.len() - d,
    {
        if !threshold.less(max_share_by_day[d]) {
            return false;
        }
        d = d + 1;
    }
    true
}

/// The mean of numbers; zero of none.
pub fn mean(values: &[Real]) -> (r: Real)
    ensures
        r == real_mean(values@),
{
    mean_of(values)
}

/// The names on a menu.
pub open spec fn names(menu: Seq<DishView>) -> Set<Seq<char>> {
    menu.map_values(|d: DishView| d.name).to_set()
}

/// The names that two menus share by the names on either; zero of two empty menus.
pub open spec fn jaccard(a: Seq<DishView>, b: Seq<DishView>) -> Real {
    if names(a).union(names(b)).len() == 0 {
        Real { bits: 0 }
    } else {
        spec_real(names(a).intersect(names(b)).len()).over(
            spec_real(names(a).union(names(b)).len()),
        )
    }
}

/// The similarities of a menu to those that come after it.
pub open spec fn later_similarities(menus: Seq<Seq<DishView>>, i: int) -> Seq<Real> {
    Seq::new((menus.len() - i - 1) as nat, |d: int| jaccard(menus[i], menus[i + 1 + d]))
}

/// The similarities of the first `n` menus to those that come after them.
pub open spec fn similarities(menus: Seq<Seq<DishView>>, n: nat) -> Seq<Real>
    decreases n,
{
    if n == 0 {
        seq![]
    } else {
        similarities(menus, (n - 1) as nat) + later_similarities(menus, n - 1)
    }
}

/// The mean similarity of all pairs of menus; zero where there is no pair.
pub open spec fn spec_menu_similarity(menus: Seq<Seq<DishView>>) -> Real {
    if menus.len() < 2 {
        Real { bits: 0 }
    } else {
        real_sum(similarities(menus, menus.len())).over(
            spec_real(similarities(menus, menus.len()).len()),
        )
    }
}

/// Whether one of the first `n` dishes has a name.
fn has_name(menu: &Vec<Dish>, n: usize, name: &Vec<char>) -> (r: bool)
    requires
        n <= menu@.len(),
    ensures
        r == names(menu_view(menu@).take(n as int)).contains(name@),
{
    let ghost all = menu_view(menu@).take(n as int).map_values(|d: DishView| d.name);
    let mut i: usize = 0;
    while i < n
        invariant
            i <= n <= menu@.len(),
            all == menu_view(menu@).take(n as int).map_values(|d: DishView| d.name),
            forall|j: int| 0 <= j < i ==> all[j] != name@,
        decreases n - i,
    {
        if is_text(name, menu[i].name.as_str()) {
            proof {
                assert(all[i as int] == name@);
            }
            return true;
        }
        i = i + 1;
    }
    false
}

/// Names that another menu has, among the first `n` dishes.
proof fn lemma_names_push(menu: Seq<DishView>, n: int)
    requires
        0 <= n < menu.len(),
    ensures
        names(menu.take(n + 1)) == names(menu.take(n)).insert(menu[n].name),
        names(menu.take(n)).finite(),
        names(menu).finite(),
{
    let f = |d: DishView| d.name;
    let a = menu.take(n + 1).map_values(f);
    let b = menu.take(n).map_values(f);
    assert(a =~= b.push(menu[n].name));
    assert forall|x: Seq<char>| a.contains(x) <==> (b.contains(x) || x == menu[n].name) by {
        if b.contains(x) {
            let i = choose|i: int| 0 <= i < b.len() && b[i] == x;
            assert(a[i] == x);
        }
        if x == menu[n].name {
            assert(a[n] == x);
        }
        if a.contains(x) {
            let i = choose|i: int| 0 <= i < a.len() && a[i] == x;
            if i < n {
                assert(b[i] == x);
            }
        }
    }
    assert(names(menu.take(n + 1)) =~= names(menu.take(n)).insert(menu[n].name));
}

/// How many names are on a menu, and how many of them on another one.
fn count_names(a: &Vec<Dish>, b: &Vec<Dish>) -> (r: (usize, usize))
    ensures
        r.0 == names(menu_view(a@)).len(),
        r.1 == names(menu_view(a@)).intersect(names(menu_view(b@))).len(),
        r.1 <= r.0 <= a@.len(),
{
    let ghost m = menu_view(a@);
    let ghost other = names(menu_view(b@));
    let mut total: usize = 0;
    let mut shared: usize = 0;
    let mut i: usize = 0;
    proof {
        assert(menu_view(b@).take(b@.len() as int) =~= menu_view(b@));
        assert(names(m.take(0)) =~= Set::empty());
        assert(names(m.take(0)).intersect(other) =~= Set::empty());
    }
    while i < a.len()
        invariant
            i <= a@.len(),
            m == menu_view(a@),
            other == names(menu_view(b@)),
            menu_view(b@).take(b@.len() as int) == menu_view(b@),
            shared <= total <= i,
            total == names(m.take(i as int)).len(),
            shared == names(m.take(i as int)).intersect(other).len(),
        decreases a@.len() - i,
    {
        let name = chars_of(a[i].name.as_str());
        let seen = has_name(a, i, &name);
        proof {
            lemma_names_push(m, i as int);
            let before = names(m.take(i as int));
            let after = names(m.take(i + 1));
            assert(after.intersect(other) =~= if other.contains(name@) {
                before.intersect(other).insert(name@)
            } else {
                before.intersect(other)
            });
            if seen {
                assert(after =~= before);
            }
            vstd::set_lib::lemma_len_intersect(before, other);
        }
        if !seen {
            total = total + 1;
            if has_name(b, b.len(), &name) {
                shared = shared + 1;
            }
        }
        i = i + 1;
    }
    proof {
        assert(m.take(a@.len() as int) =~= m);
    }
    (total, shared)
}

/// The similarity of two menus.
fn jaccard_menu(a: &Firm, b: &Firm) -> (r: Real)
    ensures
        r == jaccard(a@.menu, b@.menu),
{
    let (in_a, inter) = count_names(&a.menu, &b.menu);
    let (in_b, _) = count_names(&b.menu, &a.menu);
    let union: u128 = in_a as u128 + in_b as u128 - inter as u128;
    proof {
        let sa = names(a@.menu);
        let sb = names(b@.menu);
        assert(sa.finite() && sb.finite());
        vstd::set_lib::lemma_set_intersect_union_lens(sa, sb);
    }
    if union == 0 {
        Real { bits: 0 }
    } else {
        real_of(inter as u64).over(real_of_wide(union))
    }
}

/// The menus of restaurants.
pub open spec fn menus(firms: Seq<&Firm>) -> Seq<Seq<DishView>> {
    firms.map_values(|f: &Firm| f@.menu)
}

/// The mean similarity of all pairs of menus.
pub fn menu_similarity(firms: &[&Firm]) -> (r: Real)
    ensures
        r == spec_menu_similarity(menus(firms@)),
{
    let n: usize = firms.len();
    if n < 2 {
        return Real { bits: 0 };
    }
    let ghost m = menus(firms@);
    let mut total = Real { bits: 0 };
    let mut pairs: u128 = 0;
    let mut i: usize = 0;
    while i < n
        invariant
            i <= n == firms@.len(),
            m == menus(firms@),
            total == real_sum(similarities(m, i as nat)),
            pairs == similarities(m, i as nat).len(),
            pairs <= i * n,
        decreases n - i,
    {
        let ghost before = similarities(m, i as nat);
        let ghost row = later_similarities(m, i as int);
        let mut j: usize = i + 1;
        proof {
            assert(before + row.take(0) =~= before);
            assert(i * n + n <= n * n) by (nonlinear_arith)
                requires i < n;
            assert(n * n <= usize::MAX * usize::MAX) by (nonlinear_arith)
                requires n <= usize::MAX;
            assert(usize::MAX * usize::MAX < u128::MAX) by (nonlinear_arith)
                requires usize::MAX < 0x1_0000_0000_0000_0000;
        }
        while j < n
            invariant
                i < j <= n == firms@.len(),
                m == menus(firms@),
                row == later_similarities(m, i as int),
                before == similarities(m, i as nat),
                total == real_sum(before + row.take(j - i - 1)),
                pairs == before.len() + (j - i - 1),
                before.len() <= i * n,
                i * n + n < u128::MAX,
            decreases n - j,
        {
            proof {
                assert((before + row.take(j - i)).drop_last() =~= before + row.take(j - i - 1));
                assert((before + row.take(j - i)).last() == jaccard(m[i as int], m[j as int]));
            }
            total = total.plus(jaccard_menu(firms[i], firms[j]));
            pairs = pairs + 1;
            j = j + 1;
        }
        proof {
            assert(row.take(n - i - 1) =~= row);
            assert((i + 1) * n == i * n + n) by (nonlinear_arith);
        }
        i = i + 1;
    }
    total.over(real_of_wide(pairs))
}

/// What is recorded of a restaurant on a day.
#[derive(Clone, Copy, Debug, PartialEq, Eq, Structural)]
pub struct DailyMetric {
    /// The day, counted from zero.
    pub day: u64,
    pub firm: u64,
    /// One if the restaurant is in business, else zero.
    pub firm_alive: u8,
    pub day_customers: u64,
    pub day_revenue: Real,
    pub cumulative_revenue: Real,
    pub avg_dish_score: Real,
    pub avg_price: Real,
    pub reputation: Real,
    /// The Gini coefficient of all restaurants' revenues so far.
    pub revenue_gini: Real,
    /// The largest share of the day's customers.
    pub market_share_max: Real,
    /// The mean similarity of the menus.
    pub menu_similarity: Real,
    pub n_alive_firms: u64,
}

/// What a Gini coefficient is divided by is a number other than zero.
proof fn lemma_gini_divisor(values: Seq<Real>)
    requires
        0 < values.len() <= u64::MAX,
        !real_sum(values).is_nan(),
        !real_sum(values).absolute().less(spec_ratio(1, 1_000_000_000_000)),
    ensures
        ({
            let d = spec_real(2).times(spec_real(values.len())).times(real_sum(values));
            !d.is_nan() && d.magnitude() > 0
        }),
{
    let total = real_sum(values);
    let n = values.len();
    lemma2_to64();
    lemma2_to64_rest();
    lemma_pow2_strictly_increases(64, 1000);
    lemma_reciprocal_not_zero(1_000_000_000_000);
    lemma_units_order(0, total.magnitude());
    lemma_real_ordered(2, 2);
    lemma_real_ordered(n, n);
    lemma_pow2_pos(1074);
    lemma_units_order(0, spec_real(n).magnitude());
    lemma_product_not_zero(spec_real(2), spec_real(n));
    lemma_product_not_zero(spec_real(2).times(spec_real(n)), total);
}

/// A Gini coefficient lies between zero and one, if the sums that it is made of do not
/// overflow.
pub proof fn gini_is_a_fraction(values: Seq<Real>)
    requires
        values.len() <= u64::MAX,
        !real_sum(values).is_nan(),
        real_sum(distances(values)).is_finite(),
    ensures
        !spec_gini(values).is_nan(),
        0 <= spec_gini(values).value() <= spec_real(1).value(),
{
    lemma_one();
    lemma_pow2_pos(1074);
    if values.len() > 0 && !real_sum(values).absolute().less(spec_ratio(1, 1_000_000_000_000)) {
        lemma_gini_divisor(values);
        let d = spec_real(2).times(spec_real(values.len())).times(real_sum(values));
        lemma_quotient_is_number(real_sum(distances(values)), d);
    }
}

/// The Gini coefficient of equal revenues is zero.
pub proof fn gini_of_equal_is_zero(values: Seq<Real>, x: Real)
    requires
        values.len() <= u64::MAX,
        x.is_finite(),
        forall|i: int| 0 <= i < values.len() ==> #[trigger] values[i] == x,
    ensures
        spec_gini(values).same(Real { bits: 0 }),
{
    lemma_one();
    lemma_pow2_pos(1074);
    let n = values.len();
    if n > 0 && !real_sum(values).absolute().less(spec_ratio(1, 1_000_000_000_000))
        && !some_negative(values) {
        let all = distances(values);
        assert forall|k: int| 0 <= k < all.len() implies #[trigger] all[k] == (Real { bits: 0 }) by {
            vstd::arithmetic::div_mod::lemma_fundamental_div_mod(k, n as int);
            assert(0 <= k / (n as int) < n && 0 <= k % (n as int) < n) by (nonlinear_arith)
                requires 0 <= k < n * n, n > 0;
            assert(values[k / (n as int)] == x && values[k % (n as int)] == x);
        }
        lemma_zero_sum(all);
        lemma_repeated_sum(values, x);
        lemma_gini_divisor(values);
        let d = spec_real(2).times(spec_real(n)).times(real_sum(values));
        lemma_zero_over(d);
    }
}

/// A sum of zeros is zero.
proof fn lemma_zero_sum(s: Seq<Real>)
    requires
        forall|i: int| 0 <= i < s.len() ==> #[trigger] s[i] == (Real { bits: 0 }),
    ensures
        real_sum(s) == (Real { bits: 0 }),
    decreases s.len(),
{
    if s.len() > 0 {
        assert(s[s.len() - 1] == s.last());
        assert forall|i: int| 0 <= i < s.drop_last().len() implies #[trigger] s.drop_last()[i] == (
        Real { bits: 0 }) by {
            assert(s.drop_last()[i] == s[i]);
        }
        lemma_zero_sum(s.drop_last());
    }
}

/// A sum of one number, over and over, is a number.
proof fn lemma_repeated_sum(s: Seq<Real>, x: Real)
    requires
        x.is_finite(),
        forall|i: int| 0 <= i < s.len() ==> #[trigger] s[i] == x,
    ensures
        !real_sum(s).is_nan(),
    decreases s.len(),
{
    if s.len() > 0 {
        let rest = s.drop_last();
        assert(s[s.len() - 1] == s.last());
        assert forall|i: int| 0 <= i < rest.len() implies #[trigger] rest[i] == x by {
            assert(rest[i] == s[i]);
        }
        lemma_repeated_sum(rest, x);
        let sum = real_sum(rest).value() + x.value();
        lemma_nearest_rounds(sum as nat, 1);
        lemma_nearest_rounds((-sum) as nat, 1);
    }
}

/// No count is larger than the sum.
proof fn lemma_max_within_sum(s: Seq<u64>)
    ensures
        count_max(s) <= count_sum(s),
    decreases s.len(),
{
    if s.len() > 0 {
        lemma_max_within_sum(s.drop_last());
    }
}

/// No count is larger than the largest.
proof fn lemma_max_is_largest(s: Seq<u64>, i: int)
    requires
        0 <= i < s.len(),
    ensures
        s[i] <= count_max(s),
    decreases s.len(),
{
    if i < s.len() - 1 {
        lemma_max_is_largest(s.drop_last(), i);
    }
}

/// The largest share lies between zero and one.
pub proof fn share_is_a_fraction(counts: Seq<u64>)
    requires
        count_sum(counts) <= u64::MAX,
    ensures
        !spec_share(counts).is_nan(),
        0 <= spec_share(counts).value() <= spec_real(1).value(),
{
    lemma_one();
    lemma_pow2_pos(1074);
    lemma_max_within_sum(counts);
    if count_sum(counts) > 0 {
        lemma2_to64();
        lemma_pow2_strictly_increases(64, 1000);
        lemma_real_ordered(count_max(counts) as nat, count_sum(counts));
        lemma_real_ordered(count_sum(counts), count_sum(counts));
        lemma_fraction(spec_real(count_max(counts) as nat), spec_real(count_sum(counts)));
    }
}

/// The largest share is one where one restaurant has all the customers of the day.
pub proof fn share_of_monopoly_is_one(counts: Seq<u64>, i: int)
    requires
        0 <= i < counts.len(),
        counts[i] == count_sum(counts),
        counts[i] > 0,
    ensures
        spec_share(counts) == spec_real(1),
{
    lemma_max_within_sum(counts);
    lemma_max_is_largest(counts, i);
    lemma2_to64();
    lemma_pow2_strictly_increases(64, 1000);
    lemma_pow2_pos(1074);
    lemma_real_ordered(count_sum(counts), count_sum(counts));
    lemma_fraction(spec_real(count_sum(counts)), spec_real(count_sum(counts)));
}

/// Similarity does not depend on which menu comes first.
pub proof fn similarity_is_symmetric(a: Seq<DishView>, b: Seq<DishView>)
    ensures
        jaccard(a, b) == jaccard(b, a),
{
    assert(names(a).union(names(b)) =~= names(b).union(names(a)));
    assert(names(a).intersect(names(b)) =~= names(b).intersect(names(a)));
}

/// The similarity of two menus lies between zero and one. It is one where they have the
/// same names, and at least one.
pub proof fn similarity_is_a_fraction(a: Seq<DishView>, b: Seq<DishView>)
    requires
        a.len() + b.len() <= u128::MAX,
    ensures
        !jaccard(a, b).is_nan(),
        !jaccard(a, b).negative(),
        0 <= jaccard(a, b).value() <= spec_real(1).value(),
        names(a) == names(b) && a.len() > 0 ==> jaccard(a, b) == spec_real(1),
{
    let sa = names(a);
    let sb = names(b);
    lemma_one();
    lemma_pow2_pos(1074);
    a.map_values(|d: DishView| d.name).lemma_cardinality_of_set();
    b.map_values(|d: DishView| d.name).lemma_cardinality_of_set();
    vstd::set_lib::lemma_set_intersect_union_lens(sa, sb);
    vstd::set_lib::lemma_len_intersect(sa, sb);
    let inter = sa.intersect(sb).len();
    let union = sa.union(sb).len();
    assert(inter <= union) by {
        vstd::set_lib::lemma_len_subset(sa.intersect(sb), sa.union(sb));
    }
    if names(a) == names(b) && a.len() > 0 {
        assert(sa.intersect(sb) =~= sa);
        assert(sa.union(sb) =~= sa);
        let all = a.map_values(|d: DishView| d.name);
        assert(all.contains(all[0]));
        assert(sa.contains(all[0]));
        assert(sa.len() > 0);
    }
    if union > 0 {
        assert(union <= pow2(1000)) by {
            lemma2_to64_rest();
            lemma2_to64();
            lemma_pow2_adds(64, 64);
            lemma_pow2_strictly_increases(128, 1000);
        }
        lemma_real_ordered(inter, union);
        lemma_real_ordered(union, union);
        lemma_fraction(spec_real(inter), spec_real(union));
    }
}

/// The mean similarity lies between zero and one.
pub proof fn menu_similarity_is_a_fraction(menus: Seq<Seq<DishView>>)
    requires
        forall|i: int, j: int|
            0 <= i < j < menus.len() ==> #[trigger] menus[i].len() + #[trigger] menus[j].len()
                <= u128::MAX,
        similarities(menus, menus.len()).len() <= 0x20_0000_0000_0000,
    ensures
        !spec_menu_similarity(menus).is_nan(),
        0 <= spec_menu_similarity(menus).value() <= spec_real(1).value(),
{
    let n = menus.len();
    lemma_one();
    lemma_pow2_pos(1074);
    if n >= 2 {
        let all = similarities(menus, n);
        lemma_similarities(menus, n);
        lemma_fractions_sum(all);
        lemma_exact_integer(all.len());
        assert(all.len() * pow2(1074) > 0) by (nonlinear_arith)
            requires all.len() > 0, pow2(1074) > 0;
        lemma_fraction(real_sum(all), spec_real(all.len()));
    }
}

/// All similarities are fractions, and there are some.
pub proof fn lemma_similarities(menus: Seq<Seq<DishView>>, n: nat)
    requires
        n <= menus.len(),
        forall|i: int, j: int|
            0 <= i < j < menus.len() ==> #[trigger] menus[i].len() + #[trigger] menus[j].len()
                <= u128::MAX,
    ensures
        forall|k: int|
            0 <= k < similarities(menus, n).len() ==> {
                let x = #[trigger] similarities(menus, n)[k];
                !x.is_nan() && !x.negative() && x.value() <= spec_real(1).value()
            },
        n >= 1 && menus.len() >= 2 ==> similarities(menus, n).len() > 0,
    decreases n,
{
    if n > 0 {
        lemma_similarities(menus, (n - 1) as nat);
        let before = similarities(menus, (n - 1) as nat);
        let row = later_similarities(menus, n - 1);
        assert forall|k: int| 0 <= k < (before + row).len() implies {
            let x = #[trigger] (before + row)[k];
            !x.is_nan() && !x.negative() && x.value() <= spec_real(1).value()
        } by {
            if k >= before.len() {
                let d = k - before.len();
                similarity_is_a_fraction(menus[n - 1], menus[n + d]);
            } else {
                assert((before + row)[k] == before[k]);
            }
        }
    }
}

} // verus!
