//! What the measures of the market and of a run mean, in exact arithmetic.
use crate::accuracy::{amounts, int_sum, is_amount, lemma_int_sum_positive, PARTS};
use crate::binary64::{spec_ratio, spec_real, Real};
use crate::bounds::{
    lemma_exact_integer, lemma_fractions_sum, lemma_one, lemma_over_one_or_more, lemma_real_ordered,
};
use crate::choice::{lemma_with_number, rising};
use crate::estimates::{
    lemma_cancelled, lemma_many_units, lemma_over_off, lemma_size_product, lemma_size_sum,
    means_are_accurate, size,
};
use crate::metrics::{
    count_max, count_sum, jaccard, later_similarities, lemma_similarities, names, similarities,
    similarity_is_symmetric, spec_gini, spec_menu_similarity, spec_share, wins_all, DailyMetric,
};
use crate::simulation::{
    counts_on, days_of, earliest, improved, latest, score_on, share_series, some_improved,
};
use crate::world::{real_mean, real_sum, DishView};
use vstd::arithmetic::power2::*;
use vstd::prelude::*;

verus! {

/// One restaurant takes all exactly if there is a day in the window and the largest share is
/// above the threshold on each of its days. One day in the window on which it is not is enough
/// for nobody to take all, whatever the other days were.
pub proof fn every_day_of_the_window_counts(
    shares: Seq<Real>,
    start_day: int,
    threshold: Real,
    d: int,
)
    requires
        0 <= start_day <= d < shares.len(),
    ensures
        !threshold.less(shares[d]) ==> !wins_all(shares, start_day, threshold),
        (forall|k: int| start_day <= k < shares.len() ==> threshold.less(#[trigger] shares[k]))
            ==> wins_all(shares, start_day, threshold),
        forall|x: Real|
            #[trigger] wins_all(shares.push(x), start_day, threshold) <==> wins_all(
                shares,
                start_day,
                threshold,
            ) && threshold.less(x),
        !wins_all(shares, shares.len() as int, threshold),
{
    if !threshold.less(shares[d]) && wins_all(shares, start_day, threshold) {
        assert(threshold.less(shares[d]));
    }
    assert forall|x: Real|
        #[trigger] wins_all(shares.push(x), start_day, threshold) <==> wins_all(
            shares,
            start_day,
            threshold,
        ) && threshold.less(x) by {
        let more = shares.push(x);
        if wins_all(more, start_day, threshold) {
            assert(threshold.less(more[shares.len() as int]));
            assert forall|k: int| start_day <= k < shares.len() implies threshold.less(
                #[trigger] shares[k],
            ) by {
                assert(threshold.less(more[k]));
            }
        }
    }
}

/// The days before the window do not matter.
pub proof fn days_before_the_window_do_not_count(
    shares: Seq<Real>,
    others: Seq<Real>,
    start_day: int,
    threshold: Real,
)
    requires
        0 <= start_day,
        shares.len() == others.len(),
        forall|k: int| start_day <= k < shares.len() ==> #[trigger] shares[k] == others[k],
    ensures
        wins_all(shares, start_day, threshold) == wins_all(others, start_day, threshold),
{
    if wins_all(shares, start_day, threshold) {
        assert forall|k: int| start_day <= k < others.len() implies threshold.less(
            #[trigger] others[k],
        ) by {
            assert(threshold.less(shares[k]));
        }
    }
    if wins_all(others, start_day, threshold) {
        assert forall|k: int| start_day <= k < shares.len() implies threshold.less(
            #[trigger] shares[k],
        ) by {
            assert(threshold.less(others[k]));
        }
    }
}

/// The sum of counts is their sum.
proof fn lemma_count_sum(counts: Seq<u64>)
    ensures
        count_sum(counts) == int_sum(counts.map_values(|c: u64| c as int)),
    decreases counts.len(),
{
    let f = |c: u64| c as int;
    if counts.len() > 0 {
        lemma_count_sum(counts.drop_last());
        assert(counts.map_values(f).drop_last() =~= counts.drop_last().map_values(f));
    }
}

/// The largest count is one of the counts, and none is larger.
proof fn lemma_count_max(counts: Seq<u64>)
    requires
        counts.len() > 0,
    ensures
        exists|m: int| 0 <= m < counts.len() && #[trigger] counts[m] == count_max(counts),
        forall|i: int| 0 <= i < counts.len() ==> #[trigger] counts[i] <= count_max(counts),
    decreases counts.len(),
{
    let rest = counts.drop_last();
    let n = counts.len() - 1;
    assert(counts[n] == counts.last());
    if rest.len() > 0 {
        lemma_count_max(rest);
        let m = choose|m: int| 0 <= m < rest.len() && #[trigger] rest[m] == count_max(rest);
        assert(counts[m] == rest[m]);
        assert forall|i: int| 0 <= i < counts.len() implies #[trigger] counts[i] <= count_max(
            counts,
        ) by {
            if i < n {
                assert(rest[i] == counts[i]);
            }
        }
    } else {
        assert(count_max(rest) == 0);
        assert(counts[n] == count_max(counts));
    }
}

/// The largest share of the customers is that of a restaurant that no other one had more
/// customers than: its customers by those of all, up to a rounding. Without customers it is
/// zero.
pub proof fn the_largest_share_is_of_the_most_visited(counts: Seq<u64>) -> (m: int)
    requires
        counts.len() > 0,
        int_sum(counts.map_values(|c: u64| c as int)) <= 0x20_0000_0000_0000,
    ensures
        0 <= m < counts.len(),
        forall|i: int| 0 <= i < counts.len() ==> #[trigger] counts[i] <= counts[m],
        ({
            let all = int_sum(counts.map_values(|c: u64| c as int));
            let share = spec_share(counts);
            &&& share.is_finite()
            &&& all == 0 ==> share.value() == 0
            &&& all > 0 ==> size(share.value() * all - counts[m] * pow2(1074)) * PARTS <= counts[m]
                * pow2(1074) + all * PARTS
        }),
{
    let u = pow2(1074) as int;
    let w = PARTS as int;
    lemma_count_sum(counts);
    lemma_count_max(counts);
    let m = choose|m: int| 0 <= m < counts.len() && #[trigger] counts[m] == count_max(counts);
    let all = count_sum(counts);
    lemma_many_units();
    if all > 0 {
        let c = counts[m] as nat;
        assert(c <= all) by {
            lemma_part_of_sum(counts, m);
        }
        lemma_exact_integer(c);
        lemma_exact_integer(all);
        let x = spec_real(c);
        let y = spec_real(all);
        let au = all * u;
        let cu = c * u;
        assert(cu <= au && au >= u && cu >= 0) by (nonlinear_arith)
            requires cu == c * u, au == all * u, 0 <= c <= all, all >= 1, u > 0;
        lemma_over_one_or_more(x, y);
        lemma_over_off(x, y);
        let s = spec_share(counts).value();
        let d = s * all - cu;
        assert(s * au - cu * u == d * u) by (nonlinear_arith)
            requires au == all * u, d == s * all - cu;
        lemma_size_product(d, u);
        lemma_size_product(cu, 1);
        reveal(size);
        assert((size(d) * w) * u == (size(d) * u) * w) by (nonlinear_arith);
        assert(cu * u + au * w == (cu + all * w) * u) by (nonlinear_arith)
            requires au == all * u;
        lemma_cancelled(size(d) * w, cu + all * w, u);
    }
    m
}

/// No count is more than all.
proof fn lemma_part_of_sum(counts: Seq<u64>, m: int)
    requires
        0 <= m < counts.len(),
    ensures
        counts[m] <= count_sum(counts),
    decreases counts.len(),
{
    if m < counts.len() - 1 {
        lemma_part_of_sum(counts.drop_last(), m);
    }
}

/// A sum over a list.
pub open spec fn total<T>(s: Seq<T>, f: spec_fn(T) -> int) -> int
    decreases s.len(),
{
    if s.len() == 0 {
        0
    } else {
        total(s.drop_last(), f) + f(s.last())
    }
}

/// How similar a menu is to another one, in units.
pub open spec fn similar_to(a: Seq<DishView>) -> spec_fn(Seq<DishView>) -> int {
    |b: Seq<DishView>| jaccard(a, b).value()
}

/// How similar a menu is to all menus of a list together.
pub open spec fn similar_to_all(menus: Seq<Seq<DishView>>) -> spec_fn(Seq<DishView>) -> int {
    |a: Seq<DishView>| total(menus, similar_to(a))
}

/// The similarities of all menus to all others, each pair both ways round.
pub open spec fn pair_total(menus: Seq<Seq<DishView>>) -> int {
    total(menus, similar_to_all(menus)) - total(
        menus,
        |a: Seq<DishView>| jaccard(a, a).value(),
    )
}

/// A sum of sums.
proof fn lemma_total_added<T>(
    s: Seq<T>,
    f: spec_fn(T) -> int,
    g: spec_fn(T) -> int,
    h: spec_fn(T) -> int,
)
    requires
        forall|x: T| #[trigger] h(x) == f(x) + g(x),
    ensures
        total(s, h) == total(s, f) + total(s, g),
    decreases s.len(),
{
    if s.len() > 0 {
        lemma_total_added(s.drop_last(), f, g, h);
        assert(h(s.last()) == f(s.last()) + g(s.last()));
    }
}

/// Sums of what is the same are the same.
proof fn lemma_total_same<T>(s: Seq<T>, f: spec_fn(T) -> int, g: spec_fn(T) -> int)
    requires
        forall|x: T| #[trigger] f(x) == g(x),
    ensures
        total(s, f) == total(s, g),
    decreases s.len(),
{
    if s.len() > 0 {
        lemma_total_same(s.drop_last(), f, g);
        assert(f(s.last()) == g(s.last()));
    }
}

/// One more menu adds its similarity to each of the others, both ways round.
proof fn lemma_pair_total_grows(menus: Seq<Seq<DishView>>)
    requires
        menus.len() > 0,
    ensures
        pair_total(menus) == pair_total(menus.drop_last()) + 2 * total(
            menus.drop_last(),
            similar_to(menus.last()),
        ),
{
    let rest = menus.drop_last();
    let x = menus.last();
    let f = similar_to_all(rest);
    let g = similar_to(x);
    let h = similar_to_all(menus);
    assert forall|a: Seq<DishView>| #[trigger] h(a) == f(a) + g(a) by {
        similarity_is_symmetric(a, x);
        assert(total(menus, similar_to(a)) == total(rest, similar_to(a)) + similar_to(a)(x));
    }
    lemma_total_added(rest, f, g, h);
    assert(total(menus, h) == total(rest, h) + h(x));
    assert(h(x) == total(rest, g) + g(x));
}

/// Sums of lists put together.
proof fn lemma_int_sum_joined(a: Seq<int>, b: Seq<int>)
    ensures
        int_sum(a + b) == int_sum(a) + int_sum(b),
    decreases b.len(),
{
    if b.len() == 0 {
        assert(a + b =~= a);
    } else {
        lemma_int_sum_joined(a, b.drop_last());
        assert((a + b).drop_last() =~= a + b.drop_last());
        assert((a + b).last() == b.last());
    }
}

/// The similarities of the first menus to those behind them, when one more menu comes last.
proof fn lemma_last_menu(menus: Seq<Seq<DishView>>, k: nat)
    requires
        k < menus.len(),
    ensures
        int_sum(amounts(similarities(menus, k))) == int_sum(
            amounts(similarities(menus.drop_last(), k)),
        ) + total(menus.take(k as int), similar_to(menus.last())),
        similarities(menus, k).len() == similarities(menus.drop_last(), k).len() + k,
    decreases k,
{
    if k > 0 {
        let j = (k - 1) as nat;
        let rest = menus.drop_last();
        let x = menus.last();
        lemma_last_menu(menus, j);
        let a = similarities(menus, j);
        let b = similarities(rest, j);
        let row = later_similarities(menus, j as int);
        let old_row = later_similarities(rest, j as int);
        assert(row =~= old_row.push(jaccard(menus[j as int], x)));
        assert(amounts(a + row) =~= amounts(a) + amounts(row));
        assert(amounts(b + old_row) =~= amounts(b) + amounts(old_row));
        lemma_int_sum_joined(amounts(a), amounts(row));
        lemma_int_sum_joined(amounts(b), amounts(old_row));
        assert(amounts(row).drop_last() =~= amounts(old_row));
        assert(amounts(row).last() == jaccard(menus[j as int], x).value());
        similarity_is_symmetric(menus[j as int], x);
        assert(menus.take(k as int).drop_last() =~= menus.take(j as int));
        assert(menus.take(k as int).last() == menus[j as int]);
    } else {
        assert(amounts(similarities(menus, 0)) =~= amounts(similarities(menus.drop_last(), 0)));
    }
}

/// Every pair of menus is compared once: there are as many similarities as pairs, and twice
/// their sum is the sum over all menus and all others.
pub proof fn every_pair_of_menus_is_compared_once(menus: Seq<Seq<DishView>>)
    ensures
        2 * int_sum(amounts(similarities(menus, menus.len()))) == pair_total(menus),
        2 * similarities(menus, menus.len()).len() == menus.len() * (menus.len() - 1),
        forall|i: int, j: int|
            0 <= i < j < menus.len() ==> similarities(menus, menus.len()).contains(
                #[trigger] jaccard(menus[i], menus[j]),
            ),
    decreases menus.len(),
{
    let n = menus.len();
    if n > 0 {
        let rest = menus.drop_last();
        let k = (n - 1) as nat;
        every_pair_of_menus_is_compared_once(rest);
        lemma_pair_total_grows(menus);
        lemma_last_menu(menus, k);
        assert(menus.take(k as int) =~= rest);
        let all = similarities(menus, n);
        assert(later_similarities(menus, k as int) =~= seq![]);
        assert(all =~= similarities(menus, k));
        assert(n * (n - 1) == k * (k - 1) + 2 * k) by (nonlinear_arith)
            requires k == n - 1;
        assert forall|i: int, j: int| 0 <= i < j < n implies all.contains(
            #[trigger] jaccard(menus[i], menus[j]),
        ) by {
            lemma_pair_found(menus, n, i, j);
        }
    } else {
        assert(amounts(similarities(menus, 0)) =~= seq![]);
        assert(0 * (0 - 1) == 0);
    }
}

/// The similarity of two menus is among those of the first.
proof fn lemma_pair_found(menus: Seq<Seq<DishView>>, n: nat, i: int, j: int)
    requires
        0 <= i < n <= menus.len(),
        i < j < menus.len(),
    ensures
        similarities(menus, n).contains(jaccard(menus[i], menus[j])),
    decreases n,
{
    let before = similarities(menus, (n - 1) as nat);
    let row = later_similarities(menus, n - 1);
    let x = jaccard(menus[i], menus[j]);
    if i == n - 1 {
        assert(row[j - i - 1] == x);
        assert((before + row)[before.len() + (j - i - 1)] == x);
    } else {
        lemma_pair_found(menus, (n - 1) as nat, i, j);
        let k = choose|k: int| 0 <= k < before.len() && before[k] == x;
        assert((before + row)[k] == x);
    }
}

/// Menus of no more dishes than can be counted.
pub open spec fn all_readable(menus: Seq<Seq<DishView>>) -> bool {
    &&& menus.len() <= 1_000_000
    &&& forall|i: int| 0 <= i < menus.len() ==> (#[trigger] menus[i]).len() <= 1_000_000
}

/// The mean similarity of menus is the mean over all pairs of different menus: times the number
/// of pairs, each both ways round, it is the sum of their similarities, up to rounding.
pub proof fn similarity_is_the_mean_of_all_pairs(menus: Seq<Seq<DishView>>)
    requires
        menus.len() >= 2,
        all_readable(menus),
    ensures
        is_amount(spec_menu_similarity(menus)),
        0 <= pair_total(menus),
        ({
            let pairs = menus.len() * (menus.len() - 1);
            let exact = pair_total(menus);
            size(pairs * spec_menu_similarity(menus).value() - exact) * PARTS <= (pairs + 2) * exact
                + pairs * PARTS
        }),
{
    let n = menus.len();
    let all = similarities(menus, n);
    let pairs = n * (n - 1);
    every_pair_of_menus_is_compared_once(menus);
    lemma_readable_similarities(menus);
    assert(pairs <= 1_000_000_000_000 && pairs >= 2) by (nonlinear_arith)
        requires pairs == n * (n - 1), 2 <= n <= 1_000_000;
    means_are_accurate(all);
    assert(spec_menu_similarity(menus) == real_mean(all));
    reveal(size);
    let k = all.len() as int;
    let m = real_mean(all).value();
    let s = int_sum(amounts(all));
    let exact = pair_total(menus);
    let km = k * m;
    assert(pairs * m == 2 * km) by (nonlinear_arith)
        requires pairs == 2 * k, km == k * m;
    assert((pairs + 2) * exact == 2 * ((2 * all.len() + 2) * s)) by (nonlinear_arith)
        requires pairs == 2 * k, exact == 2 * s, k == all.len();
    assert(pairs * PARTS == 2 * (all.len() * PARTS)) by (nonlinear_arith)
        requires pairs == 2 * k, k == all.len();
    assert(size(km - s) * PARTS == 0x20_0000_0000_0000 * size(km - s));
    assert(size(2 * km - 2 * s) * PARTS == 0x20_0000_0000_0000 * size(2 * km - 2 * s));
}

/// Similarities are amounts, and so is their sum.
proof fn lemma_readable_similarities(menus: Seq<Seq<DishView>>)
    requires
        menus.len() >= 2,
        all_readable(menus),
    ensures
        ({
            let all = similarities(menus, menus.len());
            &&& 1 <= all.len() <= 0x4_0000_0000_0000
            &&& forall|i: int| 0 <= i < all.len() ==> is_amount(#[trigger] all[i])
            &&& real_sum(all).is_finite()
        }),
{
    let n = menus.len();
    let all = similarities(menus, n);
    every_pair_of_menus_is_compared_once(menus);
    assert(n * (n - 1) <= 1_000_000_000_000) by (nonlinear_arith)
        requires 2 <= n <= 1_000_000;
    assert forall|i: int, j: int| 0 <= i < j < n implies #[trigger] menus[i].len()
        + #[trigger] menus[j].len() <= u128::MAX by {
    }
    lemma_similarities(menus, n);
    lemma_one();
    lemma_fractions_sum(all);
    assert forall|i: int| 0 <= i < all.len() implies is_amount(#[trigger] all[i]) by {
        assert(all[i].value() <= spec_real(1).value());
        crate::rounding::lemma_units_order(all[i].magnitude(), 0x3FF0_0000_0000_0000);
    }
}

/// The order of a list makes no difference to a sum over it.
proof fn lemma_total_permuted<T>(a: Seq<T>, b: Seq<T>, f: spec_fn(T) -> int)
    requires
        a.to_multiset() == b.to_multiset(),
    ensures
        total(a, f) == total(b, f),
    decreases a.len(),
{
    broadcast use vstd::seq_lib::group_to_multiset_ensures;

    assert(a.len() == a.to_multiset().len() && b.len() == b.to_multiset().len());
    if a.len() > 0 {
        let n = a.len() - 1;
        let x = a[n];
        assert(a.contains(x));
        assert(a.to_multiset().count(x) > 0);
        assert(b.to_multiset().count(x) > 0);
        assert(b.contains(x));
        let j = choose|j: int| 0 <= j < b.len() && b[j] == x;
        assert(a.drop_last() =~= a.remove(n));
        assert(a.drop_last().to_multiset() =~= b.remove(j).to_multiset());
        lemma_total_permuted(a.drop_last(), b.remove(j), f);
        lemma_total_removed(b, j, f);
    }
}

/// A sum without one of its parts.
proof fn lemma_total_removed<T>(s: Seq<T>, j: int, f: spec_fn(T) -> int)
    requires
        0 <= j < s.len(),
    ensures
        total(s, f) == total(s.remove(j), f) + f(s[j]),
    decreases s.len(),
{
    let rest = s.drop_last();
    if j == s.len() - 1 {
        assert(s.remove(j) =~= rest);
    } else {
        lemma_total_removed(rest, j, f);
        assert(s.remove(j).drop_last() =~= rest.remove(j));
        assert(s.remove(j).last() == s.last());
    }
}

/// The mean similarity of menus does not depend on the order of the restaurants, up to rounding.
pub proof fn similarity_ignores_order(menus: Seq<Seq<DishView>>, others: Seq<Seq<DishView>>)
    requires
        menus.len() >= 2,
        all_readable(menus),
        all_readable(others),
        menus.to_multiset() == others.to_multiset(),
    ensures
        pair_total(menus) == pair_total(others),
        ({
            let pairs = menus.len() * (menus.len() - 1);
            let off = spec_menu_similarity(menus).value() - spec_menu_similarity(others).value();
            pairs * size(off) * PARTS <= 2 * ((pairs + 2) * pair_total(menus) + pairs * PARTS)
        }),
{
    menus.to_multiset_ensures();
    others.to_multiset_ensures();
    let f = similar_to_all(menus);
    let g = similar_to_all(others);
    assert forall|a: Seq<DishView>| #[trigger] f(a) == g(a) by {
        lemma_total_permuted(menus, others, similar_to(a));
    }
    lemma_total_same(others, f, g);
    lemma_total_permuted(menus, others, f);
    lemma_total_permuted(menus, others, |a: Seq<DishView>| jaccard(a, a).value());
    similarity_is_the_mean_of_all_pairs(menus);
    similarity_is_the_mean_of_all_pairs(others);
    let n = menus.len();
    let pairs = n * (n - 1);
    assert(pairs >= 0) by (nonlinear_arith)
        requires pairs == n * (n - 1), n >= 2;
    let x = spec_menu_similarity(menus).value();
    let y = spec_menu_similarity(others).value();
    let exact = pair_total(menus);
    assert(pairs * x - pairs * y == pairs * (x - y)) by (nonlinear_arith);
    lemma_size_product(pairs, x - y);
    lemma_size_sum(pairs * x - exact, pairs * y - exact);
    let w = PARTS as int;
    let a = size(pairs * x - exact);
    let b = size(pairs * y - exact);
    assert((a + b) * w == a * w + b * w) by (nonlinear_arith);
    assert((pairs * size(x - y)) * w <= (a + b) * w) by (nonlinear_arith)
        requires pairs * size(x - y) <= a + b, w >= 0;
}

/// The names that stand on a menu.
pub open spec fn named_on(menu: Seq<DishView>) -> Set<Seq<char>> {
    Set::new(|x: Seq<char>| exists|k: int| 0 <= k < menu.len() && (#[trigger] menu[k]).name == x)
}

/// The names on a menu are finitely many, and no more than its dishes.
proof fn lemma_names(menu: Seq<DishView>)
    ensures
        names(menu) == named_on(menu),
        names(menu).finite(),
        names(menu).len() <= menu.len(),
{
    let all = menu.map_values(|d: DishView| d.name);
    all.lemma_cardinality_of_set();
    assert forall|x: Seq<char>| names(menu).contains(x) <==> named_on(menu).contains(x) by {
        if all.contains(x) {
            let k = choose|k: int| 0 <= k < all.len() && all[k] == x;
            assert(menu[k].name == x);
        }
        if named_on(menu).contains(x) {
            let k = choose|k: int| 0 <= k < menu.len() && (#[trigger] menu[k]).name == x;
            assert(all[k] == x);
        }
    }
    assert(names(menu) =~= named_on(menu));
}

/// The similarity of two menus is the number of names on both by the number of names on either,
/// up to a rounding: times the latter it is the former. It is zero exactly if no name stands on
/// both.
pub proof fn similarity_is_of_shared_names(a: Seq<DishView>, b: Seq<DishView>)
    requires
        a.len() <= 1_000_000,
        b.len() <= 1_000_000,
    ensures
        ({
            let both = named_on(a).intersect(named_on(b)).len();
            let either = named_on(a).union(named_on(b)).len();
            let s = jaccard(a, b);
            &&& is_amount(s)
            &&& size(s.value() * either - both * pow2(1074)) * PARTS <= both * pow2(1074) + either
                * PARTS
            &&& s.value() == 0 <==> both == 0
        }),
{
    reveal(size);
    let u = pow2(1074) as int;
    let w = PARTS as int;
    lemma_names(a);
    lemma_names(b);
    lemma_many_units();
    let sa = named_on(a);
    let sb = named_on(b);
    let both = sa.intersect(sb).len();
    let either = sa.union(sb).len();
    vstd::set_lib::lemma_set_intersect_union_lens(sa, sb);
    vstd::set_lib::lemma_len_intersect(sa, sb);
    vstd::set_lib::lemma_len_subset(sa.intersect(sb), sa.union(sb));
    if either > 0 {
        lemma_exact_integer(both);
        lemma_exact_integer(either);
        let x = spec_real(both);
        let y = spec_real(either);
        let eu = either * u;
        let bu = both * u;
        assert(eu >= u && bu >= 0) by (nonlinear_arith)
            requires eu == either * u, bu == both * u, either >= 1, both >= 0, u > 0;
        lemma_over_one_or_more(x, y);
        lemma_over_off(x, y);
        let s = jaccard(a, b).value();
        let d = s * either - bu;
        assert(s * eu - bu * u == d * u) by (nonlinear_arith)
            requires eu == either * u, d == s * either - bu;
        lemma_size_product(d, u);
        assert((size(d) * w) * u == (size(d) * u) * w) by (nonlinear_arith);
        assert(bu * u + eu * w == (bu + either * w) * u) by (nonlinear_arith)
            requires eu == either * u;
        lemma_cancelled(size(d) * w, bu + either * w, u);
        assert(size(d) * w == 0x20_0000_0000_0000 * size(d));
        assert(either * w == 0x20_0000_0000_0000 * either);
        if both == 0 {
            crate::bounds::lemma_zero_over(y);
            assert(bu == 0) by (nonlinear_arith)
                requires bu == both * u, both == 0;
            lemma_real_zero();
        } else {
            assert(bu >= u) by (nonlinear_arith)
                requires bu == both * u, both >= 1, u > 0;
            if s == 0 {
                assert(s * either == 0) by (nonlinear_arith)
                    requires s == 0;
            }
        }
    } else {
        assert(0 * u == 0);
        assert(0 * w == 0);
    }
}

/// The number zero.
proof fn lemma_real_zero()
    ensures
        spec_real(0) == (Real { bits: 0 }),
{
    lemma_pow2_pos(1000);
    lemma_real_ordered(0, 0);
}

/// The mean similarity of menus is zero only if no two of them share a name.
pub proof fn dissimilar_menus_share_nothing(menus: Seq<Seq<DishView>>, i: int, j: int)
    requires
        all_readable(menus),
        0 <= i < j < menus.len(),
        spec_menu_similarity(menus).value() == 0,
    ensures
        named_on(menus[i]).intersect(named_on(menus[j])).len() == 0,
{
    reveal(size);
    let n = menus.len();
    let all = similarities(menus, n);
    let pairs = n * (n - 1);
    similarity_is_the_mean_of_all_pairs(menus);
    every_pair_of_menus_is_compared_once(menus);
    lemma_readable_similarities(menus);
    similarity_is_of_shared_names(menus[i], menus[j]);
    let x = jaccard(menus[i], menus[j]);
    assert(all.contains(x));
    let k = choose|k: int| 0 <= k < all.len() && all[k] == x;
    assert(amounts(all)[k] == x.value());
    assert forall|h: int| 0 <= h < amounts(all).len() implies 0 <= #[trigger] amounts(all)[h] by {
        assert(is_amount(all[h]));
    }
    lemma_int_sum_positive(amounts(all));
    let exact = pair_total(menus);
    let w = PARTS as int;
    assert(2 <= pairs <= 1_000_000_000_000) by (nonlinear_arith)
        requires pairs == n * (n - 1), 2 <= n <= 1_000_000;
    assert(pairs * 0 == 0);
    assert((pairs + 2) * exact <= 1_000_000_000_002 * exact) by (nonlinear_arith)
        requires pairs <= 1_000_000_000_000, exact >= 0;
    assert(exact * w == 0x20_0000_0000_0000 * exact);
    assert(pairs * w == 0x20_0000_0000_0000 * pairs);
    assert(x.value() <= exact);
    assert(exact <= 2 * pairs);
    let both = named_on(menus[i]).intersect(named_on(menus[j])).len();
    let either = named_on(menus[i]).union(named_on(menus[j])).len();
    if both > 0 {
        let u = pow2(1074) as int;
        lemma_many_units();
        lemma_names(menus[i]);
        lemma_names(menus[j]);
        vstd::set_lib::lemma_set_intersect_union_lens(named_on(menus[i]), named_on(menus[j]));
        assert(either <= 2_000_000);
        let v = x.value();
        assert(both * u >= u) by (nonlinear_arith)
            requires both >= 1, u > 0;
        let ve = v * either;
        assert(ve <= 2_000_000_000_000 * 2_000_000) by (nonlinear_arith)
            requires ve == v * either, 0 <= v <= 2_000_000_000_000, 0 <= either <= 2_000_000;
        let d = ve - both * u;
        assert(size(d) * w == 0x20_0000_0000_0000 * size(d));
        assert(either * w == 0x20_0000_0000_0000 * either);
        lemma2_to64();
        lemma2_to64_rest();
        lemma_pow2_adds(64, 64);
        lemma_pow2_strictly_increases(128, 1074);
    }
}

/// Where a value is negative, the Gini coefficient is zero; and it is where there is next to
/// nothing to share out.
pub proof fn debts_and_nothing_have_no_inequality(values: Seq<Real>)
    ensures
        (exists|i: int| 0 <= i < values.len() && (#[trigger] values[i]).less(Real { bits: 0 }))
            ==> spec_gini(values) == (Real { bits: 0 }),
        real_sum(values).absolute().less(spec_ratio(1, 1_000_000_000_000)) ==> spec_gini(values)
            == (Real { bits: 0 }),
        values.len() == 0 ==> spec_gini(values) == (Real { bits: 0 }),
{
}

/// The first and the last day are days of which something is recorded, and no such day lies
/// before the one or behind the other.
pub proof fn first_and_last_days_enclose_all(rows: Seq<DailyMetric>)
    requires
        rows.len() > 0,
    ensures
        exists|i: int| 0 <= i < rows.len() && (#[trigger] rows[i]).day == earliest(rows),
        exists|i: int| 0 <= i < rows.len() && (#[trigger] rows[i]).day == latest(rows),
        forall|i: int|
            0 <= i < rows.len() ==> earliest(rows) <= (#[trigger] rows[i]).day <= latest(rows),
    decreases rows.len(),
{
    let n = rows.len() - 1;
    let rest = rows.drop_last();
    assert(rows[n].day == rows.last().day);
    if rest.len() > 0 {
        first_and_last_days_enclose_all(rest);
        let a = choose|i: int| 0 <= i < rest.len() && (#[trigger] rest[i]).day == earliest(rest);
        let b = choose|i: int| 0 <= i < rest.len() && (#[trigger] rest[i]).day == latest(rest);
        assert(rows[a] == rest[a] && rows[b] == rest[b]);
        assert forall|i: int| 0 <= i < rows.len() implies earliest(rows) <= (#[trigger] rows[i]).day
            <= latest(rows) by {
            if i < n {
                assert(rest[i] == rows[i]);
            }
        }
    }
}

/// The score of a restaurant on a day is that of its last row of the day.
pub proof fn scores_are_those_recorded_last(rows: Seq<DailyMetric>, day: u64, firm: u64)
    ensures
        match score_on(rows, day, firm) {
            Some(x) => exists|i: int|
                {
                    &&& 0 <= i < rows.len() && (#[trigger] rows[i]).day == day && rows[i].firm
                        == firm && rows[i].avg_dish_score == x
                    &&& forall|k: int|
                        i < k < rows.len() ==> (#[trigger] rows[k]).day != day || rows[k].firm
                            != firm
                },
            None => forall|k: int|
                0 <= k < rows.len() ==> (#[trigger] rows[k]).day != day || rows[k].firm != firm,
        },
    decreases rows.len(),
{
    if rows.len() > 0 {
        let n = rows.len() - 1;
        let rest = rows.drop_last();
        assert(rows[n] == rows.last());
        scores_are_those_recorded_last(rest, day, firm);
        if rows.last().day != day || rows.last().firm != firm {
            match score_on(rest, day, firm) {
                Some(x) => {
                    let i = choose|i: int|
                        {
                            &&& 0 <= i < rest.len() && (#[trigger] rest[i]).day == day && rest[i].firm
                                == firm && rest[i].avg_dish_score == x
                            &&& forall|k: int|
                                i < k < rest.len() ==> (#[trigger] rest[k]).day != day
                                    || rest[k].firm != firm
                        };
                    assert(rows[i] == rest[i]);
                    assert forall|k: int| i < k < rows.len() implies (#[trigger] rows[k]).day != day
                        || rows[k].firm != firm by {
                        if k < n {
                            assert(rest[k] == rows[k]);
                        }
                    }
                },
                None => {
                    assert forall|k: int| 0 <= k < rows.len() implies (#[trigger] rows[k]).day != day
                        || rows[k].firm != firm by {
                        if k < n {
                            assert(rest[k] == rows[k]);
                        }
                    }
                },
            }
        }
    }
}

/// No restaurant has two rows of one day.
pub open spec fn one_row_a_day(rows: Seq<DailyMetric>) -> bool {
    forall|i: int, j: int|
        0 <= i < j < rows.len() ==> (#[trigger] rows[i]).day != (#[trigger] rows[j]).day
            || rows[i].firm != rows[j].firm
}

/// A row of the first day and one of a last day behind it tell of one restaurant, and the score
/// of the latter is above that of the former by more than `10^-9`.
pub open spec fn better_in_the_end(rows: Seq<DailyMetric>, i: int, j: int) -> bool {
    &&& 0 <= i < rows.len() && 0 <= j < rows.len()
    &&& rows[i].firm == rows[j].firm
    &&& rows[i].day < rows[j].day
    &&& forall|k: int|
        0 <= k < rows.len() ==> rows[i].day <= (#[trigger] rows[k]).day <= rows[j].day
    &&& rows[i].avg_dish_score.plus(spec_ratio(1, 1_000_000_000)).less(rows[j].avg_dish_score)
}

/// Quality improves over a run if some restaurant is better in the end than on the first day.
pub proof fn a_better_end_is_an_improvement(rows: Seq<DailyMetric>, i: int, j: int)
    requires
        one_row_a_day(rows),
        better_in_the_end(rows, i, j),
    ensures
        some_improved(rows),
{
    let a = earliest(rows);
    let b = latest(rows);
    first_and_last_days_enclose_all(rows);
    let p = choose|k: int| 0 <= k < rows.len() && (#[trigger] rows[k]).day == a;
    let q = choose|k: int| 0 <= k < rows.len() && (#[trigger] rows[k]).day == b;
    assert(rows[i].day <= rows[p].day && rows[q].day <= rows[j].day);
    assert(rows[i].day == a && rows[j].day == b);
    lemma_only_row(rows, i);
    lemma_only_row(rows, j);
    assert(improved(rows, a, b, rows[i].firm));
}

/// Quality improves over a run only if some restaurant is better in the end than on the first
/// day.
pub proof fn an_improvement_is_a_better_end(rows: Seq<DailyMetric>) -> (ij: (int, int))
    requires
        rows.len() > 0,
        some_improved(rows),
    ensures
        better_in_the_end(rows, ij.0, ij.1),
{
    let a = earliest(rows);
    let b = latest(rows);
    first_and_last_days_enclose_all(rows);
    let firm = choose|firm: u64| improved(rows, a, b, firm);
    let i = lemma_row_of(rows, a, firm);
    let j = lemma_row_of(rows, b, firm);
    assert(a <= rows[i].day <= b);
    (i, j)
}

/// The row that a score is of.
proof fn lemma_row_of(rows: Seq<DailyMetric>, day: u64, firm: u64) -> (i: int)
    requires
        score_on(rows, day, firm) is Some,
    ensures
        0 <= i < rows.len(),
        rows[i].day == day,
        rows[i].firm == firm,
        Some(rows[i].avg_dish_score) == score_on(rows, day, firm),
{
    scores_are_those_recorded_last(rows, day, firm);
    choose|i: int|
        0 <= i < rows.len() && (#[trigger] rows[i]).day == day && rows[i].firm == firm
            && Some(rows[i].avg_dish_score) == score_on(rows, day, firm)
}

/// The score of a restaurant of which there is one row of a day.
proof fn lemma_only_row(rows: Seq<DailyMetric>, i: int)
    requires
        0 <= i < rows.len(),
        one_row_a_day(rows),
    ensures
        score_on(rows, rows[i].day, rows[i].firm) == Some(rows[i].avg_dish_score),
{
    let day = rows[i].day;
    let firm = rows[i].firm;
    scores_are_those_recorded_last(rows, day, firm);
    if let Some(x) = score_on(rows, day, firm) {
        let k = choose|k: int|
            0 <= k < rows.len() && (#[trigger] rows[k]).day == day && rows[k].firm == firm
                && rows[k].avg_dish_score == x;
        if k < i {
            assert(rows[k].day != rows[i].day || rows[k].firm != rows[i].firm);
        } else if i < k {
            assert(rows[i].day != rows[k].day || rows[i].firm != rows[k].firm);
        }
    } else {
        assert(rows[i].day != day || rows[i].firm != firm);
    }
}

/// The shares of a run are one for each day of which something is recorded, the days going up,
/// and each is the largest share of the customers that the rows of its day tell of.
pub proof fn shares_go_day_by_day(rows: Seq<DailyMetric>)
    ensures
        rising(days_of(rows)),
        forall|day: u64|
            #[trigger] days_of(rows).contains(day) <==> exists|i: int|
                0 <= i < rows.len() && (#[trigger] rows[i]).day == day,
        share_series(rows).len() == days_of(rows).len(),
        forall|k: int|
            0 <= k < share_series(rows).len() ==> #[trigger] share_series(rows)[k] == spec_share(
                rows.filter(|r: DailyMetric| r.day == days_of(rows)[k]).map_values(
                    |r: DailyMetric| r.day_customers,
                ),
            ),
{
    lemma_days(rows);
    assert forall|k: int| 0 <= k < share_series(rows).len() implies #[trigger] share_series(rows)[k]
        == spec_share(
        rows.filter(|r: DailyMetric| r.day == days_of(rows)[k]).map_values(
            |r: DailyMetric| r.day_customers,
        ),
    ) by {
        lemma_counts(rows, days_of(rows)[k]);
    }
}

/// The days of rows.
proof fn lemma_days(rows: Seq<DailyMetric>)
    ensures
        rising(days_of(rows)),
        forall|day: u64|
            #[trigger] days_of(rows).contains(day) <==> exists|i: int|
                0 <= i < rows.len() && (#[trigger] rows[i]).day == day,
    decreases rows.len(),
{
    if rows.len() > 0 {
        let rest = rows.drop_last();
        let n = rows.len() - 1;
        lemma_days(rest);
        lemma_with_number(days_of(rest), rows.last().day);
        assert forall|day: u64| #[trigger] days_of(rows).contains(day) <==> exists|i: int|
            0 <= i < rows.len() && (#[trigger] rows[i]).day == day by {
            if days_of(rest).contains(day) {
                let i = choose|i: int| 0 <= i < rest.len() && (#[trigger] rest[i]).day == day;
                assert(rows[i].day == day);
            }
            if day == rows.last().day {
                assert(rows[n].day == day);
            }
            if exists|i: int| 0 <= i < rows.len() && (#[trigger] rows[i]).day == day {
                let i = choose|i: int| 0 <= i < rows.len() && (#[trigger] rows[i]).day == day;
                if i < n {
                    assert(rest[i].day == day);
                    assert(days_of(rest).contains(day));
                }
            }
        }
    }
}

/// The customers of a day are those of its rows.
proof fn lemma_counts(rows: Seq<DailyMetric>, day: u64)
    ensures
        counts_on(rows, day) == rows.filter(|r: DailyMetric| r.day == day).map_values(
            |r: DailyMetric| r.day_customers,
        ),
    decreases rows.len(),
{
    reveal(Seq::filter);
    let p = |r: DailyMetric| r.day == day;
    let f = |r: DailyMetric| r.day_customers;
    if rows.len() > 0 {
        lemma_counts(rows.drop_last(), day);
        let before = rows.drop_last().filter(p);
        assert(before.push(rows.last()).map_values(f) =~= before.map_values(f).push(
            rows.last().day_customers,
        ));
    }
    assert(counts_on(rows, day) =~= rows.filter(p).map_values(f));
}

} // verus!
