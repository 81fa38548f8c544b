//! How days make a run, and what experiments conclude from runs.
use crate::accuracy::{amounts, int_sum, PARTS};
use crate::binary64::{spec_ratio, spec_real, Real};
use crate::choice::{asked_ids, everyone_is_asked_once};
use crate::config::CustomerMode;
use crate::course::{begun, calls, calls_on, history, morning, shares, town_after, Decisions};
use crate::day::{answers_keep_the_town, next_day};
use crate::decisions::those_in_business_make_offers;
use crate::estimates::{
    lemma_many_units, lemma_minus_within, lemma_plus_off, lemma_plus_within, lemma_ratio_off,
    lemma_ratio_within, means_are_accurate, size,
};
use crate::experiments::{observed_values, reported, ReproCell};
use crate::mechanisms::{after_answers, offer_of};
use crate::reflection::{all_reflected, someone_gives_up};
use crate::surveys::total;
use crate::tallies::can_be_added;
use crate::world::{
    dish_score, ids_of, menu_prices, menu_scores, AgentId, DishView, FirmView, MarketView,
    WorldView,
};
use vstd::arithmetic::power2::*;
use vstd::prelude::*;
use vstd::string::*;

verus! {

/// Days follow each other: the town after two stretches of days is the town after the second, in
/// the town after the first; and what is recorded, the shares and the calls of both are those of
/// the first and then those of the second.
pub proof fn days_follow_each_other(
    w: WorldView,
    a: Seq<Decisions>,
    b: Seq<Decisions>,
    mode: CustomerMode,
)
    ensures
        town_after(w, a + b) == town_after(town_after(w, a), b),
        history(w, a + b) == history(w, a) + history(town_after(w, a), b),
        shares(w, a + b) == shares(w, a) + shares(town_after(w, a), b),
        calls(w, a + b, mode) == calls(w, a, mode) + calls(town_after(w, a), b, mode),
        shares(w, a).len() == a.len(),
    decreases b.len(), a.len(),
{
    if b.len() == 0 {
        assert(a + b =~= a);
        assert(history(w, a) + history(town_after(w, a), b) =~= history(w, a));
        assert(shares(w, a) + shares(town_after(w, a), b) =~= shares(w, a));
        if a.len() > 0 {
            days_follow_each_other(w, a.drop_last(), b, mode);
        }
    } else {
        let c = b.drop_last();
        days_follow_each_other(w, a, c, mode);
        assert((a + b).drop_last() =~= a + c);
        assert((a + b).last() == b.last());
        assert(history(w, a + b) =~= history(w, a) + history(town_after(w, a), b));
        assert(shares(w, a + b) =~= shares(w, a) + shares(town_after(w, a), b));
    }
}

/// One day of a run: the town goes on to the next day by what is decided on it.
pub proof fn a_day_is_a_day(w: WorldView, d: Decisions, mode: CustomerMode)
    ensures
        town_after(w, seq![d]) == next_day(begun(w), d.answers, d.choices),
        calls(w, seq![d], mode) == calls_on(w, d, mode),
        town_after(w, seq![]) == w,
        history(w, seq![]).len() == 0,
        begun(w).firms == w.firms,
        begun(w).customers == w.customers,
        w.t < u64::MAX ==> begun(w).t == w.t + 1,
{
    assert(seq![d].drop_last() =~= Seq::<Decisions>::empty());
    assert(town_after(w, Seq::<Decisions>::empty()) == w);
    assert(calls(w, Seq::<Decisions>::empty(), mode) == 0);
}

/// On a day the language model is asked once for each restaurant in business and, if there is
/// one, once for each customer.
pub proof fn everyone_is_asked_once_a_day(w: WorldView, d: Decisions, mode: CustomerMode)
    requires
        w.wf(),
    ensures
        ({
            let open = w.firms.filter(|e: (AgentId, FirmView)| e.1.alive).len();
            &&& open > 0 ==> calls_on(w, d, mode) == open + w.customers.len()
            &&& open == 0 ==> calls_on(w, d, mode) == 0
        }),
{
    let m = morning(w);
    let noon = after_answers(m, d.answers);
    answers_keep_the_town(m, d.answers);
    those_in_business_make_offers(w.firms);
    those_in_business_make_offers(noon.firms);
    lemma_same_number_alive(w.firms, noon.firms);
    everyone_is_asked_once(noon.customers, mode);
    asked_ids(noon.customers, mode).to_multiset_ensures();
    ids_of(noon.customers).to_multiset_ensures();
}

/// As many are in business where the same are.
proof fn lemma_same_number_alive(a: Seq<(AgentId, FirmView)>, b: Seq<(AgentId, FirmView)>)
    requires
        a.len() == b.len(),
        forall|i: int| 0 <= i < a.len() ==> (#[trigger] a[i]).1.alive == b[i].1.alive,
    ensures
        a.filter(|e: (AgentId, FirmView)| e.1.alive).len() == b.filter(
            |e: (AgentId, FirmView)| e.1.alive,
        ).len(),
    decreases a.len(),
{
    reveal(Seq::filter);
    if a.len() > 0 {
        let x = a.drop_last();
        let y = b.drop_last();
        assert forall|i: int| 0 <= i < x.len() implies (#[trigger] x[i]).1.alive
            == y[i].1.alive by {
            assert(x[i] == a[i] && y[i] == b[i]);
        }
        lemma_same_number_alive(x, y);
        assert(a[a.len() - 1].1.alive == b[b.len() - 1].1.alive);
    }
}

/// Someone gives up exactly if a restaurant that was in business is no longer after the night.
pub proof fn those_who_give_up_are_gone(
    firms: Seq<(AgentId, FirmView)>,
    market: MarketView,
    day: u64,
)
    ensures
        someone_gives_up(firms) <==> exists|i: int|
            0 <= i < firms.len() && (#[trigger] firms[i]).1.alive && !all_reflected(
                firms,
                market,
                day,
            )[i].1.alive,
        forall|i: int|
            0 <= i < firms.len() && !(#[trigger] firms[i]).1.alive ==> !all_reflected(
                firms,
                market,
                day,
            )[i].1.alive,
{
    if someone_gives_up(firms) {
        let i = choose|i: int|
            0 <= i < firms.len() && (#[trigger] firms[i]).1.alive && firms[i].1.funds.less(
                Real { bits: 0 },
            );
        assert(!all_reflected(firms, market, day)[i].1.alive);
    }
}

/// The mean price and the mean quality that a restaurant shows are those of its dishes, up to a
/// few `2^-53`ths for each dish.
pub proof fn offers_tell_means(id: AgentId, f: FirmView)
    requires
        1 <= f.menu.len() <= 0x4_0000_0000_0000,
        can_be_added(f.menu.map_values(|d: DishView| d.price)),
        can_be_added(f.menu.map_values(|d: DishView| dish_score(d))),
    ensures
        ({
            let n = f.menu.len();
            let prices = total(f.menu, |d: DishView| d.price.value());
            let scores = total(f.menu, |d: DishView| dish_score(d).value());
            &&& size(n * offer_of(id, f).avg_price.value() - prices) * PARTS <= (2 * n + 2) * prices
                + n * PARTS
            &&& size(n * offer_of(id, f).avg_score.value() - scores) * PARTS <= (2 * n + 2) * scores
                + n * PARTS
        }),
{
    let a = f.menu.map_values(|d: DishView| d.price);
    let b = f.menu.map_values(|d: DishView| dish_score(d));
    assert(menu_prices(f.menu) =~= a);
    assert(menu_scores(f.menu) =~= b);
    means_are_accurate(a);
    means_are_accurate(b);
    lemma_totals(f.menu);
}

/// Sums over a menu.
proof fn lemma_totals(menu: Seq<DishView>)
    ensures
        int_sum(amounts(menu.map_values(|d: DishView| d.price))) == total(
            menu,
            |d: DishView| d.price.value(),
        ),
        int_sum(amounts(menu.map_values(|d: DishView| dish_score(d)))) == total(
            menu,
            |d: DishView| dish_score(d).value(),
        ),
    decreases menu.len(),
{
    let f = |d: DishView| d.price;
    let g = |d: DishView| dish_score(d);
    if menu.len() > 0 {
        let rest = menu.drop_last();
        lemma_totals(rest);
        assert(amounts(menu.map_values(f)).drop_last() =~= amounts(rest.map_values(f)));
        assert(amounts(menu.map_values(g)).drop_last() =~= amounts(rest.map_values(g)));
        assert(amounts(menu.map_values(f)).last() == menu.last().price.value());
        assert(amounts(menu.map_values(g)).last() == dish_score(menu.last()).value());
    } else {
        assert(amounts(menu.map_values(f)) =~= seq![]);
        assert(amounts(menu.map_values(g)) =~= seq![]);
    }
}

/// What is observed first of each pair is of the trials in which customers decide for themselves,
/// and what is observed second of those in which they decide in groups.
pub proof fn both_kinds_are_observed_alike(a: ReproCell, b: ReproCell)
    ensures
        observed_values(a, b)[0].1 == a.wta_freq,
        observed_values(a, b)[1].1 == b.wta_freq,
        observed_values(a, b)[2].1 == a.quality_freq,
        observed_values(a, b)[3].1 == b.quality_freq,
        observed_values(a, b)[5].1 == a.mean_menu_similarity,
        observed_values(a, b)[6].1 == b.mean_menu_similarity,
        observed_values(a, b)[8].1 == a.mean_final_gini,
        observed_values(a, b)[9].1 == b.mean_final_gini,
        observed_values(a, b)[10].1 == a.mean_final_share_max,
        observed_values(a, b)[11].1 == b.mean_final_share_max,
{
}

/// The gap that is observed last is by how much more often one restaurant takes all where
/// customers decide for themselves, up to a rounding.
pub proof fn the_gap_is_a_difference(a: ReproCell, b: ReproCell)
    requires
        a.wta_freq.is_finite(),
        b.wta_freq.is_finite(),
        a.wta_freq.minus(b.wta_freq).is_finite(),
    ensures
        ({
            let exact = a.wta_freq.value() - b.wta_freq.value();
            size(observed_values(a, b)[12].1.value() - exact) * PARTS <= size(exact)
        }),
{
    let gap = observed_values(a, b)[12].1;
    assert(gap == a.wta_freq.minus(b.wta_freq));
    assert(b.wta_freq.negated().value() == -b.wta_freq.value() && b.wta_freq.negated().is_finite());
    lemma_plus_off(a.wta_freq, b.wta_freq.negated());
}

/// A quotient of small integers and another one, added up or taken away.
proof fn lemma_band(a: nat, b: nat, c: nat, d: nat)
    requires
        a <= 10_000,
        c <= 100,
        1 <= b <= 10_000,
        1 <= d <= 100,
    ensures
        ({
            let u = pow2(1074);
            let x = spec_ratio(a, b);
            let y = spec_ratio(c, d);
            &&& size((b * d) * x.plus(y).value() - (a * d + c * b) * u) * PARTS <= 100_000_000_000 * u
            &&& size((b * d) * x.minus(y).value() - (a * d - c * b) * u) * PARTS <= 100_000_000_000
                * u
        }),
{
    let u = pow2(1074) as int;
    let x = spec_ratio(a, b);
    let y = spec_ratio(c, d);
    lemma_many_units();
    lemma_ratio_off(a, b);
    lemma_ratio_off(c, d);
    lemma2_to64();
    lemma_ratio_within(a, b, 14);
    lemma_ratio_within(c, d, 14);
    lemma_plus_within(x, y, 14);
    lemma_minus_within(x, y, 14);
    lemma_plus_off(x, y);
    lemma_plus_off(x, y.negated());
    let xv = x.value();
    let yv = y.value();
    reveal(size);
    assert(pow2(14) * u == 16_384 * u);
    assert(d * (-yv) - (-(c as int)) * u == -(d * yv - c * u)) by (nonlinear_arith);
    lemma_band_sum(a as int, b as int, c as int, d as int, xv, yv, x.plus(y).value(), u);
    lemma_band_sum(a as int, b as int, -(c as int), d as int, xv, -yv, x.minus(y).value(), u);
    assert((-(c as int)) * b == -(c * b)) by (nonlinear_arith);
}

/// How the errors of a sum add up.
proof fn lemma_band_sum(a: int, b: int, c: int, d: int, x: int, y: int, s: int, u: int)
    requires
        0 <= a <= 10_000,
        -100 <= c <= 100,
        1 <= b <= 10_000,
        1 <= d <= 100,
        u > 0,
        size(x) <= 16_384 * u,
        size(y) <= 16_384 * u,
        size(b * x - a * u) * PARTS <= (a + 1) * u,
        size(d * y - c * u) * PARTS <= (size(c) + 1) * u,
        size(s - (x + y)) * PARTS <= size(x + y),
    ensures
        size((b * d) * s - (a * d + c * b) * u) * PARTS <= 100_000_000_000 * u,
{
    reveal(size);
    let w = 0x20_0000_0000_0000int;
    let e = b * x - a * u;
    let f = d * y - c * u;
    let g = s - (x + y);
    assert(size(e) * PARTS == w * size(e));
    assert(size(f) * PARTS == w * size(f));
    assert(size(g) * PARTS == w * size(g));
    assert((a + 1) * u <= 10_001 * u) by (nonlinear_arith)
        requires a <= 10_000, u > 0;
    assert((size(c) + 1) * u <= 101 * u) by (nonlinear_arith)
        requires size(c) <= 100, u > 0;
    let t = (b * d) * s - (a * d + c * b) * u;
    let bd = b * d;
    assert(d * e == bd * x - (a * d) * u) by (nonlinear_arith)
        requires bd == b * d, e == b * x - a * u;
    assert(b * f == bd * y - (c * b) * u) by (nonlinear_arith)
        requires bd == b * d, f == d * y - c * u;
    assert(bd * g == bd * s - bd * x - bd * y) by (nonlinear_arith)
        requires g == s - (x + y);
    assert((a * d + c * b) * u == (a * d) * u + (c * b) * u) by (nonlinear_arith);
    assert(t == d * e + b * f + bd * g);
    assert(size(d * e) <= 100 * size(e)) by {
        crate::estimates::lemma_size_product(d, e);
        assert(d * size(e) <= 100 * size(e)) by (nonlinear_arith)
            requires d <= 100, size(e) >= 0;
    }
    assert(size(b * f) <= 10_000 * size(f)) by {
        crate::estimates::lemma_size_product(b, f);
        assert(b * size(f) <= 10_000 * size(f)) by (nonlinear_arith)
            requires b <= 10_000, size(f) >= 0;
    }
    assert(b * d <= 1_000_000) by (nonlinear_arith)
        requires 1 <= b <= 10_000, 1 <= d <= 100;
    assert(b * d >= 0) by (nonlinear_arith)
        requires b >= 1, d >= 1;
    assert(size((b * d) * g) <= 1_000_000 * size(g)) by {
        crate::estimates::lemma_size_product(b * d, g);
        assert((b * d) * size(g) <= 1_000_000 * size(g)) by (nonlinear_arith)
            requires b * d <= 1_000_000, size(g) >= 0;
    }
    assert(size(t) * PARTS == w * size(t));
}

/// A number stands for `a` by `n`, up to a few `2^-53`ths.
pub open spec fn is_fraction(x: Real, a: int, n: int) -> bool {
    size(n * x.value() - a * pow2(1074)) * PARTS <= 100_000_000_000 * pow2(1074)
}

/// What the paper reports, and the bands around it: where customers decide for themselves one
/// restaurant takes all in 66.7 of a hundred trials, 15 more or less; where they decide in groups
/// in 16.7, up to 15 more; dishes get better in 86.67, 10 less at most; and menus are similar to
/// 36 parts in a hundred, 10 more or less.
pub proof fn bands_surround_what_is_reported()
    ensures
        reported().len() == 4,
        is_fraction(reported()[0].1, 66_700, 100_000),
        is_fraction(reported()[0].2.0, 51_700, 100_000),
        is_fraction(reported()[0].2.1, 81_700, 100_000),
        is_fraction(reported()[1].1, 16_700, 100_000),
        reported()[1].2.0.value() == 0,
        is_fraction(reported()[1].2.1, 31_700, 100_000),
        is_fraction(reported()[2].1, 86_670, 100_000),
        is_fraction(reported()[2].2.0, 76_670, 100_000),
        reported()[2].2.1 == spec_real(1),
        is_fraction(reported()[3].1, 360, 1_000),
        is_fraction(reported()[3].2.0, 260, 1_000),
        is_fraction(reported()[3].2.1, 460, 1_000),
{
    lemma_band(667, 1_000, 15, 100);
    lemma_band(167, 1_000, 15, 100);
    lemma_band(8_667, 10_000, 1, 10);
    lemma_band(36, 100, 1, 10);
    lemma_ratio_off(667, 1_000);
    lemma_ratio_off(167, 1_000);
    lemma_ratio_off(8_667, 10_000);
    lemma_ratio_off(36, 100);
    lemma_many_units();
    reveal(size);
    lemma_scaled_fraction(spec_ratio(667, 1_000), 667, 1_000, 100);
    lemma_scaled_fraction(spec_ratio(167, 1_000), 167, 1_000, 100);
    lemma_scaled_fraction(spec_ratio(8_667, 10_000), 8_667, 10_000, 10);
    lemma_scaled_fraction(spec_ratio(36, 100), 36, 100, 10);
}

/// A fraction with both parts multiplied.
proof fn lemma_scaled_fraction(x: Real, a: int, n: int, k: int)
    requires
        size(n * x.value() - a * pow2(1074)) * PARTS <= (a + 1) * pow2(1074),
        0 <= a <= 10_000,
        1 <= k <= 100,
    ensures
        is_fraction(x, a * k, n * k),
{
    reveal(size);
    let u = pow2(1074) as int;
    lemma_many_units();
    let e = n * x.value() - a * u;
    crate::estimates::lemma_size_product(k, e);
    assert((n * k) * x.value() - (a * k) * u == k * e) by (nonlinear_arith)
        requires e == n * x.value() - a * u;
    assert(k * size(e) <= 100 * size(e)) by (nonlinear_arith)
        requires k <= 100, size(e) >= 0;
    assert((a + 1) * u <= 10_001 * u) by (nonlinear_arith)
        requires a <= 10_000, u > 0;
    assert(size(e) * PARTS == 0x20_0000_0000_0000 * size(e));
    assert(size(k * e) * PARTS == 0x20_0000_0000_0000 * size(k * e));
}

} // verus!
