//! What the counts and means of experiments mean, in exact arithmetic.
use crate::accuracy::{amounts, int_sum, is_amount, PARTS};
use crate::binary64::{spec_real, Real};
use crate::bounds::{
    lemma_exact_integer, lemma_fraction, lemma_over_one_or_more, lemma_real_ordered,
    lemma_zero_over,
};
use crate::config::CustomerMode;
use crate::estimates::{
    lemma_cancelled, lemma_many_units, lemma_over_off, lemma_over_within, lemma_plus_off,
    lemma_plus_within, lemma_shared_out, lemma_size_product, lemma_times_off, lemma_times_within,
    size, within,
};
use crate::experiments::{
    cell_of, cells, count_in, first_row, improvements, in_bands, item_end, items_from, last_rows,
    lemma_cell, lemma_item_end, menu_similarity_all, quality_freq_all, reported, runs_with, steps,
    true_ones, value_under, winners, winning_runs, ReproCell, Trial,
};
use crate::metrics::DailyMetric;
use crate::readback::lemma_decimal;
use crate::text::{decimal, digit_run, is_digit, number, trimmed};
use crate::world::real_sum;
use vstd::arithmetic::power2::*;
use vstd::prelude::*;

verus! {

/// In what part of `n` cases something happens that happens in `a` of them: in one if in all, in
/// zero if in none, and times `n` it is `a`, up to a rounding.
pub proof fn parts_of_a_number(a: nat, n: nat)
    requires
        a <= n,
        1 <= n <= u64::MAX,
    ensures
        ({
            let x = spec_real(a).over(spec_real(n));
            &&& is_amount(x)
            &&& a == n ==> x == spec_real(1)
            &&& a == 0 ==> x.value() == 0
            &&& n <= 0x20_0000_0000_0000 ==> size(x.value() * n - a * pow2(1074)) * PARTS <= a
                * pow2(1074) + n * PARTS
        }),
{
    let u = pow2(1074) as int;
    let w = PARTS as int;
    let x = spec_real(a);
    let y = spec_real(n);
    lemma2_to64();
    lemma2_to64_rest();
    lemma_pow2_strictly_increases(64, 1000);
    lemma_many_units();
    lemma_real_ordered(a, n);
    lemma_real_ordered(n, n);
    lemma_fraction(x, y);
    lemma_over_one_or_more(x, y);
    if a == 0 {
        lemma_zero_over(y);
    }
    if n <= 0x20_0000_0000_0000 {
        lemma_exact_integer(a);
        lemma_exact_integer(n);
        let nu = n * u;
        let au = a * u;
        assert(nu >= u && au >= 0) by (nonlinear_arith)
            requires nu == n * u, au == a * u, n >= 1, a >= 0, u > 0;
        lemma_over_off(x, y);
        let q = x.over(y).value();
        let d = q * n - au;
        assert(q * nu - au * u == d * u) by (nonlinear_arith)
            requires nu == n * u, d == q * n - au;
        lemma_size_product(d, u);
        lemma_size_product(au, 1);
        reveal(size);
        assert((size(d) * w) * u == (size(d) * u) * w) by (nonlinear_arith);
        assert(au * u + nu * w == (au + n * w) * u) by (nonlinear_arith)
            requires nu == n * u;
        lemma_cancelled(size(d) * w, au + n * w, u);
    }
}

/// The runs with so many restaurants are those that say so, in their order.
pub proof fn runs_are_picked_by_their_restaurants(runs: Seq<(usize, bool, Real)>, n_firms: usize)
    ensures
        runs_with(runs, n_firms) == runs.filter(|e: (usize, bool, Real)| e.0 == n_firms),
        runs_with(runs, n_firms).len() <= runs.len(),
        forall|k: int|
            0 <= k < runs_with(runs, n_firms).len() ==> runs.contains(
                #[trigger] runs_with(runs, n_firms)[k],
            ) && runs_with(runs, n_firms)[k].0 == n_firms,
        forall|i: int|
            0 <= i < runs.len() && (#[trigger] runs[i]).0 == n_firms ==> runs_with(
                runs,
                n_firms,
            ).contains(runs[i]),
    decreases runs.len(),
{
    reveal(Seq::filter);
    let p = |e: (usize, bool, Real)| e.0 == n_firms;
    if runs.len() > 0 {
        let rest = runs.drop_last();
        let last = runs.len() - 1;
        runs_are_picked_by_their_restaurants(rest, n_firms);
        let before = runs_with(rest, n_firms);
        let now = runs_with(runs, n_firms);
        assert(runs[last] == runs.last());
        assert forall|k: int| 0 <= k < now.len() implies runs.contains(#[trigger] now[k]) && now[k].0
            == n_firms by {
            if k < before.len() {
                assert(now[k] == before[k]);
                let i = choose|i: int| 0 <= i < rest.len() && rest[i] == before[k];
                assert(runs[i] == now[k]);
            } else {
                assert(now[k] == runs[last]);
            }
        }
        assert forall|i: int| 0 <= i < runs.len() && (#[trigger] runs[i]).0 == n_firms implies
            now.contains(runs[i]) by {
            if i < last {
                assert(rest[i] == runs[i]);
                assert(before.contains(rest[i]));
                let k = choose|k: int| 0 <= k < before.len() && before[k] == rest[i];
                assert(now[k] == runs[i]);
            } else {
                assert(now[now.len() - 1] == runs[i]);
            }
        }
    }
    assert(runs_with(runs, n_firms) =~= runs.filter(p));
}

/// The runs that had a winner are counted, and no others: all of them where each had one, none
/// where none had.
pub proof fn winning_runs_had_a_winner(runs: Seq<(usize, bool, Real)>)
    ensures
        winning_runs(runs) == runs.filter(|e: (usize, bool, Real)| e.1).len(),
        winning_runs(runs) <= runs.len(),
        winning_runs(runs) == runs.len() <==> forall|i: int|
            0 <= i < runs.len() ==> (#[trigger] runs[i]).1,
        winning_runs(runs) == 0 <==> forall|i: int|
            0 <= i < runs.len() ==> !(#[trigger] runs[i]).1,
    decreases runs.len(),
{
    reveal(Seq::filter);
    if runs.len() > 0 {
        let rest = runs.drop_last();
        let last = runs.len() - 1;
        winning_runs_had_a_winner(rest);
        assert(runs.last() == runs[last]);
        assert forall|i: int| 0 <= i < rest.len() implies #[trigger] rest[i] == runs[i] by {
        }
        if winning_runs(rest) == rest.len() && runs.last().1 {
            assert forall|i: int| 0 <= i < runs.len() implies (#[trigger] runs[i]).1 by {
                if i < last {
                    assert(rest[i].1);
                }
            }
        }
        if winning_runs(rest) == 0 && !runs.last().1 {
            assert forall|i: int| 0 <= i < runs.len() implies !(#[trigger] runs[i]).1 by {
                if i < last {
                    assert(!rest[i].1);
                }
            }
        }
        if forall|i: int| 0 <= i < runs.len() ==> (#[trigger] runs[i]).1 {
            assert forall|i: int| 0 <= i < rest.len() implies (#[trigger] rest[i]).1 by {
                assert(runs[i].1);
            }
        }
        if forall|i: int| 0 <= i < runs.len() ==> !(#[trigger] runs[i]).1 {
            assert forall|i: int| 0 <= i < rest.len() implies !(#[trigger] rest[i]).1 by {
                assert(!runs[i].1);
            }
        }
    }
}

/// One more run with so many restaurants is one more run, and raises the number of those with a
/// winner by one exactly if it had one; a run with another number of restaurants changes nothing.
pub proof fn one_more_run_counts_once(
    runs: Seq<(usize, bool, Real)>,
    e: (usize, bool, Real),
    n: usize,
)
    ensures
        e.0 != n ==> runs_with(runs.push(e), n) == runs_with(runs, n),
        e.0 == n ==> runs_with(runs.push(e), n).len() == runs_with(runs, n).len() + 1,
        e.0 == n && e.1 ==> winning_runs(runs_with(runs.push(e), n)) == winning_runs(
            runs_with(runs, n),
        ) + 1,
        e.0 == n && !e.1 ==> winning_runs(runs_with(runs.push(e), n)) == winning_runs(
            runs_with(runs, n),
        ),
{
    assert(runs.push(e).drop_last() =~= runs);
    let before = runs_with(runs, n);
    assert(before.push(e).drop_last() =~= before);
}

/// The trials that had a winner are counted, those in which dishes got better are, and the last
/// rows are those of the trials that have one, in their order.
pub proof fn trials_are_counted(trials: Seq<Trial>)
    ensures
        winners(trials) == trials.filter(|t: Trial| t.winner_take_all).len(),
        improvements(trials) == trials.filter(|t: Trial| t.quality_improved).len(),
        last_rows(trials) == trials.filter(|t: Trial| t.last is Some).map_values(
            |t: Trial| t.last->0,
        ),
        winners(trials) <= trials.len(),
        improvements(trials) <= trials.len(),
        last_rows(trials).len() <= trials.len(),
        (forall|i: int| 0 <= i < trials.len() ==> (#[trigger] trials[i]).winner_take_all)
            ==> winners(trials) == trials.len(),
        (forall|i: int| 0 <= i < trials.len() ==> !(#[trigger] trials[i]).winner_take_all)
            ==> winners(trials) == 0,
        (forall|i: int| 0 <= i < trials.len() ==> (#[trigger] trials[i]).quality_improved)
            ==> improvements(trials) == trials.len(),
        (forall|i: int| 0 <= i < trials.len() ==> !(#[trigger] trials[i]).quality_improved)
            ==> improvements(trials) == 0,
    decreases trials.len(),
{
    reveal(Seq::filter);
    let p = |t: Trial| t.last is Some;
    let f = |t: Trial| t.last->0;
    if trials.len() > 0 {
        let rest = trials.drop_last();
        let last = trials.len() - 1;
        trials_are_counted(rest);
        assert(trials[last] == trials.last());
        assert forall|i: int| 0 <= i < rest.len() implies #[trigger] rest[i] == trials[i] by {
        }
        let before = rest.filter(p);
        assert(before.push(trials.last()).map_values(f) =~= before.map_values(f).push(
            f(trials.last()),
        ));
    }
    assert(last_rows(trials) =~= trials.filter(p).map_values(f));
}

/// What trials add up to: how many there were, how many had a winner and in how many dishes got
/// better, these as parts of all trials, up to a rounding, and the means of what the last rows
/// tell over all trials, up to a few `2^-53`ths for each.
pub proof fn cells_sum_up_their_trials(mode: CustomerMode, trials: Seq<Trial>)
    requires
        1 <= trials.len() <= 0x4_0000_0000_0000,
        trials.len() <= usize::MAX,
    ensures
        ({
            let c = cell_of(mode, trials);
            let n = trials.len();
            let won = trials.filter(|t: Trial| t.winner_take_all).len();
            let better = trials.filter(|t: Trial| t.quality_improved).len();
            &&& c.customer_mode == mode
            &&& c.runs == n
            &&& c.wta_count == won
            &&& c.quality_count == better
            &&& size(c.wta_freq.value() * n - won * pow2(1074)) * PARTS <= won * pow2(1074) + n
                * PARTS
            &&& size(c.quality_freq.value() * n - better * pow2(1074)) * PARTS <= better * pow2(1074)
                + n * PARTS
            &&& won == n ==> c.wta_freq == spec_real(1)
            &&& won == 0 ==> c.wta_freq.value() == 0
            &&& better == n ==> c.quality_freq == spec_real(1)
            &&& better == 0 ==> c.quality_freq.value() == 0
        }),
{
    trials_are_counted(trials);
    parts_of_a_number(winners(trials), trials.len());
    parts_of_a_number(improvements(trials), trials.len());
}

/// A number that is computed as a mean over `n` is the sum of the amounts by `n`, up to a few
/// `2^-53`ths for each of them.
pub open spec fn is_mean_over(x: Real, s: Seq<Real>, n: nat) -> bool {
    size(n * x.value() - int_sum(amounts(s))) * PARTS <= (2 * s.len() + 2) * int_sum(amounts(s)) + n
        * PARTS
}

/// All of them are amounts, and they can be added up.
pub open spec fn can_be_added(s: Seq<Real>) -> bool {
    &&& forall|i: int| 0 <= i < s.len() ==> is_amount(#[trigger] s[i])
    &&& real_sum(s).is_finite()
}

/// The means of a cell are those of the similarities, the Gini coefficients and the largest
/// shares of the last rows of its trials.
pub proof fn cells_hold_means(mode: CustomerMode, trials: Seq<Trial>)
    requires
        1 <= trials.len() <= 0x4_0000_0000_0000,
    ensures
        ({
            let c = cell_of(mode, trials);
            let n = trials.len();
            let rows = trials.filter(|t: Trial| t.last is Some).map_values(|t: Trial| t.last->0);
            let similarities = rows.map_values(|m: DailyMetric| m.menu_similarity);
            let ginis = rows.map_values(|m: DailyMetric| m.revenue_gini);
            let shares = rows.map_values(|m: DailyMetric| m.market_share_max);
            &&& can_be_added(similarities) ==> is_mean_over(c.mean_menu_similarity, similarities, n)
            &&& can_be_added(ginis) ==> is_mean_over(c.mean_final_gini, ginis, n)
            &&& can_be_added(shares) ==> is_mean_over(c.mean_final_share_max, shares, n)
        }),
{
    trials_are_counted(trials);
    let n = trials.len();
    let rows = last_rows(trials);
    let a = rows.map_values(|m: DailyMetric| m.menu_similarity);
    let b = rows.map_values(|m: DailyMetric| m.revenue_gini);
    let c = rows.map_values(|m: DailyMetric| m.market_share_max);
    if can_be_added(a) {
        lemma_shared_out(a, n);
    }
    if can_be_added(b) {
        lemma_shared_out(b, n);
    }
    if can_be_added(c) {
        lemma_shared_out(c, n);
    }
}

/// In what part of all trials of two cells dishes got better: times the number of trials of both
/// it is the number of both in which they did, up to a rounding.
pub proof fn quality_is_counted_over_both(a: ReproCell, b: ReproCell)
    requires
        1 <= a.runs + b.runs <= 0x20_0000_0000_0000,
        a.quality_count <= a.runs,
        b.quality_count <= b.runs,
    ensures
        ({
            let all = a.runs + b.runs;
            let better = a.quality_count + b.quality_count;
            let x = quality_freq_all(a, b);
            &&& size(x.value() * all - better * pow2(1074)) * PARTS <= better * pow2(1074) + all
                * PARTS
            &&& x == quality_freq_all(b, a)
        }),
{
    parts_of_a_number((a.quality_count + b.quality_count) as nat, (a.runs + b.runs) as nat);
}

/// A product with a whole number, up to a rounding.
proof fn lemma_times_whole(x: Real, n: nat)
    requires
        is_amount(x),
        x.value() <= pow2(1074),
        n <= 0x4_0000_0000_0000,
    ensures
        within(x.times(spec_real(n)), 51),
        x.times(spec_real(n)).is_finite(),
        size(x.times(spec_real(n)).value() - x.value() * n) * PARTS <= x.value() * n + PARTS,
        x.value() * n >= 0,
{
    let u = pow2(1074) as int;
    let w = PARTS as int;
    let v = x.value();
    let y = spec_real(n);
    lemma_many_units();
    lemma2_to64();
    lemma2_to64_rest();
    lemma_exact_integer(n);
    let vn = v * n;
    let nu = n * u;
    assert(vn >= 0 && nu >= 0) by (nonlinear_arith)
        requires vn == v * n, nu == n * u, v >= 0, n >= 0, u >= 0;
    assert(nu <= pow2(50) * u) by (nonlinear_arith)
        requires nu == n * u, n <= pow2(50), u >= 0;
    assert(v <= pow2(1) * u) by (nonlinear_arith)
        requires v <= u, pow2(1) == 2, u >= 0;
    reveal(size);
    assert(within(x, 1) && within(y, 50));
    lemma_times_within(x, y, 1, 50);
    lemma_times_off(x, y);
    let d = x.times(y).value() - vn;
    assert(v * nu == vn * u) by (nonlinear_arith)
        requires vn == v * n, nu == n * u;
    assert(vn * u >= 0) by (nonlinear_arith)
        requires vn >= 0, u >= 0;
    assert(x.times(y).value() * u - vn * u == d * u) by (nonlinear_arith)
        requires d == x.times(y).value() - vn;
    lemma_size_product(d, u);
    assert((size(d) * w) * u == (size(d) * u) * w) by (nonlinear_arith);
    assert(vn * u + u * w == (vn + w) * u) by (nonlinear_arith);
    lemma_cancelled(size(d) * w, vn + w, u);
}

/// How errors of products, of their sum and of its quotient add up.
proof fn lemma_errors_add_up(p1: int, p2: int, t1: int, t2: int, s: int, q: int, n: int)
    requires
        p1 >= 0,
        p2 >= 0,
        n >= 0,
        size(t1 - p1) * PARTS <= p1 + PARTS,
        size(t2 - p2) * PARTS <= p2 + PARTS,
        size(s - (t1 + t2)) * PARTS <= size(t1 + t2),
        size(q - s) * PARTS <= size(s) + n * PARTS,
    ensures
        size(q - (p1 + p2)) * PARTS <= 8 * (p1 + p2) + (n + 8) * PARTS,
{
    reveal(size);
    let w = 0x20_0000_0000_0000int;
    assert(size(t1 - p1) * PARTS == w * size(t1 - p1));
    assert(size(t2 - p2) * PARTS == w * size(t2 - p2));
    assert(size(s - (t1 + t2)) * PARTS == w * size(s - (t1 + t2)));
    assert(size(q - s) * PARTS == w * size(q - s));
    assert(n * PARTS == w * n);
    assert(size(q - (p1 + p2)) * PARTS == w * size(q - (p1 + p2)));
    assert((n + 8) * PARTS == w * (n + 8));
    assert(size(t1 + t2) <= 2 * (p1 + p2) + 2);
    assert(size(s) <= 4 * (p1 + p2) + 4);
}

/// The mean similarity over all trials of two cells weighs each cell by its trials: times the
/// trials of both it is the sum of the means times their trials, up to rounding.
pub proof fn similarity_is_weighed_by_trials(a: ReproCell, b: ReproCell)
    requires
        1 <= a.runs + b.runs <= 0x4_0000_0000_0000,
        is_amount(a.mean_menu_similarity),
        is_amount(b.mean_menu_similarity),
        a.mean_menu_similarity.value() <= pow2(1074),
        b.mean_menu_similarity.value() <= pow2(1074),
    ensures
        ({
            let all = a.runs + b.runs;
            let sum = a.mean_menu_similarity.value() * a.runs + b.mean_menu_similarity.value()
                * b.runs;
            size(menu_similarity_all(a, b).value() * all - sum) * PARTS <= 8 * sum + (all + 8)
                * PARTS
        }),
{
    let u = pow2(1074) as int;
    let w = PARTS as int;
    let n = (a.runs + b.runs) as nat;
    lemma_many_units();
    lemma_times_whole(a.mean_menu_similarity, a.runs as nat);
    lemma_times_whole(b.mean_menu_similarity, b.runs as nat);
    let t1 = a.mean_menu_similarity.times(spec_real(a.runs as nat));
    let t2 = b.mean_menu_similarity.times(spec_real(b.runs as nat));
    lemma_plus_within(t1, t2, 51);
    lemma_plus_off(t1, t2);
    let s = t1.plus(t2);
    lemma_exact_integer(n);
    let y = spec_real(n);
    let nu = n as int * u;
    assert(nu >= u) by (nonlinear_arith)
        requires nu == n as int * u, n >= 1, u > 0;
    lemma_over_within(s, y, 52);
    lemma_over_off(s, y);
    let q = menu_similarity_all(a, b).value();
    let d = q * n - s.value();
    assert(q * nu - s.value() * u == d * u) by (nonlinear_arith)
        requires nu == n as int * u, d == q * n - s.value();
    lemma_size_product(d, u);
    assert((size(d) * w) * u == (size(d) * u) * w) by (nonlinear_arith);
    assert(size(s.value()) * u + nu * w == (size(s.value()) + n * w) * u) by (nonlinear_arith)
        requires nu == n as int * u;
    lemma_cancelled(size(d) * w, size(s.value()) + n * w, u);
    lemma_errors_add_up(
        a.mean_menu_similarity.value() * a.runs,
        b.mean_menu_similarity.value() * b.runs,
        t1.value(),
        t2.value(),
        s.value(),
        q * n,
        n as int,
    );
}

/// The row that is found for a day is of this day, and no row before it is; none is found only
/// if there is none.
pub proof fn first_rows_come_first(history: Seq<DailyMetric>, day: u64)
    ensures
        match first_row(history, day) {
            Some(m) => exists|i: int|
                {
                    &&& 0 <= i < history.len() && #[trigger] history[i] == m && m.day == day
                    &&& forall|k: int| 0 <= k < i ==> (#[trigger] history[k]).day != day
                },
            None => forall|k: int| 0 <= k < history.len() ==> (#[trigger] history[k]).day != day,
        },
    decreases history.len(),
{
    if history.len() > 0 {
        let rest = history.drop_first();
        first_rows_come_first(rest, day);
        if history[0].day != day {
            match first_row(rest, day) {
                Some(m) => {
                    let i = choose|i: int|
                        {
                            &&& 0 <= i < rest.len() && #[trigger] rest[i] == m && m.day == day
                            &&& forall|k: int| 0 <= k < i ==> (#[trigger] rest[k]).day != day
                        };
                    assert(history[i + 1] == m);
                    assert forall|k: int| 0 <= k < i + 1 implies (#[trigger] history[k]).day
                        != day by {
                        if k > 0 {
                            assert(rest[k - 1] == history[k]);
                        }
                    }
                },
                None => {
                    assert forall|k: int| 0 <= k < history.len() implies (#[trigger] history[k]).day
                        != day by {
                        if k > 0 {
                            assert(rest[k - 1] == history[k]);
                        }
                    }
                },
            }
        } else {
            assert(history[0] == first_row(history, day)->0);
        }
    }
}

/// The numbers of customers of a sweep start with the smallest, each is a step above the one
/// before it, none is above the largest, and another step would be.
pub proof fn steps_lead_up(min: nat, max: nat, step: nat)
    requires
        step > 0,
        min <= max,
    ensures
        steps(min, max, step).len() > 0,
        steps(min, max, step)[0] == min,
        forall|k: int|
            0 < k < steps(min, max, step).len() ==> #[trigger] steps(min, max, step)[k] == steps(
                min,
                max,
                step,
            )[k - 1] + step,
        steps(min, max, step).last() <= max < steps(min, max, step).last() + step,
{
    let s = steps(min, max, step);
    let d = (max - min) as int;
    let q = d / step as int;
    vstd::arithmetic::div_mod::lemma_fundamental_div_mod(d, step as int);
    assert(q >= 0) by {
        vstd::arithmetic::div_mod::lemma_div_pos_is_pos(d, step as int);
    }
    assert(s.len() == q + 1);
    assert(0 * step == 0);
    assert(s[0] == min);
    assert forall|k: int| 0 < k < s.len() implies #[trigger] s[k] == s[k - 1] + step by {
        assert(k * step == (k - 1) * step + step) by (nonlinear_arith);
        assert((k - 1) * step >= 0) by (nonlinear_arith)
            requires k >= 1, step >= 0;
    }
    assert(step * q == q * step) by (nonlinear_arith);
    assert(q * step >= 0) by (nonlinear_arith)
        requires q >= 0, step >= 0;
    assert(s.last() == min + q * step);
}

/// Where there is no way up there is one number, the smallest.
pub proof fn steps_that_lead_nowhere(min: nat, max: nat, step: nat)
    requires
        step == 0 || max < min,
    ensures
        steps(min, max, step).len() == 1,
        steps(min, max, step)[0] == min,
{
}

/// The trials of a sweep go through the numbers of restaurants, for each of these through the
/// numbers of customers, and for each of these through the runs.
pub proof fn sweeps_go_in_order(
    firms: Seq<usize>,
    customers: Seq<usize>,
    runs: nat,
    i: int,
    j: int,
    k: int,
)
    requires
        0 <= i < firms.len(),
        0 <= j < customers.len(),
        0 <= k < runs <= usize::MAX,
    ensures
        cells(firms, customers, runs).len() == firms.len() * (customers.len() * runs),
        0 <= (i * customers.len() + j) * runs + k < cells(firms, customers, runs).len(),
        cells(firms, customers, runs)[(i * customers.len() + j) * runs + k] == (
            firms[i],
            customers[j],
            k as usize,
        ),
{
    lemma_cell(firms, customers, runs, i, j, k);
    assert((i * customers.len() + j) * runs + k == i * (customers.len() * runs) + j * runs + k)
        by (nonlinear_arith);
}

/// Digits run on to the end.
proof fn lemma_all_digits(s: Seq<char>, i: int)
    requires
        0 <= i <= s.len(),
        forall|k: int| 0 <= k < s.len() ==> is_digit(#[trigger] s[k]),
    ensures
        digit_run(s, i) == s.len(),
    decreases s.len() - i,
{
    if i < s.len() {
        assert(is_digit(s[i]));
        lemma_all_digits(s, i + 1);
    }
}

/// A number that is written in digits is read as itself, with a plus sign before it too; one
/// that is too large is not read.
pub proof fn counts_are_read_back(n: nat)
    ensures
        n <= usize::MAX ==> count_in(decimal(n)) == Some(n),
        n <= usize::MAX ==> count_in(seq!['+'] + decimal(n)) == Some(n),
        n > usize::MAX ==> count_in(decimal(n)) is None,
        count_in(seq![]) is None,
        count_in(seq!['-'] + decimal(n)) is None,
{
    let d = decimal(n);
    lemma_decimal(n);
    lemma_all_digits(d, 0);
    assert(is_digit(d[0]));
    assert((seq!['+'] + d).skip(1) =~= d);
    assert(!is_digit((seq!['-'] + d)[0]));
}

/// Text without a comma is one item, without the white space around it, or none.
pub proof fn text_without_commas_is_an_item(s: Seq<char>)
    requires
        !s.contains(','),
    ensures
        items_from(s, 0) == if trimmed(s).len() == 0 {
            Seq::<Seq<char>>::empty()
        } else {
            seq![trimmed(s)]
        },
{
    lemma_no_comma(s, 0);
    if s.len() > 0 {
        assert(s.subrange(0, s.len() as int) =~= s);
        assert(items_from(s, s.len() as int + 1) =~= seq![]);
    } else {
        assert(trimmed(s) =~= s);
    }
    assert(items_from(s, 0) =~= if trimmed(s).len() == 0 {
        Seq::<Seq<char>>::empty()
    } else {
        seq![trimmed(s)]
    });
}

/// Without a comma an item goes to the end.
proof fn lemma_no_comma(s: Seq<char>, i: int)
    requires
        0 <= i <= s.len(),
        !s.contains(','),
    ensures
        item_end(s, i) == s.len(),
    decreases s.len() - i,
{
    if i < s.len() {
        assert(s.contains(s[i]));
        lemma_no_comma(s, i + 1);
    }
}

/// A comma parts the items before it from those behind it.
pub proof fn commas_part_items(a: Seq<char>, b: Seq<char>)
    ensures
        items_from(a + seq![','] + b, 0) == items_from(a, 0) + items_from(b, 0),
{
    let s = a + seq![','] + b;
    lemma_items_before(a, b, 0);
    lemma_items_behind(a, b, 0);
    assert(s =~= a + seq![','] + b);
}

/// The items behind the comma.
proof fn lemma_items_behind(a: Seq<char>, b: Seq<char>, i: int)
    requires
        0 <= i,
    ensures
        items_from(a + seq![','] + b, a.len() + 1 + i) == items_from(b, i),
    decreases b.len() + 1 - i,
{
    let s = a + seq![','] + b;
    if i < b.len() {
        lemma_item_end(b, i);
        lemma_end_behind(a, b, i);
        let e = item_end(b, i);
        assert(s.subrange(a.len() + 1 + i, a.len() + 1 + e) =~= b.subrange(i, e));
        lemma_items_behind(a, b, e + 1);
    }
}

/// Where an item ends behind the comma.
proof fn lemma_end_behind(a: Seq<char>, b: Seq<char>, i: int)
    requires
        0 <= i <= b.len(),
    ensures
        item_end(a + seq![','] + b, a.len() + 1 + i) == a.len() + 1 + item_end(b, i),
    decreases b.len() - i,
{
    let s = a + seq![','] + b;
    if i < b.len() {
        assert(s[a.len() + 1 + i] == b[i]);
        if b[i] != ',' {
            lemma_end_behind(a, b, i + 1);
        }
    }
}

/// Where an item ends before the comma.
proof fn lemma_end_before(a: Seq<char>, b: Seq<char>, i: int)
    requires
        0 <= i <= a.len(),
    ensures
        item_end(a + seq![','] + b, i) == item_end(a, i),
    decreases a.len() - i,
{
    let s = a + seq![','] + b;
    if i < a.len() {
        assert(s[i] == a[i]);
        if a[i] != ',' {
            lemma_end_before(a, b, i + 1);
        }
    } else {
        assert(s[i] == ',');
    }
}

/// The items before the comma, and those behind it.
proof fn lemma_items_before(a: Seq<char>, b: Seq<char>, i: int)
    requires
        0 <= i <= a.len(),
    ensures
        items_from(a + seq![','] + b, i) == items_from(a, i) + items_from(
            a + seq![','] + b,
            a.len() as int + 1,
        ),
    decreases a.len() - i,
{
    let s = a + seq![','] + b;
    let rest = items_from(s, a.len() as int + 1);
    lemma_end_before(a, b, i);
    if i < a.len() {
        lemma_item_end(a, i);
        let e = item_end(a, i);
        let item = trimmed(a.subrange(i, e));
        let head = if item.len() == 0 {
            seq![]
        } else {
            seq![item]
        };
        assert(s.subrange(i, e) =~= a.subrange(i, e));
        if e < a.len() {
            lemma_items_before(a, b, e + 1);
            assert(head + (items_from(a, e + 1) + rest) =~= (head + items_from(a, e + 1)) + rest);
        } else {
            assert(items_from(a, e + 1) =~= seq![]);
            assert(head + rest =~= (head + items_from(a, e + 1)) + rest);
        }
    } else {
        assert(item_end(s, i) == i);
        assert(s.subrange(i, i) =~= seq![]);
        assert(trimmed(s.subrange(i, i)).len() == 0);
        assert(items_from(a, i) =~= seq![]);
        assert(items_from(s, i) =~= rest);
        assert(items_from(a, i) + rest =~= rest);
    }
}

/// What is observed is near what is reported exactly if it lies between the ends of the band,
/// these included; and what is near is counted.
pub proof fn near_values_are_counted(values: Seq<(Seq<char>, Real)>)
    ensures
        in_bands(values).len() == reported().len(),
        forall|i: int|
            0 <= i < reported().len() ==> (#[trigger] in_bands(values)[i] <==> ({
                let x = value_under(values, reported()[i].0)->0;
                !x.is_nan() && !x.less(reported()[i].2.0) && !reported()[i].2.1.less(x)
                    && !reported()[i].2.0.is_nan() && !reported()[i].2.1.is_nan()
            })),
        true_ones(in_bands(values)) == in_bands(values).filter(|b: bool| b).len(),
{
    lemma_true_ones(in_bands(values));
}

/// Those that are true are counted.
proof fn lemma_true_ones(s: Seq<bool>)
    ensures
        true_ones(s) == s.filter(|b: bool| b).len(),
    decreases s.len(),
{
    reveal(Seq::filter);
    if s.len() > 0 {
        lemma_true_ones(s.drop_last());
    }
}

} // verus!
