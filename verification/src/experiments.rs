//! Experiments of many runs: their grids, and what their runs add up to.
use crate::accuracy::PARTS;
use crate::binary64::{ratio, real_of, real_of_wide, spec_ratio, spec_real, Real};
use crate::bounds::{lemma_fraction, lemma_one, lemma_real_ordered};
use crate::config::{CustomerMode, LlmSettings};
use crate::estimates::size;
use crate::metrics::{mean, DailyMetric};
use crate::record::values_view;
use crate::simulation::{last_day, latest, SimulationResult};
use crate::tallies::{
    parts_of_a_number, runs_are_picked_by_their_restaurants, winning_runs_had_a_winner,
};
use crate::text::{
    chars_of, digit_run, is_text, number, number_of, part_of, skip_digits, string_of, trim, trimmed,
};
use crate::world::{real_mean, real_sum, sum_of, texts_view};
use vstd::arithmetic::power2::*;
use vstd::prelude::*;
use vstd::string::*;

verus! {

/// Where the item ends that starts at `i`: at a comma, or at the end.
pub open spec fn item_end(s: Seq<char>, i: int) -> int
    decreases s.len() - i,
{
    if 0 <= i < s.len() && s[i] != ',' {
        item_end(s, i + 1)
    } else {
        i
    }
}

/// An item ends where it starts or later, and not behind the end.
pub proof fn lemma_item_end(s: Seq<char>, i: int)
    requires
        0 <= i <= s.len(),
    ensures
        i <= item_end(s, i) <= s.len(),
    decreases s.len() - i,
{
    if i < s.len() && s[i] != ',' {
        lemma_item_end(s, i + 1);
    }
}

/// The items between commas from `i` on, without the white space around them and without
/// those that are then empty.
pub open spec fn items_from(s: Seq<char>, i: int) -> Seq<Seq<char>>
    decreases s.len() + 1 - i,
{
    if i < 0 || i >= s.len() {
        seq![]
    } else {
        proof {
            lemma_item_end(s, i);
        }
        let item = trimmed(s.subrange(i, item_end(s, i)));
        (if item.len() == 0 {
            seq![]
        } else {
            seq![item]
        }) + items_from(s, item_end(s, i) + 1)
    }
}

/// The items between commas, without the white space around them and without those that are
/// then empty.
pub fn split_csv(s: &str) -> (r: Vec<String>)
    ensures
        texts_view(r@) == items_from(s@, 0),
{
    let v = chars_of(s);
    let n: usize = v.len();
    let mut r: Vec<String> = Vec::new();
    let mut i: usize = 0;
    proof {
        assert(texts_view(r@) + items_from(v@, 0) =~= items_from(v@, 0));
    }
    while i < n
        invariant
            i <= n == v@.len(),
            v@ == s@,
            texts_view(r@) + items_from(v@, i as int) == items_from(s@, 0),
        decreases n - i,
    {
        let ghost before = texts_view(r@);
        let mut e: usize = i;
        while e < n && v[e] != ','
            invariant
                i <= e <= n == v@.len(),
                item_end(v@, i as int) == item_end(v@, e as int),
            decreases n - e,
        {
            e = e + 1;
        }
        let item = trim(&part_of(&v, i, e));
        if item.len() > 0 {
            r.push(string_of(&item));
            proof {
                assert(texts_view(r@) =~= before.push(item@));
            }
        }
        proof {
            assert(texts_view(r@) + items_from(v@, e + 1) =~= before + items_from(v@, i as int));
        }
        if e == n {
            proof {
                assert(texts_view(r@) + items_from(v@, e + 1) =~= texts_view(r@));
            }
            return r;
        }
        i = e + 1;
    }
    proof {
        assert(texts_view(r@) + items_from(v@, i as int) =~= texts_view(r@));
    }
    r
}

/// The number that a text stands for: digits, with a plus sign or without, and not too many.
pub open spec fn count_in(s: Seq<char>) -> Option<nat> {
    let digits = if s.len() > 0 && s[0] == '+' {
        s.skip(1)
    } else {
        s
    };
    if digits.len() > 0 && digit_run(digits, 0) == digits.len() && number(digits) <= usize::MAX {
        Some(number(digits))
    } else {
        None
    }
}

/// The number that a text stands for, if it is one.
pub fn parse_count(s: &str) -> (r: Option<usize>)
    ensures
        match r {
            Some(n) => count_in(s@) == Some(n as nat),
            None => count_in(s@) is None,
        },
{
    let v = chars_of(s);
    let digits = if v.len() > 0 && v[0] == '+' {
        part_of(&v, 1, v.len())
    } else {
        part_of(&v, 0, v.len())
    };
    proof {
        if v@.len() > 0 && v@[0] == '+' {
            assert(digits@ =~= v@.skip(1));
        } else {
            assert(digits@ =~= v@);
        }
    }
    let e: usize = skip_digits(&digits, 0);
    if e == 0 || e < digits.len() {
        return None;
    }
    proof {
        assert(digits@.subrange(0, e as int) =~= digits@);
    }
    match number_of(&digits, 0, e) {
        Some(n) => if n <= usize::MAX as u64 {
            Some(n as usize)
        } else {
            None
        },
        None => None,
    }
}

/// The numbers of restaurants that a list asks for; the first item that is no number, if
/// there is one.
pub fn firm_counts(list: &str) -> (r: Result<Vec<usize>, String>)
    ensures
        match r {
            Ok(counts) => {
                &&& counts@.len() == items_from(list@, 0).len()
                &&& forall|i: int|
                    0 <= i < counts@.len() ==> count_in(items_from(list@, 0)[i]) == Some(
                        #[trigger] counts@[i] as nat,
                    )
            },
            Err(item) => exists|i: int|
                {
                    &&& 0 <= i < items_from(list@, 0).len()
                    &&& item@ == #[trigger] items_from(list@, 0)[i]
                    &&& count_in(item@) is None
                    &&& forall|k: int|
                        0 <= k < i ==> count_in(#[trigger] items_from(list@, 0)[k]) is Some
                },
        },
{
    let items = split_csv(list);
    let ghost all = items_from(list@, 0);
    let mut counts: Vec<usize> = Vec::new();
    let mut i: usize = 0;
    while i < items.len()
        invariant
            i <= items@.len(),
            texts_view(items@) == all,
            all == items_from(list@, 0),
            counts@.len() == i,
            forall|k: int|
                0 <= k < i ==> count_in(all[k]) == Some(#[trigger] counts@[k] as nat),
        decreases items@.len() - i,
    {
        proof {
            assert(all[i as int] == items@[i as int]@);
        }
        match parse_count(items[i].as_str()) {
            Some(n) => {
                counts.push(n);
            },
            None => {
                let item = items[i].clone();
                proof {
                    assert(item@ == all[i as int]);
                    assert forall|k: int| 0 <= k < i implies count_in(#[trigger] all[k]) is Some by {
                        assert(count_in(all[k]) == Some(counts@[k] as nat));
                    }
                }
                return Err(item);
            },
        }
        i = i + 1;
    }
    Ok(counts)
}

/// The numbers from `min` to `max` in steps; only the first where there is no way up.
pub open spec fn steps(min: nat, max: nat, step: nat) -> Seq<nat> {
    if step == 0 || max < min {
        seq![min]
    } else {
        Seq::new(((max - min) as nat / step) + 1, |k: int| (min + k * step) as nat)
    }
}

/// The numbers from `min` to `max` in steps; only the first where there is no way up.
pub fn n_customers_range(min: usize, max: usize, step: usize) -> (r: Vec<usize>)
    ensures
        r@.map_values(|n: usize| n as nat) == steps(min as nat, max as nat, step as nat),
{
    let mut r: Vec<usize> = Vec::new();
    if step == 0 || max < min {
        r.push(min);
        proof {
            assert(r@.map_values(|n: usize| n as nat) =~= steps(
                min as nat,
                max as nat,
                step as nat,
            ));
        }
        return r;
    }
    let ghost all = steps(min as nat, max as nat, step as nat);
    let mut n: usize = min;
    r.push(n);
    while max - n >= step
        invariant
            min <= n <= max,
            step > 0,
            r@.len() >= 1,
            n == min + (r@.len() - 1) * step,
            forall|k: int| 0 <= k < r@.len() ==> #[trigger] r@[k] == min + k * step,
        decreases max - n,
    {
        let ghost before = r@;
        n = n + step;
        r.push(n);
        proof {
            assert((before.len() - 1) * step + step == before.len() * step) by (nonlinear_arith);
            assert forall|k: int| 0 <= k < r@.len() implies #[trigger] r@[k] == min + k * step by {
                if k < before.len() {
                    assert(r@[k] == before[k]);
                }
            }
        }
    }
    proof {
        let q = r@.len() - 1;
        let d = (max - min) as int;
        assert(q * step <= d < q * step + step);
        vstd::arithmetic::div_mod::lemma_fundamental_div_mod_converse(
            d,
            step as int,
            q,
            d - q * step,
        );
        assert(r@.map_values(|n: usize| n as nat) =~= all);
    }
    r
}

/// The settings of the language model of a run; scripted answers are not cached on disk.
pub fn llm_settings(temperature: Real, seed: u64, cache_path: &str, mock: bool) -> (r: LlmSettings)
    ensures
        r.temperature == temperature,
        r.seed == seed,
        match r.cache_path {
            Some(p) => !mock && p@ == cache_path@,
            None => mock,
        },
{
    LlmSettings {
        temperature,
        seed,
        cache_path: if mock {
            None
        } else {
            Some(cache_path.to_owned())
        },
    }
}

/// The size of an experiment.
#[derive(Clone, Copy, Debug, PartialEq, Eq, Structural)]
pub struct Sizes {
    pub n_customers: usize,
    pub days: usize,
    pub individual_runs: usize,
    pub group_runs: usize,
}

/// The size of an experiment: as asked for, or a small one to try it out.
pub fn sizes(asked: Sizes, quick: bool) -> (r: Sizes)
    ensures
        r == if quick {
            Sizes { n_customers: 12, days: 6, individual_runs: 3, group_runs: 2 }
        } else {
            asked
        },
{
    if quick {
        Sizes { n_customers: 12, days: 6, individual_runs: 3, group_runs: 2 }
    } else {
        asked
    }
}

/// Where the first row of a day stands.
pub open spec fn first_row(history: Seq<DailyMetric>, day: u64) -> Option<DailyMetric>
    decreases history.len(),
{
    if history.len() == 0 {
        None
    } else if history[0].day == day {
        Some(history[0])
    } else {
        first_row(history.drop_first(), day)
    }
}

/// The first row of the last day.
pub fn final_row(history: &[DailyMetric]) -> (r: Option<DailyMetric>)
    ensures
        r == first_row(history@, latest(history@)),
{
    let day: u64 = last_day(history);
    let mut i: usize = 0;
    proof {
        assert(history@.skip(0) =~= history@);
    }
    while i < history.len()
        invariant
            i <= history@.len(),
            day == latest(history@),
            first_row(history@, day) == first_row(history@.skip(i as int), day),
        decreases history@.len() - i,
    {
        proof {
            assert(history@.skip(i as int)[0] == history@[i as int]);
            assert(history@.skip(i as int).drop_first() =~= history@.skip(i + 1));
        }
        if history[i].day == day {
            return Some(history[i]);
        }
        i = i + 1;
    }
    None
}

/// How many trials are made: as many as asked for, at least one. The last one is recorded.
pub fn trial_count(runs: usize) -> (n: usize)
    ensures
        n == if runs == 0 {
            1
        } else {
            runs as int
        },
{
    if runs == 0 {
        1
    } else {
        runs
    }
}

/// The trials of a sweep: number `k` is of which number of restaurants and of customers, and
/// which one of these it is.
pub open spec fn spec_cell(firms: Seq<usize>, customers: Seq<usize>, runs: nat, k: int) -> (
    usize,
    usize,
    usize,
) {
    let per_firms = (customers.len() * runs) as int;
    (
        firms[k / per_firms],
        customers[(k % per_firms) / (runs as int)],
        ((k % per_firms) % (runs as int)) as usize,
    )
}

/// The trials of a sweep, for each number of restaurants, for each number of customers, one
/// after the other.
pub open spec fn cells(firms: Seq<usize>, customers: Seq<usize>, runs: nat) -> Seq<
    (usize, usize, usize),
> {
    Seq::new(
        firms.len() * (customers.len() * runs),
        |k: int| spec_cell(firms, customers, runs, k),
    )
}

/// The trials of a sweep.
pub fn sweep_cells(firms: &[usize], customers: &[usize], runs: usize) -> (r: Vec<
    (usize, usize, usize),
>)
    ensures
        r@ == cells(firms@, customers@, runs as nat),
{
    let n: usize = firms.len();
    let m: usize = customers.len();
    let ghost c = m * runs;
    let mut r: Vec<(usize, usize, usize)> = Vec::new();
    let mut i: usize = 0;
    proof {
        assert(0 * c == 0);
    }
    while i < n
        invariant
            i <= n == firms@.len(),
            m == customers@.len(),
            c == m * runs,
            r@.len() == i * c,
            forall|k: int|
                0 <= k < i * c ==> #[trigger] r@[k] == spec_cell(
                    firms@,
                    customers@,
                    runs as nat,
                    k,
                ),
        decreases n - i,
    {
        let mut j: usize = 0;
        proof {
            assert(0 * runs == 0);
        }
        while j < m
            invariant
                i < n == firms@.len(),
                j <= m == customers@.len(),
                c == m * runs,
                r@.len() == i * c + j * runs,
                forall|k: int|
                    0 <= k < i * c + j * runs ==> #[trigger] r@[k] == spec_cell(
                        firms@,
                        customers@,
                        runs as nat,
                        k,
                    ),
            decreases m - j,
        {
            let mut k: usize = 0;
            while k < runs
                invariant
                    i < n == firms@.len(),
                    j < m == customers@.len(),
                    k <= runs,
                    c == m * runs,
                    r@.len() == i * c + j * runs + k,
                    forall|h: int|
                        0 <= h < i * c + j * runs + k ==> #[trigger] r@[h] == spec_cell(
                            firms@,
                            customers@,
                            runs as nat,
                            h,
                        ),
                decreases runs - k,
            {
                proof {
                    lemma_cell(firms@, customers@, runs as nat, i as int, j as int, k as int);
                }
                r.push((firms[i], customers[j], k));
                k = k + 1;
            }
            proof {
                assert((j + 1) * runs == j * runs + runs) by (nonlinear_arith);
            }
            j = j + 1;
        }
        proof {
            assert((i + 1) * c == i * c + c) by (nonlinear_arith);
        }
        i = i + 1;
    }
    proof {
        assert(r@ =~= cells(firms@, customers@, runs as nat));
    }
    r
}

/// Where a trial of a sweep stands.
pub proof fn lemma_cell(firms: Seq<usize>, customers: Seq<usize>, runs: nat, i: int, j: int, k: int)
    requires
        0 <= i < firms.len(),
        0 <= j < customers.len(),
        0 <= k < runs <= usize::MAX,
    ensures
        ({
            let place = i * (customers.len() * runs) + j * runs + k;
            &&& 0 <= place < firms.len() * (customers.len() * runs)
            &&& spec_cell(firms, customers, runs, place) == (firms[i], customers[j], k as usize)
        }),
{
    let c = (customers.len() * runs) as int;
    let within = j * runs + k;
    assert(0 <= j * runs && j * runs + runs <= c) by (nonlinear_arith)
        requires
            0 <= j < customers.len(),
            c == customers.len() * runs,
            runs >= 0,
    ;
    assert(0 <= i * c && i * c + c <= firms.len() * c) by (nonlinear_arith)
        requires
            0 <= i < firms.len(),
            c >= 0,
    ;
    vstd::arithmetic::div_mod::lemma_fundamental_div_mod_converse(i * c + within, c, i, within);
    vstd::arithmetic::div_mod::lemma_fundamental_div_mod_converse(within, runs as int, j, k);
}

/// Every trial of every cell of a sweep stands in its list, and no two places hold the same
/// trial of the same cell.
pub proof fn every_cell_is_tried_once(
    firms: Seq<usize>,
    customers: Seq<usize>,
    runs: nat,
    i: int,
    j: int,
    k: int,
)
    requires
        0 <= i < firms.len(),
        0 <= j < customers.len(),
        0 <= k < runs <= usize::MAX,
    ensures
        cells(firms, customers, runs).contains((firms[i], customers[j], k as usize)),
        firms.no_duplicates() && customers.no_duplicates() ==> cells(
            firms,
            customers,
            runs,
        ).no_duplicates(),
{
    let all = cells(firms, customers, runs);
    let c = (customers.len() * runs) as int;
    lemma_cell(firms, customers, runs, i, j, k);
    assert(all.contains(all[i * c + j * runs + k]));
    if firms.no_duplicates() && customers.no_duplicates() {
        assert forall|a: int, b: int| 0 <= a < all.len() && 0 <= b < all.len() && a != b implies
            all[a] != all[b] by {
            lemma_cell_parts(firms, customers, runs, a);
            lemma_cell_parts(firms, customers, runs, b);
        }
    }
}

/// What stands at a place of the list of a sweep.
proof fn lemma_cell_parts(firms: Seq<usize>, customers: Seq<usize>, runs: nat, a: int)
    requires
        0 <= a < firms.len() * (customers.len() * runs),
        runs <= usize::MAX,
    ensures
        ({
            let c = (customers.len() * runs) as int;
            let i = a / c;
            let j = (a % c) / (runs as int);
            let k = (a % c) % (runs as int);
            &&& 0 <= i < firms.len()
            &&& 0 <= j < customers.len()
            &&& 0 <= k < runs
            &&& a == i * c + j * runs + k
        }),
{
    let c = (customers.len() * runs) as int;
    assert(c > 0 && runs > 0) by (nonlinear_arith)
        requires
            0 <= a < firms.len() * c,
            c == customers.len() * runs,
            runs >= 0,
            firms.len() >= 0,
            customers.len() >= 0,
    ;
    vstd::arithmetic::div_mod::lemma_fundamental_div_mod(a, c);
    vstd::arithmetic::div_mod::lemma_fundamental_div_mod(a % c, runs as int);
    let i = a / c;
    let j = (a % c) / (runs as int);
    assert(0 <= i < firms.len()) by (nonlinear_arith)
        requires
            0 <= a < firms.len() * c,
            a == c * i + a % c,
            0 <= a % c < c,
    ;
    assert(0 <= j < customers.len()) by (nonlinear_arith)
        requires
            0 <= a % c < c,
            c == customers.len() * runs,
            a % c == runs * j + (a % c) % (runs as int),
            0 <= (a % c) % (runs as int) < runs,
    ;
    assert(c * i == i * c && runs * j == j * runs) by (nonlinear_arith);
}

/// What a run contributes to an experiment.
#[derive(Clone, Copy, Debug, PartialEq, Eq, Structural)]
pub struct Trial {
    pub winner_take_all: bool,
    pub quality_improved: bool,
    /// The first row of the last day.
    pub last: Option<DailyMetric>,
}

/// What a run contributes to an experiment.
pub fn trial(result: &SimulationResult) -> (r: Trial)
    ensures
        r.winner_take_all == result.winner_take_all,
        r.quality_improved == result.quality_improved,
        r.last == first_row(result.metrics_history@, latest(result.metrics_history@)),
{
    Trial {
        winner_take_all: result.winner_take_all,
        quality_improved: result.quality_improved,
        last: final_row(result.metrics_history.as_slice()),
    }
}

/// How many of the trials had a winner that took all.
pub open spec fn winners(trials: Seq<Trial>) -> nat
    decreases trials.len(),
{
    if trials.len() == 0 {
        0
    } else {
        winners(trials.drop_last()) + (if trials.last().winner_take_all {
            1nat
        } else {
            0nat
        })
    }
}

/// In how many of the trials dishes got better.
pub open spec fn improvements(trials: Seq<Trial>) -> nat
    decreases trials.len(),
{
    if trials.len() == 0 {
        0
    } else {
        improvements(trials.drop_last()) + (if trials.last().quality_improved {
            1nat
        } else {
            0nat
        })
    }
}

/// The last rows of trials that have one.
pub open spec fn last_rows(trials: Seq<Trial>) -> Seq<DailyMetric>
    decreases trials.len(),
{
    if trials.len() == 0 {
        seq![]
    } else {
        match trials.last().last {
            Some(m) => last_rows(trials.drop_last()).push(m),
            None => last_rows(trials.drop_last()),
        }
    }
}

/// What the trials of one kind of customers add up to.
#[derive(Clone, Copy, Debug, PartialEq, Eq, Structural)]
pub struct ReproCell {
    pub customer_mode: CustomerMode,
    pub runs: usize,
    pub wta_count: usize,
    /// In what part of the trials one restaurant took all.
    pub wta_freq: Real,
    pub quality_count: usize,
    /// In what part of the trials dishes got better.
    pub quality_freq: Real,
    pub mean_menu_similarity: Real,
    pub mean_final_gini: Real,
    pub mean_final_share_max: Real,
}

/// What trials add up to.
pub open spec fn cell_of(mode: CustomerMode, trials: Seq<Trial>) -> ReproCell {
    let n = spec_real(trials.len());
    let rows = last_rows(trials);
    ReproCell {
        customer_mode: mode,
        runs: trials.len() as usize,
        wta_count: winners(trials) as usize,
        wta_freq: spec_real(winners(trials)).over(n),
        quality_count: improvements(trials) as usize,
        quality_freq: spec_real(improvements(trials)).over(n),
        mean_menu_similarity: real_sum(
            rows.map_values(|m: DailyMetric| m.menu_similarity),
        ).over(n),
        mean_final_gini: real_sum(rows.map_values(|m: DailyMetric| m.revenue_gini)).over(n),
        mean_final_share_max: real_sum(rows.map_values(|m: DailyMetric| m.market_share_max)).over(
            n,
        ),
    }
}

/// What the trials of one kind of customers add up to.
pub fn repro_cell(mode: CustomerMode, trials: &[Trial]) -> (r: ReproCell)
    requires
        trials@.len() >= 1,
    ensures
        r == cell_of(mode, trials@),
{
    let total: usize = trials.len();
    let mut wins: usize = 0;
    let mut better: usize = 0;
    let mut menu: Vec<Real> = Vec::new();
    let mut gini: Vec<Real> = Vec::new();
    let mut share: Vec<Real> = Vec::new();
    let mut i: usize = 0;
    while i < total
        invariant
            i <= total == trials@.len(),
            wins == winners(trials@.take(i as int)),
            better == improvements(trials@.take(i as int)),
            wins <= i,
            better <= i,
            menu@ =~= last_rows(trials@.take(i as int)).map_values(
                |m: DailyMetric| m.menu_similarity,
            ),
            gini@ =~= last_rows(trials@.take(i as int)).map_values(
                |m: DailyMetric| m.revenue_gini,
            ),
            share@ =~= last_rows(trials@.take(i as int)).map_values(
                |m: DailyMetric| m.market_share_max,
            ),
        decreases total - i,
    {
        let t = trials[i];
        proof {
            assert(trials@.take(i + 1).drop_last() =~= trials@.take(i as int));
            assert(trials@.take(i + 1).last() == t);
        }
        if t.winner_take_all {
            wins = wins + 1;
        }
        if t.quality_improved {
            better = better + 1;
        }
        if let Some(m) = t.last {
            menu.push(m.menu_similarity);
            gini.push(m.revenue_gini);
            share.push(m.market_share_max);
        }
        i = i + 1;
    }
    proof {
        assert(trials@.take(total as int) =~= trials@);
    }
    let n = real_of(total as u64);
    ReproCell {
        customer_mode: mode,
        runs: total,
        wta_count: wins,
        wta_freq: real_of(wins as u64).over(n),
        quality_count: better,
        quality_freq: real_of(better as u64).over(n),
        mean_menu_similarity: sum_of(menu.as_slice()).over(n),
        mean_final_gini: sum_of(gini.as_slice()).over(n),
        mean_final_share_max: sum_of(share.as_slice()).over(n),
    }
}

/// No more trials have a winner, or better dishes, than there are.
proof fn lemma_counts_within(trials: Seq<Trial>)
    ensures
        winners(trials) <= trials.len(),
        improvements(trials) <= trials.len(),
    decreases trials.len(),
{
    if trials.len() > 0 {
        lemma_counts_within(trials.drop_last());
    }
}

/// What happens in a part of the trials happens in a part between zero and one.
pub proof fn frequencies_are_fractions(mode: CustomerMode, trials: Seq<Trial>)
    requires
        1 <= trials.len() <= usize::MAX,
    ensures
        ({
            let c = cell_of(mode, trials);
            &&& (Real { bits: 0 }).at_most(c.wta_freq) && c.wta_freq.at_most(spec_real(1))
            &&& (Real { bits: 0 }).at_most(c.quality_freq) && c.quality_freq.at_most(spec_real(1))
        }),
{
    lemma_counts_within(trials);
    lemma2_to64();
    lemma2_to64_rest();
    lemma_pow2_strictly_increases(64, 1000);
    lemma_pow2_pos(1074);
    lemma_one();
    lemma_real_ordered(winners(trials), trials.len());
    lemma_real_ordered(improvements(trials), trials.len());
    lemma_real_ordered(trials.len(), trials.len());
    lemma_fraction(spec_real(winners(trials)), spec_real(trials.len()));
    lemma_fraction(spec_real(improvements(trials)), spec_real(trials.len()));
}

/// In what part of all trials dishes got better.
pub open spec fn quality_freq_all(a: ReproCell, b: ReproCell) -> Real {
    let total = a.runs + b.runs;
    spec_real((a.quality_count + b.quality_count) as nat).over(
        spec_real(
            if total == 0 {
                1
            } else {
                total as nat
            },
        ),
    )
}

/// The mean similarity of menus over all trials.
pub open spec fn menu_similarity_all(a: ReproCell, b: ReproCell) -> Real {
    let total = a.runs + b.runs;
    a.mean_menu_similarity.times(spec_real(a.runs as nat)).plus(
        b.mean_menu_similarity.times(spec_real(b.runs as nat)),
    ).over(
        spec_real(
            if total == 0 {
                1
            } else {
                total as nat
            },
        ),
    )
}

/// What an experiment observes, name by name.
pub open spec fn observed_values(individual: ReproCell, group: ReproCell) -> Seq<
    (Seq<char>, Real),
> {
    seq![
        ("wta_freq_individual"@, individual.wta_freq),
        ("wta_freq_group"@, group.wta_freq),
        ("quality_freq_individual"@, individual.quality_freq),
        ("quality_freq_group"@, group.quality_freq),
        ("quality_freq_all"@, quality_freq_all(individual, group)),
        ("menu_similarity_individual"@, individual.mean_menu_similarity),
        ("menu_similarity_group"@, group.mean_menu_similarity),
        ("menu_similarity_all"@, menu_similarity_all(individual, group)),
        ("final_gini_individual"@, individual.mean_final_gini),
        ("final_gini_group"@, group.mean_final_gini),
        ("final_share_max_individual"@, individual.mean_final_share_max),
        ("final_share_max_group"@, group.mean_final_share_max),
        ("wta_freq_gap_individual_minus_group"@, individual.wta_freq.minus(group.wta_freq)),
    ]
}

/// What an experiment observes, name by name.
pub fn observed(individual: &ReproCell, group: &ReproCell) -> (r: Vec<(&'static str, Real)>)
    ensures
        values_view(r@) == observed_values(*individual, *group),
{
    let sum: u128 = individual.runs as u128 + group.runs as u128;
    let total = real_of_wide(
        if sum == 0 {
            1
        } else {
            sum
        },
    );
    let better: u128 = individual.quality_count as u128 + group.quality_count as u128;
    let menu = individual.mean_menu_similarity.times(real_of(individual.runs as u64)).plus(
        group.mean_menu_similarity.times(real_of(group.runs as u64)),
    );
    let mut r: Vec<(&'static str, Real)> = Vec::new();
    r.push(("wta_freq_individual", individual.wta_freq));
    r.push(("wta_freq_group", group.wta_freq));
    r.push(("quality_freq_individual", individual.quality_freq));
    r.push(("quality_freq_group", group.quality_freq));
    r.push(("quality_freq_all", real_of_wide(better).over(total)));
    r.push(("menu_similarity_individual", individual.mean_menu_similarity));
    r.push(("menu_similarity_group", group.mean_menu_similarity));
    r.push(("menu_similarity_all", menu.over(total)));
    r.push(("final_gini_individual", individual.mean_final_gini));
    r.push(("final_gini_group", group.mean_final_gini));
    r.push(("final_share_max_individual", individual.mean_final_share_max));
    r.push(("final_share_max_group", group.mean_final_share_max));
    r.push(("wta_freq_gap_individual_minus_group", individual.wta_freq.minus(group.wta_freq)));
    proof {
        assert(values_view(r@) =~= observed_values(*individual, *group));
    }
    r
}

/// A value that the paper reports.
#[derive(Clone, Copy, Debug)]
pub struct PaperValue {
    /// The name under which it is observed.
    pub name: &'static str,
    pub value: Real,
    pub target_id: &'static str,
    pub source: &'static str,
    /// From where to where an observation counts as near.
    pub band: (Real, Real),
}

/// What the paper reports, name by name: the value, and the band around it.
pub open spec fn reported() -> Seq<(Seq<char>, Real, (Real, Real))> {
    seq![
        (
            "wta_freq_individual"@,
            spec_ratio(667, 1_000),
            (
                spec_ratio(667, 1_000).minus(spec_ratio(15, 100)),
                spec_ratio(667, 1_000).plus(spec_ratio(15, 100)),
            ),
        ),
        (
            "wta_freq_group"@,
            spec_ratio(167, 1_000),
            (Real { bits: 0 }, spec_ratio(167, 1_000).plus(spec_ratio(15, 100))),
        ),
        (
            "quality_freq_all"@,
            spec_ratio(8_667, 10_000),
            (spec_ratio(8_667, 10_000).minus(spec_ratio(1, 10)), spec_real(1)),
        ),
        (
            "menu_similarity_all"@,
            spec_ratio(36, 100),
            (
                spec_ratio(36, 100).minus(spec_ratio(1, 10)),
                spec_ratio(36, 100).plus(spec_ratio(1, 10)),
            ),
        ),
    ]
}

pub open spec fn reports_view(values: Seq<PaperValue>) -> Seq<(Seq<char>, Real, (Real, Real))> {
    values.map_values(|v: PaperValue| (v.name@, v.value, v.band))
}

/// What the paper reports.
pub fn paper_values() -> (r: Vec<PaperValue>)
    ensures
        reports_view(r@) == reported(),
        r@[0].target_id@ == "table2"@,
        r@[1].target_id@ == "table2"@,
        r@[2].target_id@ == "table2"@,
        r@[3].target_id@ == "differentiation-imitation-equilibrium"@,
        r@[0].source@
            == "Zhao et al. (2024), Table 2 — winner-take-all with individual customers (66.7%)"@,
        r@[1].source@
            == "Zhao et al. (2024), Table 2 — winner-take-all with group customers (16.7%)"@,
        r@[2].source@
            == "Zhao et al. (2024), Table 2 — quality improvement across all runs (86.67%)"@,
        r@[3].source@
            == "Zhao et al. (2024), §4 — menu similarity at the dynamic equilibrium (approx. 36%)"@,
{
    let mut r: Vec<PaperValue> = Vec::new();
    r.push(
        PaperValue {
            name: "wta_freq_individual",
            value: ratio(667, 1_000),
            target_id: "table2",
            source: "Zhao et al. (2024), Table 2 — winner-take-all with individual customers (66.7%)",
            band: (
                ratio(667, 1_000).minus(ratio(15, 100)),
                ratio(667, 1_000).plus(ratio(15, 100)),
            ),
        },
    );
    r.push(
        PaperValue {
            name: "wta_freq_group",
            value: ratio(167, 1_000),
            target_id: "table2",
            source: "Zhao et al. (2024), Table 2 — winner-take-all with group customers (16.7%)",
            band: (Real { bits: 0 }, ratio(167, 1_000).plus(ratio(15, 100))),
        },
    );
    r.push(
        PaperValue {
            name: "quality_freq_all",
            value: ratio(8_667, 10_000),
            target_id: "table2",
            source: "Zhao et al. (2024), Table 2 — quality improvement across all runs (86.67%)",
            band: (ratio(8_667, 10_000).minus(ratio(1, 10)), real_of(1)),
        },
    );
    r.push(
        PaperValue {
            name: "menu_similarity_all",
            value: ratio(36, 100),
            target_id: "differentiation-imitation-equilibrium",
            source: "Zhao et al. (2024), §4 — menu similarity at the dynamic equilibrium (approx. 36%)",
            band: (ratio(36, 100).minus(ratio(1, 10)), ratio(36, 100).plus(ratio(1, 10))),
        },
    );
    proof {
        assert(reports_view(r@) =~= reported());
    }
    r
}

/// Whether an observation is near what the paper reports.
pub fn in_band(value: &PaperValue, observation: Real) -> (r: bool)
    ensures
        r == (value.band.0.at_most(observation) && observation.at_most(value.band.1)),
        !observation.is_nan() && !value.band.0.is_nan() && !value.band.1.is_nan() ==> (r <==> (
        value.band.0.value() <= observation.value() <= value.band.1.value())),
{
    value.band.0.at_most(observation) && observation.at_most(value.band.1)
}

/// The first value under a name.
pub open spec fn value_under(values: Seq<(Seq<char>, Real)>, name: Seq<char>) -> Option<Real>
    decreases values.len(),
{
    if values.len() == 0 {
        None
    } else if values[0].0 == name {
        Some(values[0].1)
    } else {
        value_under(values.drop_first(), name)
    }
}

/// The first value under a name.
pub fn value_of(values: &[(&'static str, Real)], name: &str) -> (r: Option<Real>)
    ensures
        r == value_under(values_view(values@), name@),
{
    let ghost all = values_view(values@);
    let key = chars_of(name);
    let mut i: usize = 0;
    proof {
        assert(all.skip(0) =~= all);
    }
    while i < values.len()
        invariant
            i <= values@.len(),
            all == values_view(values@),
            key@ == name@,
            value_under(all, name@) == value_under(all.skip(i as int), name@),
        decreases values@.len() - i,
    {
        proof {
            assert(all.skip(i as int)[0] == all[i as int]);
            assert(all.skip(i as int).drop_first() =~= all.skip(i + 1));
        }
        if is_text(&key, values[i].0) {
            return Some(values[i].1);
        }
        i = i + 1;
    }
    None
}

/// Everything that the paper reports is observed.
pub open spec fn all_observed(values: Seq<(Seq<char>, Real)>) -> bool {
    forall|i: int|
        0 <= i < reported().len() ==> value_under(values, (#[trigger] reported()[i]).0) is Some
}

/// Of each value that the paper reports, whether what is observed lies in its band.
pub open spec fn in_bands(values: Seq<(Seq<char>, Real)>) -> Seq<bool> {
    reported().map_values(
        |p: (Seq<char>, Real, (Real, Real))|
            {
                let x = value_under(values, p.0)->0;
                p.2.0.at_most(x) && x.at_most(p.2.1)
            },
    )
}

/// Of each value that the paper reports, in order, whether what is observed is near it.
pub fn anchors(values: &[(&'static str, Real)]) -> (r: Vec<bool>)
    requires
        all_observed(values_view(values@)),
    ensures
        r@ == in_bands(values_view(values@)),
{
    let ghost all = values_view(values@);
    let reports = paper_values();
    let mut r: Vec<bool> = Vec::new();
    let mut i: usize = 0;
    while i < reports.len()
        invariant
            i <= reports@.len(),
            reports_view(reports@) == reported(),
            all == values_view(values@),
            all_observed(all),
            r@ =~= in_bands(all).take(i as int),
        decreases reports@.len() - i,
    {
        proof {
            assert(reports_view(reports@)[i as int] == reported()[i as int]);
            assert(value_under(all, reported()[i as int].0) is Some);
        }
        if let Some(x) = value_of(values, reports[i].name) {
            r.push(in_band(&reports[i], x));
        }
        i = i + 1;
    }
    proof {
        assert(reports_view(reports@).len() == reported().len());
    }
    r
}

/// How many are true.
pub open spec fn true_ones(s: Seq<bool>) -> nat
    decreases s.len(),
{
    if s.len() == 0 {
        0
    } else {
        true_ones(s.drop_last()) + (if s.last() {
            1nat
        } else {
            0nat
        })
    }
}

/// How many observations are near what the paper reports.
pub fn near_count(anchors: &[bool]) -> (r: usize)
    ensures
        r == true_ones(anchors@),
{
    let mut r: usize = 0;
    let mut i: usize = 0;
    while i < anchors.len()
        invariant
            r <= i <= anchors@.len(),
            r == true_ones(anchors@.take(i as int)),
        decreases anchors@.len() - i,
    {
        proof {
            assert(anchors@.take(i + 1).drop_last() =~= anchors@.take(i as int));
            assert(anchors@.take(i + 1).last() == anchors@[i as int]);
        }
        if anchors[i] {
            r = r + 1;
        }
        i = i + 1;
    }
    proof {
        assert(anchors@.take(anchors@.len() as int) =~= anchors@);
    }
    r
}

/// Whether one restaurant takes all more often where customers decide for themselves, as the
/// paper has it.
pub fn groups_soften(individual: &ReproCell, group: &ReproCell) -> (r: bool)
    ensures
        r == group.wta_freq.less(individual.wta_freq),
        r ==> group.wta_freq.value() < individual.wta_freq.value(),
        !r ==> group.wta_freq.is_nan() || individual.wta_freq.is_nan()
            || individual.wta_freq.value() <= group.wta_freq.value(),
{
    group.wta_freq.less(individual.wta_freq)
}

/// What stands under a name somewhere is found.
proof fn lemma_value_found(values: Seq<(Seq<char>, Real)>, i: int)
    requires
        0 <= i < values.len(),
    ensures
        value_under(values, values[i].0) is Some,
    decreases i,
{
    if values[0].0 != values[i].0 {
        assert(values.drop_first()[i - 1] == values[i]);
        lemma_value_found(values.drop_first(), i - 1);
    }
}

/// Whatever the trials gave, everything that the paper reports is observed.
pub proof fn every_anchor_is_observed(individual: ReproCell, group: ReproCell)
    ensures
        all_observed(observed_values(individual, group)),
        value_under(
            observed_values(individual, group),
            "wta_freq_gap_individual_minus_group"@,
        ) is Some,
{
    let values = observed_values(individual, group);
    lemma_value_found(values, 0);
    lemma_value_found(values, 1);
    lemma_value_found(values, 4);
    lemma_value_found(values, 7);
    lemma_value_found(values, 12);
}

/// The runs of a sweep with so many restaurants.
pub open spec fn runs_with(runs: Seq<(usize, bool, Real)>, n_firms: usize) -> Seq<
    (usize, bool, Real),
>
    decreases runs.len(),
{
    if runs.len() == 0 {
        seq![]
    } else if runs.last().0 == n_firms {
        runs_with(runs.drop_last(), n_firms).push(runs.last())
    } else {
        runs_with(runs.drop_last(), n_firms)
    }
}

/// How many runs had a winner that took all.
pub open spec fn winning_runs(runs: Seq<(usize, bool, Real)>) -> nat
    decreases runs.len(),
{
    if runs.len() == 0 {
        0
    } else {
        winning_runs(runs.drop_last()) + (if runs.last().1 {
            1nat
        } else {
            0nat
        })
    }
}

/// In what part of the runs with so many restaurants one took all, and their mean Gini
/// coefficient; `None` if there are no such runs. A run is given as the number of its
/// restaurants, whether one took all, and its Gini coefficient.
pub fn sweep_summary(runs: &[(usize, bool, Real)], n_firms: usize) -> (r: Option<(Real, Real)>)
    ensures
        ({
            let rows = runs_with(runs@, n_firms);
            r == if rows.len() == 0 {
                None
            } else {
                Some(
                    (
                        spec_real(winning_runs(rows)).over(spec_real(rows.len())),
                        real_mean(rows.map_values(|e: (usize, bool, Real)| e.2)),
                    ),
                )
            }
        }),
        r is None <==> forall|i: int| 0 <= i < runs@.len() ==> (#[trigger] runs@[i]).0 != n_firms,
        r is Some ==> ({
            let rows = runs@.filter(|e: (usize, bool, Real)| e.0 == n_firms);
            let won = rows.filter(|e: (usize, bool, Real)| e.1).len();
            let freq = (r->0).0;
            &&& won == rows.len() ==> freq == spec_real(1)
            &&& won == 0 ==> freq.value() == 0
            &&& rows.len() <= 0x20_0000_0000_0000 ==> size(
                freq.value() * rows.len() - won * pow2(1074),
            ) * PARTS <= won * pow2(1074) + rows.len() * PARTS
        }),
{
    let ghost rows = runs_with(runs@, n_firms);
    let mut wins: usize = 0;
    let mut ginis: Vec<Real> = Vec::new();
    let mut i: usize = 0;
    while i < runs.len()
        invariant
            i <= runs@.len(),
            ginis@ =~= runs_with(runs@.take(i as int), n_firms).map_values(
                |e: (usize, bool, Real)| e.2,
            ),
            wins == winning_runs(runs_with(runs@.take(i as int), n_firms)),
            wins <= i,
        decreases runs@.len() - i,
    {
        let (n, won, gini) = runs[i];
        proof {
            let now = runs@.take(i + 1);
            assert(now.drop_last() =~= runs@.take(i as int));
            assert(now.last() == runs@[i as int]);
            let before = runs_with(runs@.take(i as int), n_firms);
            assert(before.push(runs@[i as int]).drop_last() =~= before);
        }
        if n == n_firms {
            ginis.push(gini);
            if won {
                wins = wins + 1;
            }
        }
        i = i + 1;
    }
    proof {
        assert(runs@.take(runs@.len() as int) =~= runs@);
        runs_are_picked_by_their_restaurants(runs@, n_firms);
        winning_runs_had_a_winner(rows);
        assert(ginis@.len() == rows.len());
        if rows.len() > 0 {
            assert(rows[0].0 == n_firms);
            assert(runs@.contains(rows[0]));
            parts_of_a_number(winning_runs(rows), rows.len());
        } else {
            assert forall|i: int| 0 <= i < runs@.len() implies (#[trigger] runs@[i]).0
                != n_firms by {
                if runs@[i].0 == n_firms {
                    assert(rows.contains(runs@[i]));
                }
            }
        }
    }
    if ginis.len() == 0 {
        return None;
    }
    Some(
        (real_of(wins as u64).over(real_of(ginis.len() as u64)), mean(ginis.as_slice())),
    )
}

} // verus!
