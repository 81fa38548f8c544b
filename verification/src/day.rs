//! A day in the town as a whole, and what every day keeps.
use crate::binary64::{spec_ratio, spec_real, Real};
use crate::bounds::{
    lemma_exact_integer, lemma_halves, lemma_one, lemma_over_ordered, lemma_products_ordered,
    lemma_real_ordered, lemma_sums_ordered, lemma_times_one, plain,
};
use crate::choice::Choice;
use crate::mechanisms::{after_answers, opened, revised, Answer};
use crate::patronage::{
    all_visited, comments_are_bounded, visits_change_comments_only, COMMENTS_KEPT,
};
use crate::prompts::StrategyView;
use crate::reflection::{all_reflected, someone_gives_up, DAYS_REMEMBERED};
use crate::reward::{all_rewarded, rows_of};
use crate::rounding::lemma_units_order;
use crate::world::{
    dish_score, ids_of, increasing, lemma_place_of, menu_prices, menu_scores, real_mean, real_sum,
    spec_kind_of, AgentId, AgentKind, DishView, FirmView, MarketView, WorldView,
};
use vstd::arithmetic::power2::*;
use vstd::prelude::*;

verus! {

/// The town when the customers have come home.
pub open spec fn evening(w: WorldView, answers: Seq<Answer>, choices: Seq<Choice>) -> WorldView {
    all_visited(after_answers(opened(w), answers), choices)
}

/// The town after a day.
pub open spec fn next_day(w: WorldView, answers: Seq<Answer>, choices: Seq<Choice>) -> WorldView {
    let e = evening(w, answers, choices);
    let paid = all_rewarded(e.firms, e.market, e.day);
    WorldView { firms: all_reflected(paid, e.market, e.day), ..e }
}

/// Answers leave in place who is there; of restaurants they change the menu, the salary and
/// the advertisement only, and no dish comes or goes or is renamed.
pub proof fn answers_keep_the_town(w: WorldView, answers: Seq<Answer>)
    requires
        w.wf(),
    ensures
        after_answers(w, answers) == (WorldView { firms: after_answers(w, answers).firms, ..w }),
        ids_of(after_answers(w, answers).firms) == ids_of(w.firms),
        after_answers(w, answers).firms.len() == w.firms.len(),
        forall|i: int|
            0 <= i < w.firms.len() ==> {
                let f = #[trigger] after_answers(w, answers).firms[i].1;
                &&& f == (FirmView {
                    menu: f.menu,
                    chef_salary: f.chef_salary,
                    advertisement: f.advertisement,
                    ..w.firms[i].1
                })
                &&& f.menu.len() == w.firms[i].1.menu.len()
                &&& forall|k: int|
                    0 <= k < f.menu.len() ==> (#[trigger] f.menu[k]).name
                        == w.firms[i].1.menu[k].name && f.menu[k].cost
                        == w.firms[i].1.menu[k].cost
            },
    decreases answers.len(),
{
    let after = after_answers(w, answers);
    if answers.len() > 0 {
        let before = after_answers(w, answers.drop_last());
        answers_keep_the_town(w, answers.drop_last());
        assert(increasing(ids_of(before.firms)));
        lemma_place_of(ids_of(before.firms), answers.last().0);
        assert(ids_of(after.firms) =~= ids_of(before.firms));
        assert forall|i: int| 0 <= i < w.firms.len() implies {
            let f = #[trigger] after.firms[i].1;
            &&& f == (FirmView {
                menu: f.menu,
                chef_salary: f.chef_salary,
                advertisement: f.advertisement,
                ..w.firms[i].1
            })
            &&& f.menu.len() == w.firms[i].1.menu.len()
            &&& forall|k: int|
                0 <= k < f.menu.len() ==> (#[trigger] f.menu[k]).name == w.firms[i].1.menu[k].name
                    && f.menu[k].cost == w.firms[i].1.menu[k].cost
        } by {
            let g = before.firms[i].1;
            assert(g.menu.len() == w.firms[i].1.menu.len());
            let f = after.firms[i].1;
            assert forall|k: int| 0 <= k < f.menu.len() implies (#[trigger] f.menu[k]).name
                == w.firms[i].1.menu[k].name && f.menu[k].cost == w.firms[i].1.menu[k].cost by {
                assert(g.menu[k].name == w.firms[i].1.menu[k].name);
            }
        }
    }
}

/// A day leaves in place who is there and in what order; no restaurant that gave up comes
/// back.
pub proof fn a_day_keeps_the_town(w: WorldView, answers: Seq<Answer>, choices: Seq<Choice>)
    requires
        w.wf(),
        w.partitioned(),
    ensures
        next_day(w, answers, choices).wf(),
        next_day(w, answers, choices).partitioned(),
        ids_of(next_day(w, answers, choices).firms) == ids_of(w.firms),
        ids_of(next_day(w, answers, choices).customers) == ids_of(w.customers),
        forall|i: int|
            0 <= i < w.firms.len() && (#[trigger] next_day(w, answers, choices).firms[i]).1.alive
                ==> w.firms[i].1.alive,
{
    let o = opened(w);
    let a = after_answers(o, answers);
    let e = evening(w, answers, choices);
    let n = next_day(w, answers, choices);
    answers_keep_the_town(o, answers);
    visits_change_comments_only(a, choices);
    assert(ids_of(n.firms) =~= ids_of(e.firms));
    assert(ids_of(n.firms).len() == n.firms.len());
    assert(ids_of(w.firms).len() == w.firms.len());
    assert(ids_of(n.customers).len() == n.customers.len());
    assert(ids_of(w.customers).len() == w.customers.len());
    assert forall|i: int| 0 <= i < n.firms.len() implies spec_kind_of(#[trigger] n.firms[i].0)
        == AgentKind::Firm by {
        assert(ids_of(n.firms)[i] == ids_of(w.firms)[i]);
        assert(w.firms[i].0 == n.firms[i].0);
    }
    assert forall|i: int| 0 <= i < n.customers.len() implies spec_kind_of(
        #[trigger] n.customers[i].0,
    ) == AgentKind::Customer by {
        assert(ids_of(n.customers)[i] == ids_of(w.customers)[i]);
        assert(w.customers[i].0 == n.customers[i].0);
    }
    assert forall|i: int| 0 <= i < w.firms.len() && (#[trigger] n.firms[i]).1.alive implies
        w.firms[i].1.alive by {
        assert(e.firms[i].1.alive == a.firms[i].1.alive);
        assert(a.firms[i].1.alive == o.firms[i].1.alive);
    }
}

/// Restaurants keep no more comments, and remember no more days, than they may.
pub proof fn a_day_keeps_the_bounds(
    w: WorldView,
    answers: Seq<Answer>,
    choices: Seq<Choice>,
    i: int,
)
    requires
        w.wf(),
        0 <= i < w.firms.len(),
        w.firms[i].1.comments.len() <= COMMENTS_KEPT,
        w.firms[i].1.memory.len() <= DAYS_REMEMBERED,
    ensures
        next_day(w, answers, choices).firms[i].1.comments.len() <= COMMENTS_KEPT,
        next_day(w, answers, choices).firms[i].1.memory.len() <= DAYS_REMEMBERED,
{
    let o = opened(w);
    let a = after_answers(o, answers);
    let e = evening(w, answers, choices);
    answers_keep_the_town(o, answers);
    visits_change_comments_only(a, choices);
    assert(a.firms[i].1.comments == w.firms[i].1.comments);
    comments_are_bounded(a, choices, i);
    assert(e.firms[i].1.memory == a.firms[i].1.memory);
    assert(ids_of(e.firms).len() == e.firms.len());
    assert(ids_of(a.firms).len() == a.firms.len());
}

/// What is recorded of a day says the same of the market in every row.
pub proof fn rows_agree_on_the_market(
    firms: Seq<(AgentId, FirmView)>,
    market: MarketView,
    day: u64,
    i: int,
    j: int,
)
    requires
        0 <= i < firms.len(),
        0 <= j < firms.len(),
    ensures
        ({
            let a = rows_of(firms, market, day)[i];
            let b = rows_of(firms, market, day)[j];
            &&& a.day == b.day == day
            &&& a.revenue_gini == b.revenue_gini
            &&& a.market_share_max == b.market_share_max
            &&& a.menu_similarity == b.menu_similarity
            &&& a.n_alive_firms == b.n_alive_firms
        }),
{
}

/// After the night a restaurant is in business if it was and has funds that are not below
/// zero.
pub proof fn only_the_solvent_go_on(
    firms: Seq<(AgentId, FirmView)>,
    market: MarketView,
    day: u64,
    i: int,
)
    requires
        0 <= i < firms.len(),
    ensures
        all_reflected(firms, market, day)[i].1.alive <==> firms[i].1.alive
            && !firms[i].1.funds.less(Real { bits: 0 }),
        firms[i].1.alive && !all_reflected(firms, market, day)[i].1.alive ==> someone_gives_up(
            firms,
        ),
{
}

/// A dish that has a price and a cost: neither is negative, and the price is at least one.
pub open spec fn sound(d: DishView) -> bool {
    &&& d.price.is_finite() && spec_real(1).at_most(d.price)
    &&& d.cost.is_finite() && !d.cost.negative()
    &&& d.chef_salary.is_finite() && !d.chef_salary.negative()
}

/// A salary that is no lower makes for a dish that is no worse, its price unchanged.
proof fn lemma_score_rises(d: DishView, salary: Real)
    requires
        sound(d),
        plain(salary),
        d.chef_salary.value() <= salary.value(),
    ensures
        plain(dish_score(d)),
        plain(dish_score(DishView { chef_salary: salary, ..d })),
        dish_score(d).value() <= dish_score(DishView { chef_salary: salary, ..d }).value(),
{
    let half = spec_ratio(1, 2);
    let cost_ratio = if spec_ratio(1, 1_000_000_000).less(d.price) {
        d.cost.over(d.price)
    } else {
        Real { bits: 0 }
    };
    lemma_one();
    lemma_halves();
    lemma_pow2_pos(1074);
    lemma_units_order(0, half.magnitude());
    lemma_exact_integer(5_000);
    assert(5_000 * pow2(1074) > 0) by (nonlinear_arith)
        requires pow2(1074) > 0;
    lemma_units_order(d.price.magnitude(), 0);
    assert(plain(d.price)) by {
        lemma_units_order(d.price.magnitude(), 0);
    }
    assert(plain(cost_ratio)) by {
        lemma_over_ordered(d.cost, d.cost, d.price);
    }
    lemma_products_ordered(half, cost_ratio, cost_ratio);
    lemma_over_ordered(d.chef_salary, salary, spec_real(5_000));
    lemma_products_ordered(
        half,
        d.chef_salary.over(spec_real(5_000)),
        salary.over(spec_real(5_000)),
    );
    lemma_sums_ordered(
        half.times(cost_ratio),
        half.times(d.chef_salary.over(spec_real(5_000))),
        half.times(cost_ratio),
        half.times(salary.over(spec_real(5_000))),
    );
}

/// Sums of more are no less, term by term.
proof fn lemma_real_sum_ordered(a: Seq<Real>, b: Seq<Real>)
    requires
        a.len() == b.len(),
        forall|i: int|
            0 <= i < a.len() ==> plain(#[trigger] a[i]) && plain(b[i]) && a[i].value()
                <= b[i].value(),
    ensures
        plain(real_sum(a)),
        plain(real_sum(b)),
        real_sum(a).value() <= real_sum(b).value(),
    decreases a.len(),
{
    if a.len() > 0 {
        let n = a.len() - 1;
        assert forall|i: int| 0 <= i < n implies plain(#[trigger] a.drop_last()[i]) && plain(
            b.drop_last()[i],
        ) && a.drop_last()[i].value() <= b.drop_last()[i].value() by {
            assert(a.drop_last()[i] == a[i]);
        }
        lemma_real_sum_ordered(a.drop_last(), b.drop_last());
        assert(plain(a[n]));
        lemma_sums_ordered(real_sum(a.drop_last()), a[n], real_sum(b.drop_last()), b[n]);
    }
}

/// A manager who keeps prices and does not lower the salary of the chef does not lower the
/// quality of the dishes.
pub proof fn investment_does_not_lower_quality(f: FirmView, s: StrategyView)
    requires
        0 < f.menu.len() <= u64::MAX,
        s.price_factor == spec_real(1),
        plain(s.chef_salary),
        forall|k: int|
            0 <= k < f.menu.len() ==> sound(#[trigger] f.menu[k]) && f.menu[k].chef_salary.value()
                <= s.chef_salary.value(),
    ensures
        real_mean(menu_scores(f.menu)).at_most(real_mean(menu_scores(revised(f, s).menu))),
        menu_prices(revised(f, s).menu) == menu_prices(f.menu),
{
    let a = menu_scores(f.menu);
    let b = menu_scores(revised(f, s).menu);
    let n = f.menu.len();
    assert forall|k: int| 0 <= k < n implies #[trigger] revised(f, s).menu[k] == (DishView {
        chef_salary: s.chef_salary,
        ..f.menu[k]
    }) by {
        let d = f.menu[k];
        assert(sound(d));
        lemma_one();
        lemma_pow2_pos(1074);
        assert(plain(d.price)) by {
            lemma_units_order(d.price.magnitude(), 0);
        }
        lemma_times_one(d.price);
        assert(d.price.larger(spec_real(1)) == d.price);
    }
    assert forall|k: int| 0 <= k < n implies plain(#[trigger] a[k]) && plain(b[k]) && a[k].value()
        <= b[k].value() by {
        assert(sound(f.menu[k]));
        assert(revised(f, s).menu[k] == (DishView { chef_salary: s.chef_salary, ..f.menu[k] }));
        lemma_score_rises(f.menu[k], s.chef_salary);
    }
    lemma_real_sum_ordered(a, b);
    lemma2_to64();
    lemma_pow2_strictly_increases(64, 1000);
    lemma_real_ordered(n, n);
    lemma_pow2_pos(1074);
    lemma_over_ordered(real_sum(a), real_sum(b), spec_real(n));
    assert forall|k: int| 0 <= k < n implies #[trigger] menu_prices(revised(f, s).menu)[k]
        == menu_prices(f.menu)[k] by {
        assert(revised(f, s).menu[k] == (DishView { chef_salary: s.chef_salary, ..f.menu[k] }));
    }
    assert(menu_prices(revised(f, s).menu) =~= menu_prices(f.menu));
}

} // verus!
