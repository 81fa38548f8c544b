//! The course of a run: its days one after the other, and what holds of all of them.
use crate::binary64::{spec_ratio, spec_real, Real};
use crate::bounds::{lemma_one, lemma_plus_grows, lemma_sums_ordered, plain};
use crate::choice::{asked_ids, everyone_is_asked_once, with_number, Choice};
use crate::config::{Config, CustomerMode};
use crate::day::{a_day_keeps_the_town, answers_keep_the_town, evening, next_day};
use crate::mechanisms::{after_answers, offers_of, opened, questions_of, revised_dish, Answer};
use crate::metrics::{
    count_sum, distances, gini_is_a_fraction, menu_similarity_is_a_fraction, share_is_a_fraction,
    similarities, spec_share, wins_all, DailyMetric,
};
use crate::patronage::{all_visited, cheapest, market_after, serves, visits_change_comments_only};
use crate::prompts::{answer_fields, strategy_of};
use crate::reflection::{all_reflected, someone_gives_up};
use crate::reward::{alive_menus, all_rewarded, day_counts, revenues, row_of, rows_of};
use crate::simulation::{
    counts_on, days_of, first_world, share_series, the_first_world_is_in_order, CustomerDraw,
    FirmDraw, WTA_START_DAY,
};
use crate::world::{
    alive_ids, ids_of, increasing, lemma_place_of, place_of, real_sum, spec_kind_of, AgentId,
    AgentKind, DishView, FirmView, MarketView, WorldView, CUSTOMER_ID_BASE,
};
use vstd::arithmetic::power2::*;
use vstd::prelude::*;

verus! {

/// What is decided on a day: what the managers answer, and where the customers go.
#[verifier::ext_equal]
pub struct Decisions {
    pub answers: Seq<Answer>,
    pub choices: Seq<Choice>,
}

/// The town when one more day has begun.
pub open spec fn begun(w: WorldView) -> WorldView {
    WorldView { t: (w.t + 1) as u64, ..w }
}

/// The town at the start of its next day, before anyone answers.
pub open spec fn morning(w: WorldView) -> WorldView {
    opened(begun(w))
}

/// The town on its next day when the customers have come home.
#[verifier::opaque]
pub open spec fn night(w: WorldView, d: Decisions) -> WorldView {
    evening(begun(w), d.answers, d.choices)
}

/// The restaurants on the next day when takings and costs are settled.
pub open spec fn paid_firms(w: WorldView, d: Decisions) -> Seq<(AgentId, FirmView)> {
    let e = night(w, d);
    all_rewarded(e.firms, e.market, e.day)
}

/// What is recorded of the next day.
#[verifier::opaque]
pub open spec fn rows_on(w: WorldView, d: Decisions) -> Seq<DailyMetric> {
    rows_of(paid_firms(w, d), night(w, d).market, night(w, d).day)
}

/// The largest share of the customers on the next day.
pub open spec fn share_on(w: WorldView, d: Decisions) -> Real {
    spec_share(day_counts(night(w, d).firms, night(w, d).market))
}

/// How often the language model is asked on the next day: by the managers of the restaurants
/// in business, and, where there are offers, by the customers.
pub open spec fn calls_on(w: WorldView, d: Decisions, mode: CustomerMode) -> nat {
    let noon = after_answers(morning(w), d.answers);
    questions_of(morning(w), w.market).len() + (if offers_of(noon.firms).len() == 0 {
        0
    } else {
        asked_ids(noon.customers, mode).len()
    })
}

/// The run stops after the next day.
pub open spec fn stops(w: WorldView, d: Decisions, limit: u64) -> bool {
    someone_gives_up(paid_firms(w, d)) || night(w, d).day + 1 >= limit
}

/// The town after days.
pub open spec fn town_after(w: WorldView, days: Seq<Decisions>) -> WorldView
    decreases days.len(),
{
    if days.len() == 0 {
        w
    } else {
        next_day(
            begun(town_after(w, days.drop_last())),
            days.last().answers,
            days.last().choices,
        )
    }
}

/// What is recorded of days.
pub open spec fn history(w: WorldView, days: Seq<Decisions>) -> Seq<DailyMetric>
    decreases days.len(),
{
    if days.len() == 0 {
        seq![]
    } else {
        history(w, days.drop_last()) + rows_on(town_after(w, days.drop_last()), days.last())
    }
}

/// The largest share of the customers, day by day.
pub open spec fn shares(w: WorldView, days: Seq<Decisions>) -> Seq<Real>
    decreases days.len(),
{
    if days.len() == 0 {
        seq![]
    } else {
        shares(w, days.drop_last()).push(
            share_on(town_after(w, days.drop_last()), days.last()),
        )
    }
}

/// How often the language model is asked on days.
pub open spec fn calls(w: WorldView, days: Seq<Decisions>, mode: CustomerMode) -> nat
    decreases days.len(),
{
    if days.len() == 0 {
        0
    } else {
        calls(w, days.drop_last(), mode) + calls_on(
            town_after(w, days.drop_last()),
            days.last(),
            mode,
        )
    }
}

/// The days are those of a run: it stops after the last one, and after none before.
pub open spec fn is_run(w: WorldView, days: Seq<Decisions>, limit: u64) -> bool {
    &&& days.len() > 0
    &&& stops(town_after(w, days.drop_last()), days.last(), limit)
    &&& forall|k: int|
        0 <= k < days.len() - 1 ==> !stops(
            town_after(w, #[trigger] days.take(k)),
            days[k],
            limit,
        )
}

/// A town that no day of a run has begun in.
pub open spec fn is_start(w: WorldView) -> bool {
    w.wf() && w.partitioned() && w.t == 0
}

/// What a day leaves as it was, until the customers have come home.
proof fn lemma_night(w: WorldView, d: Decisions)
    requires
        w.wf(),
        w.t < u64::MAX,
    ensures
        night(w, d).wf(),
        night(w, d).t == w.t + 1,
        night(w, d).day == w.t,
        ids_of(night(w, d).firms) == ids_of(w.firms),
        night(w, d).firms.len() == w.firms.len(),
        paid_firms(w, d).len() == w.firms.len(),
        forall|i: int|
            0 <= i < w.firms.len() ==> {
                &&& (#[trigger] night(w, d).firms[i]).1.alive == w.firms[i].1.alive
                &&& night(w, d).firms[i].0 == w.firms[i].0
                &&& night(w, d).firms[i].1.cumulative_revenue == w.firms[i].1.cumulative_revenue
            },
{
    reveal(night);
    let m = morning(w);
    let a = after_answers(m, d.answers);
    answers_keep_the_town(m, d.answers);
    visits_change_comments_only(a, d.choices);
    let e = night(w, d);
    assert(ids_of(e.firms).len() == e.firms.len());
    assert(ids_of(a.firms).len() == a.firms.len());
    assert(ids_of(w.firms).len() == w.firms.len());
    assert forall|i: int| 0 <= i < w.firms.len() implies {
        &&& (#[trigger] e.firms[i]).1.alive == w.firms[i].1.alive
        &&& e.firms[i].0 == w.firms[i].0
        &&& e.firms[i].1.cumulative_revenue == w.firms[i].1.cumulative_revenue
    } by {
        assert(e.firms[i].1.alive == a.firms[i].1.alive);
        assert(a.firms[i].1.alive == m.firms[i].1.alive);
        assert(ids_of(e.firms)[i] == ids_of(w.firms)[i]);
    }
}

/// The town after the next day is what the night makes of it.
proof fn lemma_next_day(w: WorldView, d: Decisions)
    ensures
        next_day(begun(w), d.answers, d.choices) == (WorldView {
            firms: all_reflected(paid_firms(w, d), night(w, d).market, night(w, d).day),
            ..night(w, d)
        }),
{
    reveal(night);
}

/// Who it is that is paid, and what it leaves as it was.
proof fn lemma_paid(firms: Seq<(AgentId, FirmView)>, market: MarketView, day: u64, i: int)
    requires
        0 <= i < firms.len(),
    ensures
        all_rewarded(firms, market, day).len() == firms.len(),
        all_rewarded(firms, market, day)[i].0 == firms[i].0,
        all_rewarded(firms, market, day)[i].1.alive == firms[i].1.alive,
{
}

/// Of whom a row is, and of what day.
proof fn lemma_row_says(firms: Seq<(AgentId, FirmView)>, market: MarketView, day: u64, i: int)
    requires
        0 <= i < firms.len(),
    ensures
        rows_of(firms, market, day).len() == firms.len(),
        rows_of(firms, market, day)[i].day == day,
        rows_of(firms, market, day)[i].firm == firms[i].0.0,
        firms[i].1.alive ==> rows_of(firms, market, day)[i].firm_alive == 1,
        rows_of(firms, market, day)[i].cumulative_revenue == firms[i].1.cumulative_revenue,
        rows_of(firms, market, day)[i].day_customers == market.customers_of(firms[i].0.0),
{
}

/// Restaurants with the same identities.
proof fn lemma_same_identity(
    a: Seq<(AgentId, FirmView)>,
    b: Seq<(AgentId, FirmView)>,
    i: int,
)
    requires
        ids_of(a) == ids_of(b),
        0 <= i < a.len(),
    ensures
        a.len() == b.len(),
        a[i].0 == b[i].0,
{
    assert(ids_of(a).len() == a.len() && ids_of(b).len() == b.len());
    assert(ids_of(a)[i] == a[i].0 && ids_of(b)[i] == b[i].0);
}

/// Who is paid on the next day.
proof fn lemma_paid_on(w: WorldView, d: Decisions, i: int)
    requires
        w.wf(),
        w.t < u64::MAX,
        0 <= i < w.firms.len(),
    ensures
        paid_firms(w, d).len() == w.firms.len(),
        paid_firms(w, d)[i].0 == w.firms[i].0,
        paid_firms(w, d)[i].1.alive == w.firms[i].1.alive,
        night(w, d).day == w.t,
{
    let e = night(w, d);
    lemma_night(w, d);
    assert(e.firms[i].0 == w.firms[i].0);
    lemma_paid(e.firms, e.market, e.day, i);
}

/// Of whom a row of the next day is.
proof fn lemma_rows_on(w: WorldView, d: Decisions, i: int)
    requires
        0 <= i < paid_firms(w, d).len(),
    ensures
        rows_on(w, d).len() == paid_firms(w, d).len(),
        rows_on(w, d)[i].day == night(w, d).day,
        rows_on(w, d)[i].firm == paid_firms(w, d)[i].0.0,
        paid_firms(w, d)[i].1.alive ==> rows_on(w, d)[i].firm_alive == 1,
        rows_on(w, d)[i].cumulative_revenue == paid_firms(w, d)[i].1.cumulative_revenue,
        rows_on(w, d)[i].day_customers == night(w, d).market.customers_of(
            paid_firms(w, d)[i].0.0,
        ),
{
    reveal(rows_on);
    lemma_row_says(paid_firms(w, d), night(w, d).market, night(w, d).day, i);
}

/// How many rows the next day has.
proof fn lemma_rows_len(w: WorldView, d: Decisions)
    ensures
        rows_on(w, d).len() == paid_firms(w, d).len(),
{
    reveal(rows_on);
}

/// What days leave as it was, and how they are counted.
pub proof fn lemma_town_after(w: WorldView, days: Seq<Decisions>)
    requires
        is_start(w),
        days.len() < u64::MAX,
    ensures
        town_after(w, days).wf(),
        town_after(w, days).partitioned(),
        town_after(w, days).t == days.len(),
        ids_of(town_after(w, days).firms) == ids_of(w.firms),
        town_after(w, days).firms.len() == w.firms.len(),
        ids_of(town_after(w, days).customers) == ids_of(w.customers),
        town_after(w, days).customers.len() == w.customers.len(),
    decreases days.len(),
{
    let now = town_after(w, days);
    if days.len() > 0 {
        let before = town_after(w, days.drop_last());
        lemma_town_after(w, days.drop_last());
        a_day_keeps_the_town(begun(before), days.last().answers, days.last().choices);
        lemma_night(before, days.last());
        lemma_next_day(before, days.last());
    }
    assert(ids_of(now.firms).len() == now.firms.len());
    assert(ids_of(w.firms).len() == w.firms.len());
    assert(ids_of(now.customers).len() == now.customers.len());
    assert(ids_of(w.customers).len() == w.customers.len());
}

/// Of each day and each restaurant one row is recorded, by day and then by restaurant. Days
/// are counted from zero.
pub proof fn one_row_for_each_day_and_restaurant(w: WorldView, days: Seq<Decisions>)
    requires
        is_start(w),
        days.len() < u64::MAX,
    ensures
        history(w, days).len() == days.len() * w.firms.len(),
        forall|d: int, i: int|
            0 <= d < days.len() && 0 <= i < w.firms.len() ==> {
                let row = #[trigger] history(w, days)[d * w.firms.len() + i];
                &&& row.day == d
                &&& row.firm == w.firms[i].0.0
            },
{
    lemma_history_len(w, days);
    assert forall|d: int, i: int| 0 <= d < days.len() && 0 <= i < w.firms.len() implies {
        let row = #[trigger] history(w, days)[d * w.firms.len() + i];
        &&& row.day == d
        &&& row.firm == w.firms[i].0.0
    } by {
        lemma_row(w, days, d, i);
    }
}

proof fn lemma_history_len(w: WorldView, days: Seq<Decisions>)
    requires
        is_start(w),
        days.len() < u64::MAX,
    ensures
        history(w, days).len() == days.len() * w.firms.len(),
    decreases days.len(),
{
    let n = w.firms.len();
    if days.len() > 0 {
        let rest = days.drop_last();
        lemma_history_len(w, rest);
        lemma_town_after(w, rest);
        lemma_night(town_after(w, rest), days.last());
        lemma_rows_len(town_after(w, rest), days.last());
        assert(days.len() * n == rest.len() * n + n) by (nonlinear_arith)
            requires days.len() == rest.len() + 1;
    } else {
        assert(0 * n == 0);
    }
}

/// What the row of a restaurant on the next day says.
proof fn lemma_row_on(w: WorldView, before: WorldView, d: Decisions, i: int)
    requires
        before.wf(),
        before.t < u64::MAX,
        ids_of(before.firms) == ids_of(w.firms),
        before.firms.len() == w.firms.len(),
        0 <= i < w.firms.len(),
    ensures
        rows_on(before, d).len() == w.firms.len(),
        rows_on(before, d)[i].day == before.t,
        rows_on(before, d)[i].firm == w.firms[i].0.0,
{
    lemma_paid_on(before, d, i);
    lemma_same_identity(before.firms, w.firms, i);
    lemma_rows_on(before, d, i);
}

/// Where the row of a day and a restaurant stands.
proof fn lemma_row(w: WorldView, days: Seq<Decisions>, d: int, i: int)
    requires
        is_start(w),
        days.len() < u64::MAX,
        0 <= d < days.len(),
        0 <= i < w.firms.len(),
    ensures
        ({
            let row = history(w, days)[d * w.firms.len() + i];
            &&& row == rows_on(town_after(w, days.take(d)), days[d])[i]
            &&& row.day == d
            &&& row.firm == w.firms[i].0.0
        }),
        0 <= d * w.firms.len() + i < history(w, days).len(),
    decreases days.len(),
{
    let n = w.firms.len();
    let rest = days.drop_last();
    lemma_history_len(w, days);
    lemma_history_len(w, rest);
    assert(0 <= d * n && d * n + n <= days.len() * n) by (nonlinear_arith)
        requires 0 <= d < days.len(), n >= 0;
    if d < rest.len() {
        assert(d * n + n <= rest.len() * n) by (nonlinear_arith)
            requires 0 <= d < rest.len(), n >= 0;
        lemma_row(w, rest, d, i);
        assert(rest.take(d) =~= days.take(d));
        assert(history(w, days)[d * n + i] == history(w, rest)[d * n + i]);
    } else {
        assert(days.take(d) =~= rest);
        lemma_town_after(w, rest);
        lemma_row_on(w, town_after(w, rest), days.last(), i);
        assert(history(w, days)[d * n + i] == rows_on(town_after(w, rest), days.last())[i]);
    }
}

/// A run lasts a day at least, and no longer than asked for, if that is a day at least.
pub proof fn runs_end_in_time(w: WorldView, days: Seq<Decisions>, limit: u64)
    requires
        is_start(w),
        is_run(w, days, limit),
    ensures
        1 <= days.len(),
        days.len() <= limit || days.len() == 1,
{
    let k = if limit == 0 {
        0
    } else {
        limit - 1
    };
    if k < days.len() - 1 {
        lemma_town_after(w, days.take(k));
        lemma_night(town_after(w, days.take(k)), days[k]);
        assert(!stops(town_after(w, days.take(k)), days[k], limit));
    }
}

/// Everyone is in business at the start of each day of a run.
proof fn lemma_all_alive(w: WorldView, days: Seq<Decisions>, limit: u64, d: int)
    requires
        is_start(w),
        days.len() < u64::MAX,
        is_run(w, days, limit),
        forall|i: int| 0 <= i < w.firms.len() ==> (#[trigger] w.firms[i]).1.alive,
        0 <= d < days.len(),
    ensures
        forall|i: int|
            0 <= i < w.firms.len() ==> (#[trigger] town_after(
                w,
                days.take(d),
            ).firms[i]).1.alive,
    decreases d,
{
    let n = w.firms.len();
    let now = town_after(w, days.take(d));
    if d > 0 {
        let before = town_after(w, days.take(d - 1));
        lemma_all_alive(w, days, limit, d - 1);
        assert(days.take(d).drop_last() =~= days.take(d - 1));
        assert(days.take(d).last() == days[d - 1]);
        lemma_town_after(w, days.take(d - 1));
        lemma_night(before, days[d - 1]);
        lemma_next_day(before, days[d - 1]);
        let paid = paid_firms(before, days[d - 1]);
        assert(!stops(before, days[d - 1], limit));
        assert forall|i: int| 0 <= i < n implies (#[trigger] now.firms[i]).1.alive by {
            assert(before.firms[i].1.alive);
            assert(night(before, days[d - 1]).firms[i].1.alive);
            assert(paid[i].1.alive);
            assert(!paid[i].1.funds.less(Real { bits: 0 }));
        }
    } else {
        assert(days.take(0) =~= seq![]);
    }
}

/// A run in which everyone starts in business stops when the first restaurant gives up, so
/// every row that is recorded is of a restaurant in business.
pub proof fn rows_are_of_the_living(
    w: WorldView,
    days: Seq<Decisions>,
    limit: u64,
    d: int,
    i: int,
)
    requires
        is_start(w),
        days.len() < u64::MAX,
        is_run(w, days, limit),
        forall|k: int| 0 <= k < w.firms.len() ==> (#[trigger] w.firms[k]).1.alive,
        0 <= d < days.len(),
        0 <= i < w.firms.len(),
    ensures
        history(w, days)[d * w.firms.len() + i].firm_alive == 1,
{
    let before = town_after(w, days.take(d));
    lemma_row(w, days, d, i);
    lemma_all_alive(w, days, limit, d);
    lemma_town_after(w, days.take(d));
    lemma_night(before, days[d]);
    let e = night(before, days[d]);
    assert(before.firms[i].1.alive);
    assert(e.firms[i].1.alive);
    lemma_paid(e.firms, e.market, e.day, i);
    lemma_rows_on(before, days[d], i);
}

/// The price of every dish on a menu is a number that is not negative.
pub open spec fn menu_priced(menu: Seq<DishView>) -> bool {
    forall|k: int| 0 <= k < menu.len() ==> plain((#[trigger] menu[k]).price)
}

/// The price of every dish is a number that is not negative.
pub open spec fn priced(firms: Seq<(AgentId, FirmView)>) -> bool {
    forall|i: int| 0 <= i < firms.len() ==> menu_priced((#[trigger] firms[i]).1.menu)
}

/// A manager is among those who answer.
pub open spec fn answered(answers: Seq<Answer>, id: AgentId) -> bool {
    exists|k: int| 0 <= k < answers.len() && (#[trigger] answers[k]).0 == id
}

/// Prices that are numbers and not negative stay so, and those of a manager who answers become
/// so.
proof fn lemma_answers_priced(w: WorldView, answers: Seq<Answer>)
    requires
        w.wf(),
    ensures
        forall|i: int|
            0 <= i < w.firms.len() && (menu_priced(w.firms[i].1.menu) || answered(
                answers,
                w.firms[i].0,
            )) ==> menu_priced((#[trigger] after_answers(w, answers).firms[i]).1.menu),
    decreases answers.len(),
{
    if answers.len() > 0 {
        let rest = answers.drop_last();
        let before = after_answers(w, rest);
        let (id, text) = answers.last();
        let after = after_answers(w, answers);
        lemma_answers_priced(w, rest);
        answers_keep_the_town(w, rest);
        let ids = ids_of(before.firms);
        lemma_place_of(ids, id);
        lemma_one();
        lemma_pow2_pos(1074);
        assert(ids.len() == before.firms.len());
        assert forall|i: int|
            0 <= i < w.firms.len() && (menu_priced(w.firms[i].1.menu) || answered(
                answers,
                w.firms[i].0,
            )) implies menu_priced((#[trigger] after.firms[i]).1.menu) by {
            assert(ids[i] == ids_of(w.firms)[i]);
            if place_of(ids, id) == Some(i) {
                let s = strategy_of(answer_fields(text), before.firms[i].1.chef_salary);
                let menu = after.firms[i].1.menu;
                assert forall|k: int| 0 <= k < menu.len() implies plain((#[trigger] menu[k]).price) by {
                    let d = before.firms[i].1.menu[k];
                    assert(menu[k] == revised_dish(d, s));
                    let x = d.price.times(s.price_factor);
                    if !x.is_nan() && !x.less(spec_real(1)) {
                        assert(x.value() >= pow2(1074));
                        assert(!x.negative());
                    }
                }
            } else {
                assert(after.firms[i] == before.firms[i]);
                if answered(answers, w.firms[i].0) {
                    let k = choose|k: int|
                        0 <= k < answers.len() && (#[trigger] answers[k]).0 == w.firms[i].0;
                    assert(ids[i] == w.firms[i].0);
                    assert(id != w.firms[i].0);
                    assert(rest[k] == answers[k]);
                }
            }
        }
    }
}

/// The cheapest dish is one of the dishes.
proof fn lemma_cheapest(menu: Seq<DishView>)
    requires
        menu.len() > 0,
    ensures
        0 <= cheapest(menu) < menu.len(),
    decreases menu.len(),
{
    if menu.len() > 1 {
        lemma_cheapest(menu.drop_last());
    }
}

/// Takings are numbers that are not negative.
proof fn lemma_takings(w: WorldView, choices: Seq<Choice>, firm: u64)
    requires
        w.wf(),
        priced(w.firms),
        plain(w.market.revenue_of(firm)),
    ensures
        plain(all_visited(w, choices).market.revenue_of(firm)),
    decreases choices.len(),
{
    if choices.len() > 0 {
        let rest = choices.drop_last();
        let before = all_visited(w, rest);
        lemma_takings(w, rest, firm);
        visits_change_comments_only(w, rest);
        let ids = ids_of(before.firms);
        lemma_place_of(ids, AgentId(choices.last().1));
        assert(ids.len() == before.firms.len());
        assert(ids_of(w.firms).len() == w.firms.len());
        if let Some(p) = place_of(ids, AgentId(choices.last().1)) {
            if choices.last().1 == firm && serves(before.firms[p].1) {
                let menu = before.firms[p].1.menu;
                assert(menu == w.firms[p].1.menu);
                lemma_cheapest(menu);
                let price = menu[cheapest(menu)].price;
                assert(menu_priced(w.firms[p].1.menu));
                let x = before.market.revenue_of(firm);
                lemma_sums_ordered(x, price, x, price);
            }
        }
    }
}

/// The revenue of every restaurant so far is a number that is not negative.
pub open spec fn is_sound(w: WorldView) -> bool {
    forall|i: int|
        0 <= i < w.firms.len() ==> plain((#[trigger] w.firms[i]).1.cumulative_revenue)
}

/// When the managers have answered, every price is a number that is not negative: each was one
/// before, or is set by an answer.
pub open spec fn is_priced_by(w: WorldView, d: Decisions) -> bool {
    forall|i: int|
        0 <= i < w.firms.len() ==> menu_priced((#[trigger] w.firms[i]).1.menu) || answered(
            d.answers,
            w.firms[i].0,
        )
}

/// A day lowers no revenue so far, and keeps it and the prices numbers that are not negative.
proof fn lemma_revenue_grows(w: WorldView, d: Decisions)
    requires
        w.wf(),
        w.t < u64::MAX,
        is_sound(w),
        is_priced_by(w, d),
    ensures
        is_sound(next_day(begun(w), d.answers, d.choices)),
        priced(next_day(begun(w), d.answers, d.choices).firms),
        forall|i: int|
            0 <= i < w.firms.len() ==> {
                &&& plain((#[trigger] paid_firms(w, d)[i]).1.cumulative_revenue)
                &&& w.firms[i].1.cumulative_revenue.at_most(
                    paid_firms(w, d)[i].1.cumulative_revenue,
                )
                &&& next_day(begun(w), d.answers, d.choices).firms[i].1.cumulative_revenue
                    == paid_firms(w, d)[i].1.cumulative_revenue
            },
{
    reveal(night);
    let m = morning(w);
    let a = after_answers(m, d.answers);
    let e = night(w, d);
    let paid = paid_firms(w, d);
    let next = next_day(begun(w), d.answers, d.choices);
    let zero = Real { bits: 0 };
    answers_keep_the_town(m, d.answers);
    lemma_answers_priced(m, d.answers);
    visits_change_comments_only(a, d.choices);
    lemma_night(w, d);
    assert(ids_of(a.firms).len() == a.firms.len());
    assert forall|i: int| 0 <= i < a.firms.len() implies menu_priced(
        (#[trigger] a.firms[i]).1.menu,
    ) by {
        assert(m.firms[i] == w.firms[i]);
    }
    assert forall|i: int| 0 <= i < next.firms.len() implies menu_priced(
        (#[trigger] next.firms[i]).1.menu,
    ) by {
        assert(e.firms[i].1.menu == a.firms[i].1.menu);
        assert(menu_priced(a.firms[i].1.menu));
    }
    assert forall|i: int| 0 <= i < w.firms.len() implies {
        &&& plain((#[trigger] paid[i]).1.cumulative_revenue)
        &&& w.firms[i].1.cumulative_revenue.at_most(paid[i].1.cumulative_revenue)
        &&& next.firms[i].1.cumulative_revenue == paid[i].1.cumulative_revenue
    } by {
        let c = w.firms[i].1.cumulative_revenue;
        let x = e.market.revenue_of(e.firms[i].0.0);
        assert(plain(c));
        assert(e.firms[i].1.cumulative_revenue == c);
        lemma_takings(a, d.choices, e.firms[i].0.0);
        lemma_sums_ordered(c, zero, c, x);
        if c.is_finite() {
            lemma_plus_grows(c, zero);
        }
    }
    assert forall|i: int| 0 <= i < next.firms.len() implies plain(
        (#[trigger] next.firms[i]).1.cumulative_revenue,
    ) by {
        assert(plain(paid[i].1.cumulative_revenue));
    }
}

proof fn lemma_stays_sound(w: WorldView, days: Seq<Decisions>)
    requires
        is_start(w),
        is_sound(w),
        days.len() < u64::MAX,
        days.len() > 0 ==> is_priced_by(w, days[0]),
    ensures
        is_sound(town_after(w, days)),
        days.len() > 0 ==> priced(town_after(w, days).firms),
    decreases days.len(),
{
    if days.len() > 0 {
        let rest = days.drop_last();
        if rest.len() > 0 {
            assert(rest[0] == days[0]);
        }
        lemma_stays_sound(w, rest);
        lemma_town_after(w, rest);
        lemma_revenue_grows(town_after(w, rest), days.last());
    }
}

/// What a restaurant has taken so far never falls from one day to the next, where each price at
/// the start is a number that is not negative or is set by what its manager answers on the
/// first day.
pub proof fn revenue_never_falls(w: WorldView, days: Seq<Decisions>, d: int, i: int)
    requires
        is_start(w),
        is_sound(w),
        days.len() < u64::MAX,
        is_priced_by(w, days[0]),
        0 <= d < days.len() - 1,
        0 <= i < w.firms.len(),
    ensures
        history(w, days)[d * w.firms.len() + i].cumulative_revenue.at_most(
            history(w, days)[(d + 1) * w.firms.len() + i].cumulative_revenue,
        ),
{
    let before = town_after(w, days.take(d));
    let now = town_after(w, days.take(d + 1));
    lemma_row(w, days, d, i);
    lemma_row(w, days, d + 1, i);
    lemma_town_after(w, days.take(d));
    lemma_town_after(w, days.take(d + 1));
    assert(d > 0 ==> days.take(d)[0] == days[0]);
    assert(days.take(d + 1)[0] == days[0]);
    lemma_stays_sound(w, days.take(d));
    lemma_stays_sound(w, days.take(d + 1));
    assert(d == 0 ==> before == w);
    assert(days.take(d + 1).drop_last() =~= days.take(d));
    assert(days.take(d + 1).last() == days[d]);
    lemma_revenue_grows(before, days[d]);
    lemma_revenue_grows(now, days[d + 1]);
    lemma_night(before, days[d]);
    lemma_night(now, days[d + 1]);
    lemma_rows_on(before, days[d], i);
    lemma_rows_on(now, days[d + 1], i);
    assert(plain(paid_firms(before, days[d])[i].1.cumulative_revenue));
    assert(plain(paid_firms(now, days[d + 1])[i].1.cumulative_revenue));
}

/// Identities go up, so there are no more restaurants than identities for them.
proof fn lemma_few_restaurants(w: WorldView)
    requires
        w.wf(),
        w.partitioned(),
    ensures
        w.firms.len() <= CUSTOMER_ID_BASE,
{
    let n = w.firms.len();
    if n > 0 {
        lemma_identities(ids_of(w.firms), n - 1);
        assert(ids_of(w.firms)[n - 1] == w.firms[n - 1].0);
        assert(spec_kind_of(w.firms[n - 1].0) == AgentKind::Firm);
    }
}

/// Identities that go up are no less than their places.
proof fn lemma_identities(ids: Seq<AgentId>, i: int)
    requires
        increasing(ids),
        0 <= i < ids.len(),
    ensures
        ids[i].0 >= i,
    decreases i,
{
    if i > 0 {
        lemma_identities(ids, i - 1);
        assert(ids[i - 1].0 < ids[i].0);
    }
}

/// No restaurant has more customers than all have together.
proof fn lemma_count_within(firms: Seq<(AgentId, FirmView)>, market: MarketView, i: int)
    requires
        0 <= i < firms.len(),
    ensures
        market.customers_of(firms[i].0.0) <= count_sum(day_counts(firms, market)),
    decreases firms.len(),
{
    let rest = firms.drop_last();
    assert(day_counts(firms, market).drop_last() =~= day_counts(rest, market));
    if i < rest.len() {
        assert(rest[i] == firms[i]);
        lemma_count_within(rest, market, i);
    }
}

/// One more customer is one more, or none where nobody counts.
proof fn lemma_count_added(
    firms: Seq<(AgentId, FirmView)>,
    market: MarketView,
    firm: u64,
    spend: Real,
)
    requires
        increasing(ids_of(firms)),
        market.customers_of(firm) < u64::MAX,
    ensures
        count_sum(day_counts(firms, market_after(market, firm, spend))) <= count_sum(
            day_counts(firms, market),
        ) + 1,
    decreases firms.len(),
{
    if firms.len() > 0 {
        let after = market_after(market, firm, spend);
        let rest = firms.drop_last();
        let n = rest.len() as int;
        assert(day_counts(firms, market).drop_last() =~= day_counts(rest, market));
        assert(day_counts(firms, after).drop_last() =~= day_counts(rest, after));
        assert(ids_of(rest) =~= ids_of(firms).drop_last());
        if firms[n].0.0 == firm {
            assert forall|i: int| 0 <= i < n implies #[trigger] day_counts(rest, after)[i]
                == day_counts(rest, market)[i] by {
                assert(ids_of(firms)[i].0 < ids_of(firms)[n].0);
            }
            assert(day_counts(rest, after) =~= day_counts(rest, market));
        } else {
            lemma_count_added(rest, market, firm, spend);
        }
    }
}

/// No more customers are counted on a day than chose.
proof fn lemma_counts_within(
    w: WorldView,
    choices: Seq<Choice>,
    firms: Seq<(AgentId, FirmView)>,
)
    requires
        w.wf(),
        w.market == MarketView::nothing(),
        ids_of(firms) == ids_of(w.firms),
        choices.len() <= u64::MAX,
    ensures
        count_sum(day_counts(firms, all_visited(w, choices).market)) <= choices.len(),
    decreases choices.len(),
{
    if choices.len() == 0 {
        lemma_nobody(firms);
    } else {
        let rest = choices.drop_last();
        let before = all_visited(w, rest);
        let (customer, firm) = choices.last();
        lemma_counts_within(w, rest, firms);
        visits_change_comments_only(w, rest);
        let ids = ids_of(before.firms);
        lemma_place_of(ids, AgentId(firm));
        if let Some(p) = place_of(ids, AgentId(firm)) {
            if serves(before.firms[p].1) {
                let menu = before.firms[p].1.menu;
                assert(ids_of(firms).len() == firms.len());
                assert(ids_of(firms)[p] == firms[p].0);
                lemma_count_within(firms, before.market, p);
                lemma_count_added(firms, before.market, firm, menu[cheapest(menu)].price);
            }
        }
    }
}

/// Nobody is counted where nobody came.
proof fn lemma_nobody(firms: Seq<(AgentId, FirmView)>)
    ensures
        count_sum(day_counts(firms, MarketView::nothing())) == 0,
    decreases firms.len(),
{
    if firms.len() > 0 {
        let none = MarketView::nothing();
        assert(day_counts(firms, none).drop_last() =~= day_counts(firms.drop_last(), none));
        lemma_nobody(firms.drop_last());
    }
}

/// How many similarities there are.
proof fn lemma_few_similarities(menus: Seq<Seq<DishView>>, n: nat)
    requires
        n <= menus.len(),
    ensures
        similarities(menus, n).len() <= n * menus.len(),
    decreases n,
{
    if n > 0 {
        lemma_few_similarities(menus, (n - 1) as nat);
        let m = menus.len();
        assert((n - 1) * m + m == n * m) by (nonlinear_arith);
    }
}

/// The menus of the restaurants in business are menus of restaurants.
proof fn lemma_alive_menus(firms: Seq<(AgentId, FirmView)>, most: nat)
    requires
        forall|i: int| 0 <= i < firms.len() ==> (#[trigger] firms[i]).1.menu.len() <= most,
    ensures
        alive_menus(firms).len() <= firms.len(),
        forall|a: int|
            0 <= a < alive_menus(firms).len() ==> (#[trigger] alive_menus(firms)[a]).len() <= most,
    decreases firms.len(),
{
    if firms.len() > 0 {
        let rest = firms.drop_last();
        assert(firms[firms.len() - 1].1.menu.len() <= most);
        assert forall|i: int| 0 <= i < rest.len() implies (#[trigger] rest[i]).1.menu.len() <= most by {
            assert(rest[i] == firms[i]);
        }
        lemma_alive_menus(rest, most);
    }
}

/// A day leaves as many dishes as there were.
proof fn lemma_menus_on(w: WorldView, d: Decisions, i: int)
    requires
        w.wf(),
        w.t < u64::MAX,
        0 <= i < w.firms.len(),
    ensures
        paid_firms(w, d)[i].1.menu.len() == w.firms[i].1.menu.len(),
        next_day(begun(w), d.answers, d.choices).firms[i].1.menu.len() == w.firms[i].1.menu.len(),
{
    let m = morning(w);
    let a = after_answers(m, d.answers);
    let e = night(w, d);
    lemma_night(w, d);
    lemma_next_day(w, d);
    answers_keep_the_town(m, d.answers);
    visits_change_comments_only(a, d.choices);
    reveal(night);
    assert(a.firms[i].1.menu.len() == m.firms[i].1.menu.len());
    assert(e.firms[i].1.menu == a.firms[i].1.menu);
}

/// Days leave as many dishes as there were.
proof fn lemma_menus_kept(w: WorldView, days: Seq<Decisions>, i: int)
    requires
        is_start(w),
        days.len() < u64::MAX,
        0 <= i < w.firms.len(),
    ensures
        town_after(w, days).firms[i].1.menu.len() == w.firms[i].1.menu.len(),
    decreases days.len(),
{
    if days.len() > 0 {
        lemma_menus_kept(w, days.drop_last(), i);
        lemma_town_after(w, days.drop_last());
        lemma_menus_on(town_after(w, days.drop_last()), days.last(), i);
    }
}

/// Sums of numbers that are not negative are numbers.
proof fn lemma_sum_is_number(s: Seq<Real>)
    requires
        forall|i: int| 0 <= i < s.len() ==> plain(#[trigger] s[i]),
    ensures
        plain(real_sum(s)),
    decreases s.len(),
{
    if s.len() > 0 {
        let n = s.len() - 1;
        assert forall|i: int| 0 <= i < n implies plain(#[trigger] s.drop_last()[i]) by {
            assert(s.drop_last()[i] == s[i]);
        }
        lemma_sum_is_number(s.drop_last());
        assert(plain(s[n]));
        lemma_sums_ordered(real_sum(s.drop_last()), s[n], real_sum(s.drop_last()), s[n]);
    }
}

/// What is recorded of the market on a day of a run lies between zero and one: the largest share
/// of the customers, the similarity of the menus and, unless the sum of their distances
/// overflows, the Gini coefficient of the revenues.
pub proof fn recorded_measures_are_fractions(w: WorldView, days: Seq<Decisions>, d: int, i: int)
    requires
        is_start(w),
        is_sound(w),
        days.len() < u64::MAX,
        is_priced_by(w, days[0]),
        0 <= d < days.len(),
        days[d].choices.len() <= u64::MAX,
        0 <= i < w.firms.len(),
        forall|k: int| 0 <= k < w.firms.len() ==> (#[trigger] w.firms[k]).1.menu.len() <= u64::MAX,
    ensures
        ({
            let row = history(w, days)[d * w.firms.len() + i];
            let paid = paid_firms(town_after(w, days.take(d)), days[d]);
            let one = spec_real(1).value();
            &&& !row.market_share_max.is_nan() && 0 <= row.market_share_max.value() <= one
            &&& !row.menu_similarity.is_nan() && 0 <= row.menu_similarity.value() <= one
            &&& real_sum(distances(revenues(paid))).is_finite() ==> !row.revenue_gini.is_nan() && 0
                <= row.revenue_gini.value() <= one
        }),
{
    let before = town_after(w, days.take(d));
    let now = days[d];
    let paid = paid_firms(before, now);
    assert(d > 0 ==> days.take(d)[0] == days[0]);
    lemma_row(w, days, d, i);
    lemma_town_after(w, days.take(d));
    lemma_few_restaurants(before);
    lemma_night(before, now);
    reveal(rows_on);
    let e = night(before, now);
    assert(rows_on(before, now)[i] == row_of(paid, e.market, e.day, i));
    lemma_shares_counted(before, now);
    share_is_a_fraction(day_counts(paid, night(before, now).market));
    assert forall|k: int| 0 <= k < paid.len() implies (#[trigger] paid[k]).1.menu.len()
        <= u64::MAX by {
        lemma_menus_kept(w, days.take(d), k);
        lemma_menus_on(before, now, k);
        assert(w.firms[k].1.menu.len() <= u64::MAX);
    }
    lemma_alive_menus(paid, u64::MAX as nat);
    let menus = alive_menus(paid);
    lemma_few_similarities(menus, menus.len());
    assert(menus.len() * menus.len() <= 0x20_0000_0000_0000) by (nonlinear_arith)
        requires menus.len() <= 1_000_000;
    menu_similarity_is_a_fraction(menus);
    lemma_stays_sound(w, days.take(d));
    assert(is_priced_by(before, now)) by {
        if d == 0 {
            assert(before == w);
        }
    }
    lemma_revenue_grows(before, now);
    let taken = revenues(paid);
    assert forall|k: int| 0 <= k < taken.len() implies plain(#[trigger] taken[k]) by {
        assert(plain(paid[k].1.cumulative_revenue));
    }
    lemma_sum_is_number(taken);
    if real_sum(distances(taken)).is_finite() {
        gini_is_a_fraction(taken);
    }
}

/// No more customers are counted on the next day than chose.
proof fn lemma_shares_counted(w: WorldView, d: Decisions)
    requires
        w.wf(),
        w.t < u64::MAX,
        d.choices.len() <= u64::MAX,
    ensures
        count_sum(day_counts(paid_firms(w, d), night(w, d).market)) <= d.choices.len(),
{
    let m = morning(w);
    let a = after_answers(m, d.answers);
    let paid = paid_firms(w, d);
    lemma_night(w, d);
    answers_keep_the_town(m, d.answers);
    assert(ids_of(paid) =~= ids_of(night(w, d).firms));
    lemma_counts_within(a, d.choices, paid);
    reveal(night);
}

/// The customers recorded for a day among rows put together.
proof fn lemma_counts_joined(a: Seq<DailyMetric>, b: Seq<DailyMetric>, day: u64)
    ensures
        counts_on(a + b, day) == counts_on(a, day) + counts_on(b, day),
    decreases b.len(),
{
    if b.len() == 0 {
        assert(a + b =~= a);
        assert(counts_on(a, day) + counts_on(b, day) =~= counts_on(a, day));
    } else {
        lemma_counts_joined(a, b.drop_last(), day);
        assert((a + b).drop_last() =~= a + b.drop_last());
        assert((a + b).last() == b.last());
        assert(counts_on(a + b, day) =~= counts_on(a, day) + counts_on(b, day));
    }
}

/// Rows of another day count for nothing.
proof fn lemma_counts_of_others(b: Seq<DailyMetric>, day: u64)
    requires
        forall|i: int| 0 <= i < b.len() ==> (#[trigger] b[i]).day != day,
    ensures
        counts_on(b, day) == Seq::<u64>::empty(),
    decreases b.len(),
{
    if b.len() > 0 {
        assert(b[b.len() - 1].day != day);
        assert forall|i: int| 0 <= i < b.drop_last().len() implies (#[trigger] b.drop_last()[i]).day
            != day by {
            assert(b.drop_last()[i] == b[i]);
        }
        lemma_counts_of_others(b.drop_last(), day);
    }
}

/// Rows of one day, of which a row is recorded already or which is later than all others.
proof fn lemma_days_joined(a: Seq<DailyMetric>, b: Seq<DailyMetric>, day: u64)
    requires
        b.len() > 0,
        forall|i: int| 0 <= i < b.len() ==> (#[trigger] b[i]).day == day,
        days_of(a).len() > 0 ==> days_of(a).last() < day,
    ensures
        days_of(a + b) == days_of(a).push(day),
    decreases b.len(),
{
    let rest = b.drop_last();
    assert((a + b).drop_last() =~= a + rest);
    assert(b[b.len() - 1].day == day);
    assert((a + b).last() == b.last());
    if rest.len() > 0 {
        assert forall|i: int| 0 <= i < rest.len() implies (#[trigger] rest[i]).day == day by {
            assert(rest[i] == b[i]);
        }
        lemma_days_joined(a, rest, day);
    } else {
        assert(a + rest =~= a);
        assert(with_number(days_of(a), day) =~= days_of(a).push(day));
    }
}

/// The days of a history, and the customers that it has for each.
proof fn lemma_days_recorded(w: WorldView, days: Seq<Decisions>)
    requires
        is_start(w),
        days.len() < u64::MAX,
        w.firms.len() > 0,
    ensures
        days_of(history(w, days)) == Seq::new(days.len(), |d: int| d as u64),
        forall|d: int|
            0 <= d < days.len() ==> spec_share(
                #[trigger] counts_on(history(w, days), d as u64),
            ) == shares(w, days)[d],
        shares(w, days).len() == days.len(),
    decreases days.len(),
{
    let all = history(w, days);
    if days.len() > 0 {
        let rest = days.drop_last();
        let n = rest.len();
        let before = town_after(w, rest);
        let a = history(w, rest);
        let b = rows_on(before, days.last());
        lemma_days_recorded(w, rest);
        lemma_town_after(w, rest);
        lemma_night(before, days.last());
        lemma_rows_len(before, days.last());
        assert forall|i: int| 0 <= i < b.len() implies (#[trigger] b[i]).day == n as u64 by {
            lemma_rows_on(before, days.last(), i);
        }
        lemma_days_joined(a, b, n as u64);
        assert(days_of(all) =~= Seq::new(days.len(), |d: int| d as u64));
        assert forall|d: int| 0 <= d < days.len() implies spec_share(
            #[trigger] counts_on(all, d as u64),
        ) == shares(w, days)[d] by {
            lemma_counts_joined(a, b, d as u64);
            if d < n {
                lemma_counts_of_others(b, d as u64);
                assert(counts_on(all, d as u64) =~= counts_on(a, d as u64));
                assert(shares(w, days)[d] == shares(w, rest)[d]);
            } else {
                assert forall|i: int| 0 <= i < a.len() implies (#[trigger] a[i]).day != n as u64 by {
                    lemma_day_is_before(w, rest, i);
                }
                lemma_counts_of_others(a, n as u64);
                lemma_counts_of_day(b, n as u64);
                let e = night(before, days.last());
                assert forall|i: int| 0 <= i < b.len() implies #[trigger] counts_on(b, n as u64)[i]
                    == day_counts(e.firms, e.market)[i] by {
                    lemma_rows_on(before, days.last(), i);
                    lemma_paid(e.firms, e.market, e.day, i);
                    assert(counts_on(b, n as u64)[i] == b[i].day_customers);
                }
                assert(counts_on(all, d as u64) =~= day_counts(e.firms, e.market));
            }
        }
    } else {
        assert(days_of(all) =~= Seq::new(0, |d: int| d as u64));
    }
}

/// Every row is of a day before the next.
proof fn lemma_day_is_before(w: WorldView, days: Seq<Decisions>, i: int)
    requires
        is_start(w),
        days.len() < u64::MAX,
        0 <= i < history(w, days).len(),
    ensures
        history(w, days)[i].day < days.len(),
    decreases days.len(),
{
    let rest = days.drop_last();
    let a = history(w, rest);
    lemma_town_after(w, rest);
    lemma_night(town_after(w, rest), days.last());
    lemma_rows_len(town_after(w, rest), days.last());
    if i < a.len() {
        lemma_day_is_before(w, rest, i);
    } else {
        lemma_rows_on(town_after(w, rest), days.last(), i - a.len());
    }
}

/// Rows of one day all count.
proof fn lemma_counts_of_day(rows: Seq<DailyMetric>, day: u64)
    requires
        forall|i: int| 0 <= i < rows.len() ==> (#[trigger] rows[i]).day == day,
    ensures
        counts_on(rows, day).len() == rows.len(),
        forall|i: int|
            0 <= i < rows.len() ==> #[trigger] counts_on(rows, day)[i] == rows[i].day_customers,
    decreases rows.len(),
{
    if rows.len() > 0 {
        let rest = rows.drop_last();
        assert(rows[rows.len() - 1].day == day);
        assert forall|i: int| 0 <= i < rest.len() implies (#[trigger] rest[i]).day == day by {
            assert(rest[i] == rows[i]);
        }
        lemma_counts_of_day(rest, day);
        assert forall|i: int| 0 <= i < rows.len() implies #[trigger] counts_on(rows, day)[i]
            == rows[i].day_customers by {
            if i < rest.len() {
                assert(counts_on(rows, day)[i] == counts_on(rest, day)[i]);
                assert(rest[i] == rows[i]);
            }
        }
    }
}

/// The largest shares of the customers, day by day, are those that the rows of the run give; so
/// whether one restaurant took all can be told from the rows.
pub proof fn shares_are_those_of_the_rows(w: WorldView, days: Seq<Decisions>)
    requires
        is_start(w),
        days.len() < u64::MAX,
        w.firms.len() > 0,
    ensures
        shares(w, days) == share_series(history(w, days)),
        wins_all(shares(w, days), WTA_START_DAY as int, spec_ratio(8, 10)) == wins_all(
            share_series(history(w, days)),
            WTA_START_DAY as int,
            spec_ratio(8, 10),
        ),
{
    lemma_days_recorded(w, days);
    let series = share_series(history(w, days));
    assert forall|d: int| 0 <= d < days.len() implies #[trigger] series[d] == shares(w, days)[d] by {
        assert(days_of(history(w, days))[d] == d as u64);
        assert(spec_share(counts_on(history(w, days), d as u64)) == shares(w, days)[d]);
    }
    assert(series =~= shares(w, days));
}

/// As many restaurants show offers, and as many managers are asked, as are in business.
proof fn lemma_all_count(firms: Seq<(AgentId, FirmView)>)
    requires
        forall|i: int| 0 <= i < firms.len() ==> (#[trigger] firms[i]).1.alive,
    ensures
        offers_of(firms).len() == firms.len(),
        alive_ids(firms).len() == firms.len(),
    decreases firms.len(),
{
    if firms.len() > 0 {
        let rest = firms.drop_last();
        assert(firms[firms.len() - 1].1.alive);
        assert forall|i: int| 0 <= i < rest.len() implies (#[trigger] rest[i]).1.alive by {
            assert(rest[i] == firms[i]);
        }
        lemma_all_count(rest);
    }
}

/// On each day of a run in which everyone starts in business the language model is asked once
/// for each restaurant and once for each customer.
pub proof fn everyone_is_asked_every_day(
    w: WorldView,
    days: Seq<Decisions>,
    limit: u64,
    mode: CustomerMode,
)
    requires
        is_start(w),
        days.len() < u64::MAX,
        is_run(w, days, limit),
        w.firms.len() > 0,
        forall|i: int| 0 <= i < w.firms.len() ==> (#[trigger] w.firms[i]).1.alive,
    ensures
        calls(w, days, mode) == days.len() * (w.firms.len() + w.customers.len()),
{
    lemma_whole(days);
    lemma_calls(w, days, limit, mode, days.len() as int);
}

proof fn lemma_whole(days: Seq<Decisions>)
    ensures
        days.take(days.len() as int) == days,
{
    assert(days.take(days.len() as int) =~= days);
}

proof fn lemma_calls(
    w: WorldView,
    days: Seq<Decisions>,
    limit: u64,
    mode: CustomerMode,
    d: int,
)
    requires
        is_start(w),
        days.len() < u64::MAX,
        is_run(w, days, limit),
        w.firms.len() > 0,
        forall|i: int| 0 <= i < w.firms.len() ==> (#[trigger] w.firms[i]).1.alive,
        0 <= d <= days.len(),
    ensures
        calls(w, days.take(d), mode) == d * (w.firms.len() + w.customers.len()),
    decreases d,
{
    let c = w.firms.len() + w.customers.len();
    if d > 0 {
        let before = town_after(w, days.take(d - 1));
        let now = days[d - 1];
        lemma_calls(w, days, limit, mode, d - 1);
        assert(days.take(d).drop_last() =~= days.take(d - 1));
        assert(days.take(d).last() == now);
        lemma_all_alive(w, days, limit, d - 1);
        lemma_town_after(w, days.take(d - 1));
        let m = morning(before);
        let noon = after_answers(m, now.answers);
        answers_keep_the_town(m, now.answers);
        assert forall|i: int| 0 <= i < noon.firms.len() implies (#[trigger] noon.firms[i]).1.alive by {
            assert(noon.firms[i].1.alive == m.firms[i].1.alive);
            assert(before.firms[i].1.alive);
        }
        assert forall|i: int| 0 <= i < m.firms.len() implies (#[trigger] m.firms[i]).1.alive by {
            assert(before.firms[i].1.alive);
        }
        lemma_all_count(noon.firms);
        lemma_all_count(m.firms);
        everyone_is_asked_once(noon.customers, mode);
        let asked = asked_ids(noon.customers, mode);
        asked.to_multiset_ensures();
        ids_of(noon.customers).to_multiset_ensures();
        assert(asked.len() == noon.customers.len());
        assert(d * c == (d - 1) * c + c) by (nonlinear_arith);
    } else {
        assert(0 * c == 0);
    }
}

/// A town as it is drawn is one that a run can start in: everyone is in business, the
/// restaurants are numbered from zero, and none has taken anything yet.
pub proof fn a_drawn_town_can_start(
    cfg: Config,
    firms: Seq<FirmDraw>,
    customers: Seq<CustomerDraw>,
)
    requires
        firms.len() <= CUSTOMER_ID_BASE,
        CUSTOMER_ID_BASE + customers.len() <= u64::MAX,
    ensures
        ({
            let w = first_world(cfg, firms, customers);
            &&& is_start(w)
            &&& is_sound(w)
            &&& w.firms.len() == firms.len()
            &&& w.customers.len() == customers.len()
            &&& forall|i: int|
                0 <= i < firms.len() ==> (#[trigger] w.firms[i]).1.alive && w.firms[i].0.0 == i
        }),
{
    the_first_world_is_in_order(cfg, firms, customers);
}

} // verus!
