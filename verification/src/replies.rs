//! Runs in which a language model answers: what it says to each question decides the run.
use crate::binary64::{spec_ratio, spec_real};
use crate::choice::{
    asked_ids, everyone_goes_to_an_offer, everyone_is_asked_once, pick_is_an_offer, picked, settled,
};
use crate::config::{Config, CustomerMode};
use crate::course::{
    a_drawn_town_can_start, answered, calls, everyone_is_asked_every_day, history, is_priced_by,
    is_run, lemma_town_after, morning, one_row_for_each_day_and_restaurant, paid_firms,
    recorded_measures_are_fractions, revenue_never_falls, rows_are_of_the_living, runs_end_in_time,
    shares, shares_are_those_of_the_rows, stops, town_after, Decisions,
};
use crate::day::answers_keep_the_town;
use crate::mechanisms::{after_answers, lemma_alive_asked, offers_of, questions_of, Answer};
use crate::metrics::{distances, wins_all};
use crate::prompts::{answer_fields, choice_of, choice_prompt};
use crate::reward::revenues;
use crate::simulation::{
    first_world, outcomes_of, share_series, some_improved, CustomerDraw, FirmDraw, WTA_START_DAY,
};
use crate::world::{
    alive_ids, ids_of, place_of, real_sum, AgentId, FirmView, WorldView, CUSTOMER_ID_BASE,
};
use vstd::prelude::*;

verus! {

/// What the managers say on the next day to what they are asked.
pub open spec fn managers_say(w: WorldView, model: spec_fn(Seq<char>) -> Seq<char>) -> Seq<Answer> {
    questions_of(morning(w), w.market).map_values(|q: Answer| (q.0, model(q.1)))
}

/// What a customer is asked in a town.
pub open spec fn asked_of(w: WorldView, mode: CustomerMode, id: AgentId) -> Seq<char> {
    choice_prompt(
        w.customers[place_of(ids_of(w.customers), id)->0].1,
        w.day,
        offers_of(w.firms),
        mode == CustomerMode::Group,
    )
}

/// The offer that a customer picks by what is said to a question.
pub open spec fn pick_by(w: WorldView, text: Seq<char>) -> usize {
    let offers = offers_of(w.firms);
    picked(choice_of(answer_fields(text), text, offers.len()), offers) as usize
}

/// The offers that the customers pick, in the order in which they are asked.
pub open spec fn customers_pick(
    w: WorldView,
    mode: CustomerMode,
    model: spec_fn(Seq<char>) -> Seq<char>,
) -> Seq<usize> {
    asked_ids(w.customers, mode).map_values(
        |id: AgentId| pick_by(w, model(asked_of(w, mode, id))),
    )
}

/// What is decided on the next day, where `keys` are the numbers drawn for the groups.
pub open spec fn decided(
    w: WorldView,
    mode: CustomerMode,
    model: spec_fn(Seq<char>) -> Seq<char>,
    keys: Seq<Seq<u32>>,
) -> Decisions {
    let answers = managers_say(w, model);
    let noon = after_answers(morning(w), answers);
    Decisions {
        answers,
        choices: settled(
            noon.customers,
            mode,
            offers_of(noon.firms),
            customers_pick(noon, mode, model),
            keys,
        ),
    }
}

/// On every day a language model answers the questions of that day.
pub open spec fn is_led_by(
    w: WorldView,
    days: Seq<Decisions>,
    mode: CustomerMode,
    model: spec_fn(Seq<char>) -> Seq<char>,
    keys: Seq<Seq<Seq<u32>>>,
) -> bool {
    forall|k: int|
        0 <= k < days.len() ==> #[trigger] days[k] == decided(
            town_after(w, days.take(k)),
            mode,
            model,
            keys[k],
        )
}

/// Models that say the same to every question decide the same.
proof fn lemma_same_decisions(
    w: WorldView,
    mode: CustomerMode,
    a: spec_fn(Seq<char>) -> Seq<char>,
    b: spec_fn(Seq<char>) -> Seq<char>,
    keys: Seq<Seq<u32>>,
)
    requires
        forall|q: Seq<char>| #[trigger] a(q) == b(q),
    ensures
        decided(w, mode, a, keys) == decided(w, mode, b, keys),
{
    assert(managers_say(w, a) =~= managers_say(w, b));
    let noon = after_answers(morning(w), managers_say(w, a));
    assert(customers_pick(noon, mode, a) =~= customers_pick(noon, mode, b));
}

/// Up to the end of either one, two runs go through the same days.
proof fn lemma_same_days(
    w: WorldView,
    first: Seq<Decisions>,
    second: Seq<Decisions>,
    mode: CustomerMode,
    a: spec_fn(Seq<char>) -> Seq<char>,
    b: spec_fn(Seq<char>) -> Seq<char>,
    keys: Seq<Seq<Seq<u32>>>,
    k: int,
)
    requires
        is_led_by(w, first, mode, a, keys),
        is_led_by(w, second, mode, b, keys),
        forall|q: Seq<char>| #[trigger] a(q) == b(q),
        0 <= k <= first.len(),
        k <= second.len(),
    ensures
        first.take(k) == second.take(k),
    decreases k,
{
    if k > 0 {
        lemma_same_days(w, first, second, mode, a, b, keys, k - 1);
        let before = town_after(w, first.take(k - 1));
        lemma_same_decisions(before, mode, a, b, keys[k - 1]);
        assert(first[k - 1] == decided(before, mode, a, keys[k - 1]));
        assert(second[k - 1] == decided(before, mode, b, keys[k - 1]));
        assert(first.take(k) =~= first.take(k - 1).push(first[k - 1]));
        assert(second.take(k) =~= second.take(k - 1).push(second[k - 1]));
    } else {
        assert(first.take(0) =~= second.take(0));
    }
}

/// A run that goes through the days of another one stops no earlier.
proof fn lemma_no_shorter(w: WorldView, first: Seq<Decisions>, second: Seq<Decisions>, limit: u64)
    requires
        is_run(w, first, limit),
        is_run(w, second, limit),
        first.len() <= second.len(),
        first == second.take(first.len() as int),
    ensures
        first == second,
{
    let k = first.len() - 1;
    assert(first[k] == second[k]);
    assert(first.drop_last() =~= second.take(k));
    if first.len() < second.len() {
        assert(!stops(town_after(w, second.take(k)), second[k], limit));
    }
    assert(second.take(second.len() as int) =~= second);
}

/// Two runs that start in the same town, with the same numbers drawn, are the same where the
/// language models say the same to every question: they take as many days, the same is decided
/// and recorded, and the same comes of them.
pub proof fn the_same_answers_lead_to_the_same_run(
    w: WorldView,
    first: Seq<Decisions>,
    second: Seq<Decisions>,
    limit: u64,
    mode: CustomerMode,
    a: spec_fn(Seq<char>) -> Seq<char>,
    b: spec_fn(Seq<char>) -> Seq<char>,
    keys: Seq<Seq<Seq<u32>>>,
)
    requires
        is_run(w, first, limit),
        is_run(w, second, limit),
        is_led_by(w, first, mode, a, keys),
        is_led_by(w, second, mode, b, keys),
        forall|q: Seq<char>| #[trigger] a(q) == b(q),
    ensures
        first == second,
        history(w, first) == history(w, second),
        town_after(w, first) == town_after(w, second),
        outcomes_of(town_after(w, first).firms) == outcomes_of(town_after(w, second).firms),
        shares(w, first) == shares(w, second),
        share_series(history(w, first)) == share_series(history(w, second)),
        wins_all(shares(w, first), WTA_START_DAY as int, spec_ratio(8, 10)) == wins_all(
            shares(w, second),
            WTA_START_DAY as int,
            spec_ratio(8, 10),
        ),
        some_improved(history(w, first)) == some_improved(history(w, second)),
        calls(w, first, mode) == calls(w, second, mode),
{
    if first.len() <= second.len() {
        lemma_same_days(w, first, second, mode, a, b, keys, first.len() as int);
        assert(first.take(first.len() as int) =~= first);
        lemma_no_shorter(w, first, second, limit);
    } else {
        lemma_same_days(w, first, second, mode, a, b, keys, second.len() as int);
        assert(second.take(second.len() as int) =~= second);
        lemma_no_shorter(w, second, first, limit);
    }
}

/// Every manager of a restaurant in business answers.
proof fn lemma_managers_answer(w: WorldView, model: spec_fn(Seq<char>) -> Seq<char>, i: int)
    requires
        0 <= i < w.firms.len(),
        w.firms[i].1.alive,
    ensures
        answered(managers_say(w, model), w.firms[i].0),
{
    let ids = alive_ids(w.firms);
    let said = managers_say(w, model);
    lemma_alive_asked(w.firms, i);
    let k = choose|k: int| 0 <= k < ids.len() && ids[k] == w.firms[i].0;
    assert(questions_of(morning(w), w.market)[k].0 == ids[k]);
    assert(said[k].0 == w.firms[i].0);
}

/// There are no more choices than customers.
proof fn lemma_choices_within(
    w: WorldView,
    mode: CustomerMode,
    model: spec_fn(Seq<char>) -> Seq<char>,
    keys: Seq<Seq<u32>>,
)
    requires
        w.wf(),
        w.firms.len() <= CUSTOMER_ID_BASE,
        w.customers.len() <= u32::MAX,
    ensures
        decided(w, mode, model, keys).choices.len() <= w.customers.len(),
{
    let m = morning(w);
    let noon = after_answers(m, managers_say(w, model));
    answers_keep_the_town(m, managers_say(w, model));
    let offers = offers_of(noon.firms);
    let picks = customers_pick(noon, mode, model);
    let asked = asked_ids(noon.customers, mode);
    if offers.len() > 0 {
        lemma_offers_within(noon.firms);
        assert forall|k: int| 0 <= k < picks.len() implies #[trigger] picks[k] < offers.len() by {
            let text = model(asked_of(noon, mode, asked[k]));
            pick_is_an_offer(text, offers);
        }
        everyone_goes_to_an_offer(noon.customers, mode, offers, picks, keys);
        everyone_is_asked_once(noon.customers, mode);
        asked.to_multiset_ensures();
        ids_of(noon.customers).to_multiset_ensures();
    }
}

/// There are no more offers than restaurants.
proof fn lemma_offers_within(firms: Seq<(AgentId, FirmView)>)
    ensures
        offers_of(firms).len() <= firms.len(),
    decreases firms.len(),
{
    if firms.len() > 0 {
        lemma_offers_within(firms.drop_last());
    }
}

/// A run in a town that was drawn, in which a language model answers, is recorded in full. It
/// takes a day at least and no more than asked for; of each day and each restaurant there is one
/// row, by day and then by restaurant, all of restaurants in business; shares and similarities
/// lie between zero and one, and so do Gini coefficients, unless the sum of the distances of the
/// revenues overflows; no restaurant's revenue so far falls. The shares by which one restaurant
/// takes all are those of the rows, and the language model is asked once a day for each
/// restaurant and each customer.
pub proof fn runs_are_recorded_in_full(
    cfg: Config,
    firms: Seq<FirmDraw>,
    customers: Seq<CustomerDraw>,
    days: Seq<Decisions>,
    limit: u64,
    mode: CustomerMode,
    model: spec_fn(Seq<char>) -> Seq<char>,
    keys: Seq<Seq<Seq<u32>>>,
    d: int,
    i: int,
)
    requires
        1 <= firms.len() <= CUSTOMER_ID_BASE,
        customers.len() <= u32::MAX,
        1 <= limit < u64::MAX,
        is_run(first_world(cfg, firms, customers), days, limit),
        is_led_by(first_world(cfg, firms, customers), days, mode, model, keys),
        0 <= d < days.len(),
        0 <= i < firms.len(),
    ensures
        ({
            let w = first_world(cfg, firms, customers);
            let rows = history(w, days);
            let n = firms.len();
            let row = rows[d * n + i];
            let paid = paid_firms(town_after(w, days.take(d)), days[d]);
            let one = spec_real(1).value();
            &&& 1 <= days.len() <= limit
            &&& rows.len() == days.len() * n
            &&& row.day == d && row.firm == i && row.firm_alive == 1
            &&& !row.market_share_max.is_nan() && 0 <= row.market_share_max.value() <= one
            &&& !row.menu_similarity.is_nan() && 0 <= row.menu_similarity.value() <= one
            &&& real_sum(distances(revenues(paid))).is_finite() ==> !row.revenue_gini.is_nan() && 0
                <= row.revenue_gini.value() <= one
            &&& d + 1 < days.len() ==> row.cumulative_revenue.at_most(
                rows[(d + 1) * n + i].cumulative_revenue,
            )
            &&& shares(w, days) == share_series(rows)
            &&& calls(w, days, mode) == days.len() * (n + customers.len())
        }),
{
    let w = first_world(cfg, firms, customers);
    let before = town_after(w, days.take(d));
    a_drawn_town_can_start(cfg, firms, customers);
    runs_end_in_time(w, days, limit);
    one_row_for_each_day_and_restaurant(w, days);
    rows_are_of_the_living(w, days, limit, d, i);
    assert(is_priced_by(w, days[0])) by {
        assert(days.take(0) =~= seq![]);
        assert(days[0] == decided(w, mode, model, keys[0]));
        assert forall|k: int| 0 <= k < w.firms.len() implies answered(
            days[0].answers,
            (#[trigger] w.firms[k]).0,
        ) by {
            lemma_managers_answer(w, model, k);
        }
    }
    lemma_town_after(w, days.take(d));
    assert(days[d] == decided(before, mode, model, keys[d]));
    lemma_choices_within(before, mode, model, keys[d]);
    assert forall|k: int| 0 <= k < w.firms.len() implies (#[trigger] w.firms[k]).1.menu.len()
        <= u64::MAX by {
        assert(w.firms[k].1.menu.len() == firms[k].prices.len());
    }
    recorded_measures_are_fractions(w, days, d, i);
    if d + 1 < days.len() {
        revenue_never_falls(w, days, d, i);
    }
    shares_are_those_of_the_rows(w, days);
    everyone_is_asked_every_day(w, days, limit, mode);
}

} // verus!
