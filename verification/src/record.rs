//! What is recorded of a run, event by event.
use crate::binary64::{real_of, spec_real, Real};
use crate::metrics::DailyMetric;
use crate::reward::rows_of;
use crate::simulation::{last_day, latest, FirmOutcome, SimulationResult};
use crate::text::{chars_of, contains, decimal, find, find_part, push_decimal};
use crate::world::{AgentId, FirmView, MarketView};
use vstd::prelude::*;
use vstd::string::*;

verus! {

/// The name of the experiment.
pub const EXPERIMENT: &'static str = "competeai";

/// The identity of the repository.
pub const REPO_ID: &'static str = "zhao2024";

/// The field of research.
pub const DOMAIN: &'static str = "simulation";

/// The unit of time: one day of the market.
pub const T_UNIT: &'static str = "round";

/// What values of a run are values of.
pub const SCOPE: &'static str = "run";

/// What values across runs are values of.
pub const SWEEP_SCOPE: &'static str = "sweep";

/// Which language model answered.
#[derive(Debug)]
pub struct Llm {
    pub provider: String,
    pub model_snapshot: String,
    pub temperature: Option<Real>,
    /// The hash of a fixed system prompt, if there is one.
    pub system_prompt_hash: Option<String>,
}

/// Who provides a language model, by its address.
pub open spec fn provider_of(endpoint: Seq<char>) -> Seq<char> {
    if find(endpoint, "mock://"@) == Some(0int) {
        "mock"@
    } else if find(endpoint, "openai"@) is Some {
        "openai"@
    } else {
        "ollama"@
    }
}

/// Which language model answered: as it names itself, and by whom it is provided. Questions
/// have no fixed system prompt.
pub fn llm_block(model: &str, endpoint: &str, temperature: Real) -> (r: Llm)
    ensures
        r.provider@ == provider_of(endpoint@),
        r.model_snapshot@ == model@,
        r.temperature == Some(temperature),
        r.system_prompt_hash is None,
{
    let provider = if starts_with(endpoint, "mock://") {
        "mock"
    } else if contains(endpoint, "openai") {
        "openai"
    } else {
        "ollama"
    };
    Llm {
        provider: provider.to_owned(),
        model_snapshot: model.to_owned(),
        temperature: Some(temperature),
        system_prompt_hash: None,
    }
}

/// Whether a text starts with another one.
fn starts_with(text: &str, part: &str) -> (r: bool)
    ensures
        r == (find(text@, part@) == Some(0int)),
{
    let v = chars_of(text);
    let p = chars_of(part);
    match find_part(&v, &p) {
        Some(i) => i == 0,
        None => false,
    }
}

/// The identity under which a restaurant is observed.
pub open spec fn spec_unit_id(firm: u64) -> Seq<char> {
    "firm-"@ + decimal(firm as nat)
}

/// The identity under which a restaurant is observed.
pub fn unit_id(firm: u64) -> (r: String)
    ensures
        r@ == spec_unit_id(firm),
{
    let mut s = "firm-".to_owned();
    push_decimal(&mut s, firm);
    s
}

/// What is recorded of the market on a day.
#[derive(Clone, Copy, Debug, PartialEq, Eq, Structural)]
pub struct DailyAggregate {
    pub day: u64,
    pub revenue_gini: Real,
    pub market_share_max: Real,
    pub menu_similarity: Real,
    pub n_alive_firms: Real,
}

/// What a row says of the market.
pub open spec fn aggregate_of(m: DailyMetric) -> DailyAggregate {
    DailyAggregate {
        day: m.day,
        revenue_gini: m.revenue_gini,
        market_share_max: m.market_share_max,
        menu_similarity: m.menu_similarity,
        n_alive_firms: spec_real(m.n_alive_firms as nat),
    }
}

/// What rows say of the market: each day once, from its first row.
pub open spec fn aggregates(history: Seq<DailyMetric>) -> Seq<DailyAggregate>
    decreases history.len(),
{
    if history.len() == 0 {
        seq![]
    } else {
        let before = aggregates(history.drop_last());
        if history.len() >= 2 && history[history.len() - 2].day == history.last().day {
            before
        } else {
            before.push(aggregate_of(history.last()))
        }
    }
}

/// What is recorded of the market, day by day.
pub fn daily_aggregates(history: &[DailyMetric]) -> (r: Vec<DailyAggregate>)
    ensures
        r@ == aggregates(history@),
{
    let mut r: Vec<DailyAggregate> = Vec::new();
    let mut i: usize = 0;
    while i < history.len()
        invariant
            i <= history@.len(),
            r@ == aggregates(history@.take(i as int)),
        decreases history@.len() - i,
    {
        let m = history[i];
        proof {
            let now = history@.take(i + 1);
            assert(now.drop_last() =~= history@.take(i as int));
            assert(now.last() == m);
            if i > 0 {
                assert(now[now.len() - 2] == history@[i - 1]);
            }
        }
        if i == 0 || history[i - 1].day != m.day {
            r.push(
                DailyAggregate {
                    day: m.day,
                    revenue_gini: m.revenue_gini,
                    market_share_max: m.market_share_max,
                    menu_similarity: m.menu_similarity,
                    n_alive_firms: real_of(m.n_alive_firms),
                },
            );
        }
        i = i + 1;
    }
    proof {
        assert(history@.take(history@.len() as int) =~= history@);
    }
    r
}

/// An observation of a restaurant on a day.
#[derive(Debug)]
pub struct ObservationEvent {
    pub unit_id: String,
    pub t: u64,
    pub t_unit: &'static str,
    pub firm: u64,
    pub day_customers: u64,
    pub day_revenue: Real,
    pub cumulative_revenue: Real,
    pub avg_dish_score: Real,
    pub avg_price: Real,
    pub reputation: Real,
}

impl ObservationEvent {
    /// The observation is the one that a row tells of.
    pub open spec fn tells(&self, m: DailyMetric) -> bool {
        &&& self.unit_id@ == spec_unit_id(m.firm)
        &&& self.t == m.day
        &&& self.t_unit@ == T_UNIT@
        &&& self.firm == m.firm
        &&& self.day_customers == m.day_customers
        &&& self.day_revenue == m.day_revenue
        &&& self.cumulative_revenue == m.cumulative_revenue
        &&& self.avg_dish_score == m.avg_dish_score
        &&& self.avg_price == m.avg_price
        &&& self.reputation == m.reputation
    }
}

/// The observations of a run, row by row.
pub fn observations(history: &[DailyMetric]) -> (r: Vec<ObservationEvent>)
    ensures
        r@.len() == history@.len(),
        forall|i: int| 0 <= i < r@.len() ==> (#[trigger] r@[i]).tells(history@[i]),
{
    let mut r: Vec<ObservationEvent> = Vec::new();
    let mut i: usize = 0;
    while i < history.len()
        invariant
            i <= history@.len(),
            r@.len() == i,
            forall|k: int| 0 <= k < i ==> (#[trigger] r@[k]).tells(history@[k]),
        decreases history@.len() - i,
    {
        let m = history[i];
        r.push(
            ObservationEvent {
                unit_id: unit_id(m.firm),
                t: m.day,
                t_unit: T_UNIT,
                firm: m.firm,
                day_customers: m.day_customers,
                day_revenue: m.day_revenue,
                cumulative_revenue: m.cumulative_revenue,
                avg_dish_score: m.avg_dish_score,
                avg_price: m.avg_price,
                reputation: m.reputation,
            },
        );
        i = i + 1;
    }
    r
}

/// The names and values of a list.
pub open spec fn values_view(values: Seq<(&'static str, Real)>) -> Seq<(Seq<char>, Real)> {
    values.map_values(|e: (&'static str, Real)| (e.0@, e.1))
}

/// One if it happened, else zero.
pub open spec fn indicator(happened: bool) -> Real {
    if happened {
        spec_real(1)
    } else {
        Real { bits: 0 }
    }
}

/// The values of a run as a whole. A part of no calls is not a value.
pub open spec fn run_values(r: SimulationResult) -> Seq<(Seq<char>, Real)> {
    let always = seq![
        ("n_units"@, spec_real(r.firm_outcomes@.len())),
        ("final_day"@, spec_real(r.final_day as nat)),
        ("winner_take_all"@, indicator(r.winner_take_all)),
        ("quality_improved"@, indicator(r.quality_improved)),
        ("llm_calls"@, spec_real(r.metadata.total as nat)),
        ("llm_cache_hits"@, spec_real(r.metadata.cache_hits as nat)),
    ];
    if r.metadata.total > 0 {
        always.push(("llm_cache_hit_rate"@, r.metadata.cache_hit_rate))
    } else {
        always
    }
}

/// One if it happened, else zero.
fn indicate(happened: bool) -> (r: Real)
    ensures
        r == indicator(happened),
{
    if happened {
        real_of(1)
    } else {
        Real { bits: 0 }
    }
}

/// The values of a run as a whole.
pub fn run_scope(result: &SimulationResult) -> (r: Vec<(&'static str, Real)>)
    ensures
        values_view(r@) == run_values(*result),
{
    let mut r: Vec<(&'static str, Real)> = Vec::new();
    r.push(("n_units", real_of(result.firm_outcomes.len() as u64)));
    r.push(("final_day", real_of(result.final_day as u64)));
    r.push(("winner_take_all", indicate(result.winner_take_all)));
    r.push(("quality_improved", indicate(result.quality_improved)));
    r.push(("llm_calls", real_of(result.metadata.total as u64)));
    r.push(("llm_cache_hits", real_of(result.metadata.cache_hits as u64)));
    if result.metadata.total > 0 {
        r.push(("llm_cache_hit_rate", result.metadata.cache_hit_rate));
    }
    proof {
        assert(values_view(r@) =~= run_values(*result));
    }
    r
}

/// What became of a restaurant at the end of a run.
#[derive(Debug)]
pub struct TerminalEvent {
    pub unit_id: String,
    pub t: u64,
    pub t_unit: &'static str,
    /// `survive` or `exit`.
    pub outcome: &'static str,
    /// Whether the run ended before the restaurant gave up.
    pub censored: bool,
    /// The last day that was observed.
    pub budget: u64,
    pub firm: u64,
    pub funds: Real,
}

impl TerminalEvent {
    /// The event is what became of a restaurant by a day.
    pub open spec fn tells(&self, day: u64, o: FirmOutcome) -> bool {
        &&& self.unit_id@ == spec_unit_id(o.firm)
        &&& self.t == day
        &&& self.t_unit@ == T_UNIT@
        &&& self.outcome@ == (if o.alive {
            "survive"@
        } else {
            "exit"@
        })
        &&& self.censored == o.alive
        &&& self.budget == day
        &&& self.firm == o.firm
        &&& self.funds == o.funds
    }
}

/// What became of the restaurants by the last day observed.
pub fn terminals(final_day: u64, outcomes: &[FirmOutcome]) -> (r: Vec<TerminalEvent>)
    ensures
        r@.len() == outcomes@.len(),
        forall|i: int| 0 <= i < r@.len() ==> (#[trigger] r@[i]).tells(final_day, outcomes@[i]),
{
    let mut r: Vec<TerminalEvent> = Vec::new();
    let mut i: usize = 0;
    while i < outcomes.len()
        invariant
            i <= outcomes@.len(),
            r@.len() == i,
            forall|k: int| 0 <= k < i ==> (#[trigger] r@[k]).tells(final_day, outcomes@[k]),
        decreases outcomes@.len() - i,
    {
        let o = outcomes[i];
        r.push(
            TerminalEvent {
                unit_id: unit_id(o.firm),
                t: final_day,
                t_unit: T_UNIT,
                outcome: if o.alive {
                    "survive"
                } else {
                    "exit"
                },
                censored: o.alive,
                budget: final_day,
                firm: o.firm,
                funds: o.funds,
            },
        );
        i = i + 1;
    }
    r
}

/// Everything that is recorded of a run.
#[derive(Debug)]
pub struct SimulationLog {
    pub aggregates: Vec<DailyAggregate>,
    pub observations: Vec<ObservationEvent>,
    pub run_scope: Vec<(&'static str, Real)>,
    pub terminals: Vec<TerminalEvent>,
}

/// Everything that is recorded of a run. What became of the restaurants is recorded for the
/// last day that was observed, if any was.
pub fn log_simulation(result: &SimulationResult) -> (r: SimulationLog)
    ensures
        r.aggregates@ == aggregates(result.metrics_history@),
        r.observations@.len() == result.metrics_history@.len(),
        forall|i: int|
            0 <= i < r.observations@.len() ==> (#[trigger] r.observations@[i]).tells(
                result.metrics_history@[i],
            ),
        values_view(r.run_scope@) == run_values(*result),
        result.metrics_history@.len() == 0 ==> r.terminals@.len() == 0,
        result.metrics_history@.len() > 0 ==> {
            &&& r.terminals@.len() == result.firm_outcomes@.len()
            &&& forall|i: int|
                0 <= i < r.terminals@.len() ==> (#[trigger] r.terminals@[i]).tells(
                    latest(result.metrics_history@),
                    result.firm_outcomes@[i],
                )
        },
{
    let history = result.metrics_history.as_slice();
    let ends = if history.len() == 0 {
        Vec::new()
    } else {
        terminals(last_day(history), result.firm_outcomes.as_slice())
    };
    SimulationLog {
        aggregates: daily_aggregates(history),
        observations: observations(history),
        run_scope: run_scope(result),
        terminals: ends,
    }
}

/// No day that was observed comes after the last.
proof fn lemma_latest(history: Seq<DailyMetric>, i: int)
    requires
        0 <= i < history.len(),
    ensures
        history[i].day <= latest(history),
    decreases history.len(),
{
    if i < history.len() - 1 {
        lemma_latest(history.drop_last(), i);
    }
}

/// Nothing is observed of a restaurant after what became of it is recorded; a restaurant that
/// survives does so to the end of what was observed.
pub proof fn nothing_follows_the_end(
    history: Seq<DailyMetric>,
    o: FirmOutcome,
    observed: ObservationEvent,
    i: int,
    end: TerminalEvent,
)
    requires
        0 <= i < history.len(),
        observed.tells(history[i]),
        end.tells(latest(history), o),
    ensures
        observed.t <= end.t,
        end.censored ==> end.t == end.budget && end.outcome@ == "survive"@,
{
    lemma_latest(history, i);
}

/// The last day of rows none of which comes after the last.
proof fn lemma_latest_is(history: Seq<DailyMetric>, day: u64)
    requires
        history.len() > 0,
        history.last().day == day,
        forall|k: int| 0 <= k < history.len() ==> (#[trigger] history[k]).day <= day,
    ensures
        latest(history) == day,
{
    let rest = history.drop_last();
    if rest.len() > 0 {
        lemma_latest_within(rest, day);
    }
}

/// The last day is no later than a day that no row comes after.
proof fn lemma_latest_within(history: Seq<DailyMetric>, day: u64)
    requires
        history.len() > 0,
        forall|k: int| 0 <= k < history.len() ==> (#[trigger] history[k]).day <= day,
    ensures
        latest(history) <= day,
    decreases history.len(),
{
    assert(history[history.len() - 1].day <= day);
    let rest = history.drop_last();
    if rest.len() > 0 {
        assert forall|k: int| 0 <= k < rest.len() implies (#[trigger] rest[k]).day <= day by {
            assert(rest[k] == history[k]);
        }
        lemma_latest_within(rest, day);
    }
}

/// What became of a restaurant is recorded for a day on which it was observed, if the last
/// thing recorded is a day of the town.
pub proof fn ends_are_observed(
    before: Seq<DailyMetric>,
    firms: Seq<(AgentId, FirmView)>,
    market: MarketView,
    day: u64,
    i: int,
)
    requires
        0 <= i < firms.len(),
        forall|k: int| 0 <= k < before.len() ==> (#[trigger] before[k]).day <= day,
    ensures
        ({
            let history = before + rows_of(firms, market, day);
            &&& latest(history) == day
            &&& history[before.len() + i].day == day
            &&& history[before.len() + i].firm == firms[i].0.0
        }),
{
    let history = before + rows_of(firms, market, day);
    lemma_latest_is(history, day);
}

} // verus!
