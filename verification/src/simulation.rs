//! The start and the end of a run.
use crate::accuracy::PARTS;
use crate::binary64::{ratio, spec_ratio, Real};
use crate::choice::{put_number, with_number};
use crate::config::{Config, CustomerMode};
use crate::metrics::{
    count_sum, market_share_max, spec_share, winner_take_all, wins_all, DailyMetric,
};
use crate::openings::winners_hold_four_fifths;
use crate::reward::{day_counts, rows_of};
use crate::world::{
    customers_view, firms_view, increasing, menu_view, AgentId, Customer, CustomerView, Dish,
    DishView, Firm, FirmView, Market, MarketView, MarketWorld, WorldView, CUSTOMER_ID_BASE,
};
use vstd::arithmetic::power2::*;
use vstd::prelude::*;
use vstd::string::*;

verus! {

/// From which day on, counted from zero, it is asked whether one restaurant takes all.
pub const WTA_START_DAY: usize = 5;

/// Above what share of the customers a restaurant takes all.
pub fn wta_threshold() -> (r: Real)
    ensures
        r == spec_ratio(8, 10),
{
    ratio(8, 10)
}

/// How many preferences there are.
pub const N_PREFERENCES: usize = 5;

/// How many states of health there are.
pub const N_HEALTH: usize = 4;

/// How many dishes there are to start with.
pub const N_DISHES: usize = 8;

/// A preference, by its number.
pub open spec fn spec_preference(k: int) -> Seq<char> {
    if k == 0 {
        "loves rich, indulgent dishes"@
    } else if k == 1 {
        "prefers light and healthy meals"@
    } else if k == 2 {
        "is a budget-conscious bargain hunter"@
    } else if k == 3 {
        "seeks adventurous, novel flavors"@
    } else {
        "values classic comfort food"@
    }
}

fn preference(k: usize) -> (r: String)
    requires
        k < N_PREFERENCES,
    ensures
        r@ == spec_preference(k as int),
{
    if k == 0 {
        "loves rich, indulgent dishes".to_owned()
    } else if k == 1 {
        "prefers light and healthy meals".to_owned()
    } else if k == 2 {
        "is a budget-conscious bargain hunter".to_owned()
    } else if k == 3 {
        "seeks adventurous, novel flavors".to_owned()
    } else {
        "values classic comfort food".to_owned()
    }
}

/// A state of health, by its number.
pub open spec fn spec_health(k: int) -> Seq<char> {
    if k == 0 {
        "no dietary restrictions"@
    } else if k == 1 {
        "vegetarian"@
    } else if k == 2 {
        "watching calories"@
    } else {
        "gluten-free"@
    }
}

fn health(k: usize) -> (r: String)
    requires
        k < N_HEALTH,
    ensures
        r@ == spec_health(k as int),
{
    if k == 0 {
        "no dietary restrictions".to_owned()
    } else if k == 1 {
        "vegetarian".to_owned()
    } else if k == 2 {
        "watching calories".to_owned()
    } else {
        "gluten-free".to_owned()
    }
}

/// The name of a dish, by its number.
pub open spec fn spec_dish_name(k: int) -> Seq<char> {
    if k == 0 {
        "sushi"@
    } else if k == 1 {
        "ramen"@
    } else if k == 2 {
        "tempura"@
    } else if k == 3 {
        "curry"@
    } else if k == 4 {
        "udon"@
    } else if k == 5 {
        "gyoza"@
    } else if k == 6 {
        "yakitori"@
    } else {
        "donburi"@
    }
}

fn dish_name(k: usize) -> (r: String)
    requires
        k < N_DISHES,
    ensures
        r@ == spec_dish_name(k as int),
{
    if k == 0 {
        "sushi".to_owned()
    } else if k == 1 {
        "ramen".to_owned()
    } else if k == 2 {
        "tempura".to_owned()
    } else if k == 3 {
        "curry".to_owned()
    } else if k == 4 {
        "udon".to_owned()
    } else if k == 5 {
        "gyoza".to_owned()
    } else if k == 6 {
        "yakitori".to_owned()
    } else {
        "donburi".to_owned()
    }
}

/// What is drawn for a restaurant that opens.
#[derive(Debug)]
pub struct FirmDraw {
    /// Its funds as a part of the usual, drawn between 0.8 and 1.2.
    pub funds: Real,
    /// The price of each dish as a part of the usual, drawn between 0.9 and 1.1.
    pub prices: Vec<Real>,
}

/// What is drawn for a customer.
#[derive(Clone, Copy, Debug, PartialEq, Eq, Structural)]
pub struct CustomerDraw {
    /// What they can spend as a part of the usual, drawn between 0.6 and 1.6.
    pub income: Real,
    /// The number of their preference.
    pub preference: usize,
    /// The number of their state of health.
    pub health: usize,
}

/// The `k`th dish of the `i`th restaurant.
pub open spec fn first_dish(cfg: Config, i: int, k: int, factor: Real) -> DishView {
    let price = cfg.init_price.times(factor);
    DishView {
        name: spec_dish_name((i + k) % N_DISHES as int),
        cost: price.times(cfg.init_cost_ratio),
        price,
        chef_salary: cfg.init_chef_salary,
    }
}

/// The `i`th restaurant when it opens.
pub open spec fn first_firm(cfg: Config, i: int, draw: FirmDraw) -> FirmView {
    FirmView {
        funds: cfg.init_funds.times(draw.funds),
        menu: Seq::new(draw.prices@.len(), |k: int| first_dish(cfg, i, k, draw.prices@[k])),
        chef_salary: cfg.init_chef_salary,
        advertisement: "A welcoming neighborhood restaurant."@,
        reputation: Real { bits: 0 },
        cumulative_customers: 0,
        cumulative_revenue: Real { bits: 0 },
        comments: seq![],
        memory: seq![],
        alive: true,
    }
}

/// The size of a group: at least one.
pub open spec fn size_of_group(cfg: Config) -> int {
    if cfg.group_size == 0 {
        1
    } else {
        cfg.group_size as int
    }
}

/// The `j`th customer.
pub open spec fn first_customer(cfg: Config, j: int, draw: CustomerDraw) -> CustomerView {
    CustomerView {
        income: cfg.customer_income.times(draw.income),
        preference: spec_preference(draw.preference as int),
        health: spec_health(draw.health as int),
        group: if cfg.customer_mode == CustomerMode::Group {
            Some((j / size_of_group(cfg)) as u64)
        } else {
            None
        },
        visit_memory: seq![],
    }
}

/// The town before the first day.
pub open spec fn first_world(
    cfg: Config,
    firms: Seq<FirmDraw>,
    customers: Seq<CustomerDraw>,
) -> WorldView {
    WorldView {
        t: 0,
        firms: Seq::new(
            firms.len(),
            |i: int| (AgentId(i as u64), first_firm(cfg, i, firms[i])),
        ),
        customers: Seq::new(
            customers.len(),
            |j: int|
                (AgentId((CUSTOMER_ID_BASE + j) as u64), first_customer(cfg, j, customers[j])),
        ),
        market: MarketView::nothing(),
        day: 0,
    }
}

/// What was drawn is what the settings call for.
pub open spec fn draws_fit(cfg: Config, firms: Seq<FirmDraw>, customers: Seq<CustomerDraw>) -> bool {
    &&& firms.len() == cfg.n_firms
    &&& customers.len() == cfg.n_customers
    &&& forall|i: int|
        0 <= i < firms.len() ==> (#[trigger] firms[i]).prices@.len() == cfg.init_menu_size
    &&& forall|j: int|
        0 <= j < customers.len() ==> (#[trigger] customers[j]).preference < N_PREFERENCES
            && customers[j].health < N_HEALTH
}

/// Opens the `i`th restaurant.
fn open_firm(cfg: &Config, i: usize, draw: &FirmDraw) -> (r: Firm)
    ensures
        r@ == first_firm(*cfg, i as int, *draw),
{
    let mut menu: Vec<Dish> = Vec::new();
    let mut k: usize = 0;
    while k < draw.prices.len()
        invariant
            k <= draw.prices@.len(),
            menu@.len() == k,
            forall|j: int|
                0 <= j < k ==> #[trigger] menu@[j]@ == first_dish(
                    *cfg,
                    i as int,
                    j,
                    draw.prices@[j],
                ),
        decreases draw.prices@.len() - k,
    {
        let price = cfg.init_price.times(draw.prices[k]);
        let place: u128 = (i as u128 + k as u128) % (N_DISHES as u128);
        menu.push(
            Dish {
                name: dish_name(place as usize),
                cost: price.times(cfg.init_cost_ratio),
                price,
                chef_salary: cfg.init_chef_salary,
            },
        );
        k = k + 1;
    }
    let ghost dishes = menu@;
    let mut firm = Firm::new(cfg.init_funds.times(draw.funds), menu, cfg.init_chef_salary);
    firm.advertisement = "A welcoming neighborhood restaurant.".to_owned();
    proof {
        assert(menu_view(dishes) =~= first_firm(*cfg, i as int, *draw).menu);
    }
    firm
}

/// The town before the first day, made from what was drawn for each restaurant and each
/// customer.
pub fn init_world(cfg: &Config, firms: &Vec<FirmDraw>, customers: &Vec<CustomerDraw>) -> (r:
    MarketWorld)
    requires
        draws_fit(*cfg, firms@, customers@),
        CUSTOMER_ID_BASE + cfg.n_customers <= u64::MAX,
    ensures
        r@ == first_world(*cfg, firms@, customers@),
{
    let ghost goal = first_world(*cfg, firms@, customers@);
    let mut restaurants: Vec<(AgentId, Firm)> = Vec::new();
    let mut i: usize = 0;
    while i < firms.len()
        invariant
            i <= firms@.len(),
            goal == first_world(*cfg, firms@, customers@),
            restaurants@.len() == i,
            forall|k: int| 0 <= k < i ==> #[trigger] firms_view(restaurants@)[k] == goal.firms[k],
        decreases firms@.len() - i,
    {
        let ghost before = restaurants@;
        restaurants.push((AgentId(i as u64), open_firm(cfg, i, &firms[i])));
        proof {
            assert forall|k: int| 0 <= k < i + 1 implies #[trigger] firms_view(restaurants@)[k]
                == goal.firms[k] by {
                if k < i {
                    assert(firms_view(restaurants@)[k] == firms_view(before)[k]);
                }
            }
        }
        i = i + 1;
    }
    let size: u64 = if cfg.group_size == 0 {
        1
    } else {
        cfg.group_size as u64
    };
    let mut people: Vec<(AgentId, Customer)> = Vec::new();
    let mut j: usize = 0;
    while j < customers.len()
        invariant
            j <= customers@.len(),
            forall|k: int|
                0 <= k < customers@.len() ==> (#[trigger] customers@[k]).preference < N_PREFERENCES
                    && customers@[k].health < N_HEALTH,
            CUSTOMER_ID_BASE + customers@.len() <= u64::MAX,
            size == size_of_group(*cfg),
            size > 0,
            goal == first_world(*cfg, firms@, customers@),
            people@.len() == j,
            forall|k: int|
                0 <= k < j ==> #[trigger] customers_view(people@)[k] == goal.customers[k],
        decreases customers@.len() - j,
    {
        let ghost before = people@;
        let draw = customers[j];
        let mut customer = Customer::new(
            cfg.customer_income.times(draw.income),
            preference(draw.preference),
            health(draw.health),
        );
        if cfg.customer_mode == CustomerMode::Group {
            customer.group = Some(j as u64 / size);
        }
        proof {
            assert(customer@ =~= first_customer(*cfg, j as int, draw));
        }
        people.push((AgentId(CUSTOMER_ID_BASE + j as u64), customer));
        proof {
            assert forall|k: int| 0 <= k < j + 1 implies #[trigger] customers_view(people@)[k]
                == goal.customers[k] by {
                if k < j {
                    assert(customers_view(people@)[k] == customers_view(before)[k]);
                }
            }
        }
        j = j + 1;
    }
    proof {
        assert(firms_view(restaurants@) =~= goal.firms);
        assert(customers_view(people@) =~= goal.customers);
    }
    MarketWorld { t: 0, firms: restaurants, customers: people, market: Market::default(), day: 0 }
}

/// The town starts in order: identities go up and lie on their sides of the boundary, and
/// every restaurant is in business.
pub proof fn the_first_world_is_in_order(
    cfg: Config,
    firms: Seq<FirmDraw>,
    customers: Seq<CustomerDraw>,
)
    requires
        firms.len() <= CUSTOMER_ID_BASE,
        CUSTOMER_ID_BASE + customers.len() <= u64::MAX,
    ensures
        first_world(cfg, firms, customers).wf(),
        first_world(cfg, firms, customers).partitioned(),
        forall|i: int|
            0 <= i < firms.len() ==> (#[trigger] first_world(
                cfg,
                firms,
                customers,
            ).firms[i]).1.alive,
{
}

/// In the group mode as many customers as a group has, one after the other, are a group.
pub proof fn groups_are_consecutive(
    cfg: Config,
    firms: Seq<FirmDraw>,
    customers: Seq<CustomerDraw>,
    i: int,
    j: int,
)
    requires
        cfg.customer_mode == CustomerMode::Group,
        0 <= i < customers.len() <= u64::MAX,
        0 <= j < customers.len(),
    ensures
        ({
            let c = first_world(cfg, firms, customers).customers;
            c[i].1.group == c[j].1.group <==> i / size_of_group(cfg) == j / size_of_group(cfg)
        }),
{
    let s = size_of_group(cfg);
    assert(0 <= i / s <= i && 0 <= j / s <= j) by (nonlinear_arith)
        requires s >= 1, i >= 0, j >= 0;
}

/// The score that was last recorded of a restaurant on a day.
pub open spec fn score_on(metrics: Seq<DailyMetric>, day: u64, firm: u64) -> Option<Real>
    decreases metrics.len(),
{
    if metrics.len() == 0 {
        None
    } else if metrics.last().day == day && metrics.last().firm == firm {
        Some(metrics.last().avg_dish_score)
    } else {
        score_on(metrics.drop_last(), day, firm)
    }
}

/// The first day of which something is recorded.
pub open spec fn earliest(metrics: Seq<DailyMetric>) -> u64
    decreases metrics.len(),
{
    if metrics.len() == 0 {
        0
    } else if metrics.len() == 1 || metrics.last().day < earliest(metrics.drop_last()) {
        metrics.last().day
    } else {
        earliest(metrics.drop_last())
    }
}

/// The last day of which something is recorded.
pub open spec fn latest(metrics: Seq<DailyMetric>) -> u64
    decreases metrics.len(),
{
    if metrics.len() == 0 {
        0
    } else if metrics.len() == 1 || metrics.last().day > latest(metrics.drop_last()) {
        metrics.last().day
    } else {
        latest(metrics.drop_last())
    }
}

/// A restaurant's dishes are better on one day than on another, by more than `10^-9`.
pub open spec fn improved(metrics: Seq<DailyMetric>, from: u64, to: u64, firm: u64) -> bool {
    match (score_on(metrics, from, firm), score_on(metrics, to, firm)) {
        (Some(a), Some(b)) => a.plus(spec_ratio(1, 1_000_000_000)).less(b),
        _ => false,
    }
}

/// Some restaurant's dishes got better from the first day to the last.
pub open spec fn some_improved(metrics: Seq<DailyMetric>) -> bool {
    earliest(metrics) != latest(metrics) && exists|firm: u64|
        improved(metrics, earliest(metrics), latest(metrics), firm)
}

/// The score that was last recorded of a restaurant on a day.
fn find_score(metrics: &[DailyMetric], day: u64, firm: u64) -> (r: Option<Real>)
    ensures
        r == score_on(metrics@, day, firm),
{
    let mut i: usize = metrics.len();
    proof {
        assert(metrics@.take(i as int) =~= metrics@);
    }
    while i > 0
        invariant
            i <= metrics@.len(),
            score_on(metrics@, day, firm) == score_on(metrics@.take(i as int), day, firm),
        decreases i,
    {
        proof {
            assert(metrics@.take(i as int).drop_last() =~= metrics@.take(i - 1));
            assert(metrics@.take(i as int).last() == metrics@[i - 1]);
        }
        i = i - 1;
        if metrics[i].day == day && metrics[i].firm == firm {
            return Some(metrics[i].avg_dish_score);
        }
    }
    None
}

/// The last day of which something is recorded; zero if nothing is.
pub fn last_day(metrics: &[DailyMetric]) -> (r: u64)
    ensures
        r == latest(metrics@),
{
    let mut last: u64 = 0;
    let mut i: usize = 0;
    while i < metrics.len()
        invariant
            i <= metrics@.len(),
            last == latest(metrics@.take(i as int)),
        decreases metrics@.len() - i,
    {
        proof {
            assert(metrics@.take(i + 1).drop_last() =~= metrics@.take(i as int));
            assert(metrics@.take(i + 1).last() == metrics@[i as int]);
        }
        if i == 0 || metrics[i].day > last {
            last = metrics[i].day;
        }
        i = i + 1;
    }
    proof {
        assert(metrics@.take(metrics@.len() as int) =~= metrics@);
    }
    last
}

/// The first day of which something is recorded; zero if nothing is.
pub fn first_day(metrics: &[DailyMetric]) -> (r: u64)
    ensures
        r == earliest(metrics@),
{
    let mut first: u64 = 0;
    let mut i: usize = 0;
    while i < metrics.len()
        invariant
            i <= metrics@.len(),
            first == earliest(metrics@.take(i as int)),
        decreases metrics@.len() - i,
    {
        proof {
            assert(metrics@.take(i + 1).drop_last() =~= metrics@.take(i as int));
            assert(metrics@.take(i + 1).last() == metrics@[i as int]);
        }
        if i == 0 || metrics[i].day < first {
            first = metrics[i].day;
        }
        i = i + 1;
    }
    proof {
        assert(metrics@.take(metrics@.len() as int) =~= metrics@);
    }
    first
}

/// A restaurant of which a score is recorded has a row.
proof fn lemma_score_has_row(metrics: Seq<DailyMetric>, day: u64, firm: u64)
    requires
        score_on(metrics, day, firm) is Some,
    ensures
        exists|i: int| 0 <= i < metrics.len() && (#[trigger] metrics[i]).firm == firm,
    decreases metrics.len(),
{
    if metrics.last().day == day && metrics.last().firm == firm {
        assert(metrics[metrics.len() - 1].firm == firm);
    } else {
        lemma_score_has_row(metrics.drop_last(), day, firm);
        let i = choose|i: int|
            0 <= i < metrics.drop_last().len() && (#[trigger] metrics.drop_last()[i]).firm == firm;
        assert(metrics[i].firm == firm);
    }
}

/// Whether some restaurant's dishes got better from the first day to the last.
pub fn compute_quality_improved(metrics: &[DailyMetric]) -> (r: bool)
    ensures
        r == some_improved(metrics@),
{
    let from: u64 = first_day(metrics);
    let to: u64 = last_day(metrics);
    if from == to {
        return false;
    }
    let mut i: usize = 0;
    while i < metrics.len()
        invariant
            i <= metrics@.len(),
            from == earliest(metrics@),
            to == latest(metrics@),
            from != to,
            forall|k: int|
                0 <= k < i ==> !improved(metrics@, from, to, (#[trigger] metrics@[k]).firm),
        decreases metrics@.len() - i,
    {
        let firm: u64 = metrics[i].firm;
        if let (Some(a), Some(b)) = (
            find_score(metrics, from, firm),
            find_score(metrics, to, firm),
        ) {
            if a.plus(ratio(1, 1_000_000_000)).less(b) {
                proof {
                    assert(improved(metrics@, from, to, firm));
                }
                return true;
            }
        }
        i = i + 1;
    }
    proof {
        assert forall|firm: u64| !improved(metrics@, from, to, firm) by {
            if improved(metrics@, from, to, firm) {
                lemma_score_has_row(metrics@, from, firm);
            }
        }
    }
    false
}

/// The days of which something is recorded, increasing.
pub open spec fn days_of(metrics: Seq<DailyMetric>) -> Seq<u64>
    decreases metrics.len(),
{
    if metrics.len() == 0 {
        seq![]
    } else {
        with_number(days_of(metrics.drop_last()), metrics.last().day)
    }
}

/// The customers recorded for a day, row by row.
pub open spec fn counts_on(metrics: Seq<DailyMetric>, day: u64) -> Seq<u64>
    decreases metrics.len(),
{
    if metrics.len() == 0 {
        seq![]
    } else if metrics.last().day == day {
        counts_on(metrics.drop_last(), day).push(metrics.last().day_customers)
    } else {
        counts_on(metrics.drop_last(), day)
    }
}

/// The largest share of the customers, day by day.
pub open spec fn share_series(metrics: Seq<DailyMetric>) -> Seq<Real> {
    days_of(metrics).map_values(|day: u64| spec_share(counts_on(metrics, day)))
}

/// The customers recorded for a day, row by row.
fn day_rows(metrics: &[DailyMetric], day: u64) -> (r: Vec<u64>)
    ensures
        r@ == counts_on(metrics@, day),
{
    let mut r: Vec<u64> = Vec::new();
    let mut i: usize = 0;
    while i < metrics.len()
        invariant
            i <= metrics@.len(),
            r@ == counts_on(metrics@.take(i as int), day),
        decreases metrics@.len() - i,
    {
        proof {
            assert(metrics@.take(i + 1).drop_last() =~= metrics@.take(i as int));
            assert(metrics@.take(i + 1).last() == metrics@[i as int]);
        }
        if metrics[i].day == day {
            r.push(metrics[i].day_customers);
        }
        i = i + 1;
    }
    proof {
        assert(metrics@.take(metrics@.len() as int) =~= metrics@);
    }
    r
}

/// The largest share of the customers, day by day.
pub fn max_share_series(metrics: &[DailyMetric]) -> (r: Vec<Real>)
    requires
        forall|day: u64| count_sum(#[trigger] counts_on(metrics@, day)) <= u64::MAX,
    ensures
        r@ == share_series(metrics@),
{
    let mut days: Vec<u64> = Vec::new();
    let mut i: usize = 0;
    while i < metrics.len()
        invariant
            i <= metrics@.len(),
            days@ == days_of(metrics@.take(i as int)),
        decreases metrics@.len() - i,
    {
        proof {
            assert(metrics@.take(i + 1).drop_last() =~= metrics@.take(i as int));
            assert(metrics@.take(i + 1).last() == metrics@[i as int]);
        }
        put_number(&mut days, metrics[i].day);
        i = i + 1;
    }
    proof {
        assert(metrics@.take(metrics@.len() as int) =~= metrics@);
    }
    let mut r: Vec<Real> = Vec::new();
    let mut k: usize = 0;
    while k < days.len()
        invariant
            k <= days@.len(),
            days@ == days_of(metrics@),
            forall|day: u64| count_sum(#[trigger] counts_on(metrics@, day)) <= u64::MAX,
            r@.len() == k,
            forall|j: int| 0 <= j < k ==> #[trigger] r@[j] == share_series(metrics@)[j],
        decreases days@.len() - k,
    {
        let counts = day_rows(metrics, days[k]);
        r.push(market_share_max(counts.as_slice()));
        k = k + 1;
    }
    proof {
        assert(r@ =~= share_series(metrics@));
    }
    r
}

/// The share that is recorded of a day is the one that its rows give.
pub proof fn recorded_share_is_that_of_the_rows(
    firms: Seq<(AgentId, FirmView)>,
    market: MarketView,
    day: u64,
)
    requires
        firms.len() > 0,
    ensures
        share_series(rows_of(firms, market, day)) =~= seq![
            rows_of(firms, market, day)[0].market_share_max,
        ],
{
    let rows = rows_of(firms, market, day);
    lemma_rows_of_one_day(rows, day);
    assert(counts_on(rows, day) =~= day_counts(firms, market));
}

/// Rows of one day.
proof fn lemma_rows_of_one_day(rows: Seq<DailyMetric>, day: u64)
    requires
        forall|i: int| 0 <= i < rows.len() ==> (#[trigger] rows[i]).day == day,
    ensures
        rows.len() > 0 ==> days_of(rows) == seq![day],
        rows.len() == 0 ==> days_of(rows) == Seq::<u64>::empty(),
        counts_on(rows, day).len() == rows.len(),
        forall|i: int|
            0 <= i < rows.len() ==> #[trigger] counts_on(rows, day)[i] == rows[i].day_customers,
    decreases rows.len(),
{
    if rows.len() > 0 {
        let rest = rows.drop_last();
        assert(rows[rows.len() - 1].day == day);
        assert forall|i: int| 0 <= i < rest.len() implies (#[trigger] rest[i]).day == day by {
            assert(rest[i] == rows[i]);
        }
        lemma_rows_of_one_day(rest, day);
        assert(days_of(rows) =~= seq![day]);
        assert forall|i: int| 0 <= i < rows.len() implies #[trigger] counts_on(rows, day)[i]
            == rows[i].day_customers by {
            if i < rest.len() {
                assert(counts_on(rows, day)[i] == counts_on(rest, day)[i]);
                assert(rest[i] == rows[i]);
            }
        }
    }
}

/// What became of a restaurant.
#[derive(Clone, Copy, Debug, PartialEq, Eq, Structural)]
pub struct FirmOutcome {
    pub firm: u64,
    pub alive: bool,
    pub funds: Real,
}

/// What became of the restaurants.
pub open spec fn outcomes_of(firms: Seq<(AgentId, FirmView)>) -> Seq<FirmOutcome> {
    firms.map_values(
        |e: (AgentId, FirmView)|
            FirmOutcome { firm: e.0.0, alive: e.1.alive, funds: e.1.funds },
    )
}

/// What became of the restaurants.
pub fn firm_outcomes(world: &MarketWorld) -> (r: Vec<FirmOutcome>)
    ensures
        r@ == outcomes_of(world@.firms),
{
    let mut r: Vec<FirmOutcome> = Vec::new();
    let mut i: usize = 0;
    while i < world.firms.len()
        invariant
            i <= world.firms@.len(),
            r@.len() == i,
            forall|k: int| 0 <= k < i ==> #[trigger] r@[k] == outcomes_of(world@.firms)[k],
        decreases world.firms@.len() - i,
    {
        let f = &world.firms[i].1;
        r.push(FirmOutcome { firm: world.firms[i].0.0, alive: f.alive, funds: f.funds });
        i = i + 1;
    }
    proof {
        assert(r@ =~= outcomes_of(world@.firms));
    }
    r
}

/// How the language model was called.
#[derive(Clone, Copy, Debug, PartialEq, Eq, Structural)]
pub struct CallStats {
    /// How often it was asked.
    pub total: usize,
    /// How often the cache had the answer.
    pub cache_hits: usize,
    /// How often the cache had the answer, as a part.
    pub cache_hit_rate: Real,
}

/// What came of a run.
#[derive(Debug)]
pub struct SimulationResult {
    /// What was recorded, day by day and restaurant by restaurant.
    pub metrics_history: Vec<DailyMetric>,
    pub metadata: CallStats,
    pub llm_model: String,
    pub llm_endpoint: String,
    /// How many days the run took.
    pub final_day: usize,
    /// Whether one restaurant took all.
    pub winner_take_all: bool,
    /// Whether some restaurant's dishes got better.
    pub quality_improved: bool,
    pub firm_outcomes: Vec<FirmOutcome>,
}

/// All numbers of a list are finite.
pub open spec fn all_finite(s: Seq<Real>) -> bool {
    forall|k: int| 0 <= k < s.len() ==> (#[trigger] s[k]).is_finite()
}

/// What came of a run: `max_share_by_day` holds the largest share of the customers, day by
/// day.
pub fn conclude(
    metrics_history: Vec<DailyMetric>,
    max_share_by_day: &[Real],
    final_day: usize,
    metadata: CallStats,
    llm_model: String,
    llm_endpoint: String,
    firm_outcomes: Vec<FirmOutcome>,
) -> (r: SimulationResult)
    ensures
        r.metrics_history@ == metrics_history@,
        r.metadata == metadata,
        r.llm_model@ == llm_model@,
        r.llm_endpoint@ == llm_endpoint@,
        r.final_day == final_day,
        r.winner_take_all == wins_all(
            max_share_by_day@,
            WTA_START_DAY as int,
            spec_ratio(8, 10),
        ),
        r.quality_improved == some_improved(metrics_history@),
        r.firm_outcomes@ == firm_outcomes@,
        max_share_by_day@.len() <= 5 ==> !r.winner_take_all,
        all_finite(max_share_by_day@) && r.winner_take_all ==> forall|d: int|
            5 <= d < max_share_by_day@.len() ==> (10 * (#[trigger] max_share_by_day@[d]).value() - 8
                * pow2(1074)) * PARTS > -(9 * pow2(1074)),
        all_finite(max_share_by_day@) && max_share_by_day@.len() > 5 && (forall|d: int|
            5 <= d < max_share_by_day@.len() ==> (10 * (#[trigger] max_share_by_day@[d]).value() - 8
                * pow2(1074)) * PARTS > 9 * pow2(1074)) ==> r.winner_take_all,
{
    proof {
        if all_finite(max_share_by_day@) && max_share_by_day@.len() > 5 {
            assert forall|d: int|
                5 <= d < max_share_by_day@.len() && wins_all(
                    max_share_by_day@,
                    WTA_START_DAY as int,
                    spec_ratio(8, 10),
                ) implies (10 * (#[trigger] max_share_by_day@[d]).value() - 8 * pow2(1074)) * PARTS
                > -(9 * pow2(1074)) by {
                winners_hold_four_fifths(max_share_by_day@, d);
            }
            winners_hold_four_fifths(max_share_by_day@, 5);
        }
    }
    let quality_improved = compute_quality_improved(metrics_history.as_slice());
    SimulationResult {
        winner_take_all: winner_take_all(max_share_by_day, WTA_START_DAY, wta_threshold()),
        quality_improved,
        firm_outcomes,
        metrics_history,
        metadata,
        llm_model,
        llm_endpoint,
        final_day,
    }
}

/// What is written down about how a run was made.
#[derive(Debug)]
pub struct RunMetadataJson {
    pub llm_model: String,
    pub llm_endpoint: String,
    pub llm_temperature: Real,
    pub llm_seed: u64,
    pub total_calls: usize,
    pub cache_hits: usize,
    pub cache_hit_rate: Real,
    pub winner_take_all: bool,
    pub quality_improved: bool,
    pub determinism_note: &'static str,
}

/// What is written down about how a run was made.
pub fn run_metadata(result: &SimulationResult, cfg: &Config) -> (r: RunMetadataJson)
    ensures
        r.llm_model@ == result.llm_model@,
        r.llm_endpoint@ == result.llm_endpoint@,
        r.llm_temperature == cfg.llm.temperature,
        r.llm_seed == cfg.llm.seed,
        r.total_calls == result.metadata.total,
        r.cache_hits == result.metadata.cache_hits,
        r.cache_hit_rate == result.metadata.cache_hit_rate,
        r.winner_take_all == result.winner_take_all,
        r.quality_improved == result.quality_improved,
        r.determinism_note@
            == "LLM output is outside socsim bit-reproducibility; the prompt->response cache (with temperature=0 and fixed seed) is the reproducibility mechanism. The socsim core (world init, activation order, group majority tie-breaking, market matching, revenue/Gini/share metrics) is deterministic given the seed."@,
{
    RunMetadataJson {
        llm_model: result.llm_model.clone(),
        llm_endpoint: result.llm_endpoint.clone(),
        llm_temperature: cfg.llm.temperature,
        llm_seed: cfg.llm.seed,
        total_calls: result.metadata.total,
        cache_hits: result.metadata.cache_hits,
        cache_hit_rate: result.metadata.cache_hit_rate,
        winner_take_all: result.winner_take_all,
        quality_improved: result.quality_improved,
        determinism_note: "LLM output is outside socsim bit-reproducibility; the prompt->response cache (with temperature=0 and fixed seed) is the reproducibility mechanism. The socsim core (world init, activation order, group majority tie-breaking, market matching, revenue/Gini/share metrics) is deterministic given the seed.",
    }
}

} // verus!
