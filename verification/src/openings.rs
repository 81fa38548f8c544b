//! How a town starts, and what is recorded of a run.
use crate::accuracy::PARTS;
use crate::binary64::{spec_ratio, spec_real, Real};
use crate::bounds::lemma_one;
use crate::choice::rising;
use crate::config::{Config, CustomerMode};
use crate::estimates::{lemma_many_units, lemma_ratio_off, lemma_times_off, size};
use crate::metrics::{wins_all, DailyMetric};
use crate::readback::lemma_decimal;
use crate::record::{
    aggregate_of, aggregates, provider_of, run_values, spec_unit_id, DailyAggregate,
};
use crate::simulation::{
    first_world, spec_dish_name, CustomerDraw, FirmDraw, SimulationResult, WTA_START_DAY,
};
use crate::text::{decimal, find, lemma_part_found, number, occurs_at};
use crate::world::CUSTOMER_ID_BASE;
use vstd::arithmetic::power2::*;
use vstd::prelude::*;
use vstd::string::*;

verus! {

/// A number is the product of two others, up to a rounding.
pub open spec fn is_product(x: Real, a: Real, b: Real) -> bool {
    size(x.value() * pow2(1074) - a.value() * b.value()) * PARTS <= size(a.value() * b.value())
        + pow2(1074) * PARTS
}

/// A restaurant opens with the funds that are drawn for it as a part of the usual, with nothing
/// earned, nobody served and nothing said of it.
pub proof fn restaurants_open_with_what_is_drawn(
    cfg: Config,
    firms: Seq<FirmDraw>,
    customers: Seq<CustomerDraw>,
    i: int,
)
    requires
        0 <= i < firms.len() <= u64::MAX,
        cfg.init_funds.is_finite(),
        firms[i].funds.is_finite(),
        cfg.init_funds.times(firms[i].funds).is_finite(),
    ensures
        ({
            let (id, f) = first_world(cfg, firms, customers).firms[i];
            &&& first_world(cfg, firms, customers).firms.len() == firms.len()
            &&& id.0 == i
            &&& is_product(f.funds, cfg.init_funds, firms[i].funds)
            &&& f.menu.len() == firms[i].prices@.len()
            &&& f.chef_salary == cfg.init_chef_salary
            &&& f.reputation.value() == 0
            &&& f.cumulative_customers == 0
            &&& f.cumulative_revenue.value() == 0
            &&& f.comments.len() == 0
            &&& f.memory.len() == 0
            &&& f.alive
            &&& f.advertisement.len() > 0
        }),
{
    lemma_times_off(cfg.init_funds, firms[i].funds);
    reveal_strlit("A welcoming neighborhood restaurant.");
}

/// A dish opens at the price that is drawn for it as a part of the usual, costs the usual part of
/// its price, and is made by a chef with the usual salary.
pub proof fn dishes_open_at_drawn_prices(
    cfg: Config,
    firms: Seq<FirmDraw>,
    customers: Seq<CustomerDraw>,
    i: int,
    k: int,
)
    requires
        0 <= i < firms.len(),
        0 <= k < firms[i].prices@.len(),
        cfg.init_price.is_finite(),
        cfg.init_cost_ratio.is_finite(),
        firms[i].prices@[k].is_finite(),
        cfg.init_price.times(firms[i].prices@[k]).is_finite(),
        cfg.init_price.times(firms[i].prices@[k]).times(cfg.init_cost_ratio).is_finite(),
    ensures
        ({
            let d = first_world(cfg, firms, customers).firms[i].1.menu[k];
            &&& is_product(d.price, cfg.init_price, firms[i].prices@[k])
            &&& is_product(d.cost, d.price, cfg.init_cost_ratio)
            &&& d.chef_salary == cfg.init_chef_salary
        }),
{
    lemma_times_off(cfg.init_price, firms[i].prices@[k]);
    lemma_times_off(cfg.init_price.times(firms[i].prices@[k]), cfg.init_cost_ratio);
}

/// Dishes of different numbers have different names.
proof fn lemma_dish_names(a: int, b: int)
    requires
        0 <= a < 8,
        0 <= b < 8,
    ensures
        spec_dish_name(a) == spec_dish_name(b) <==> a == b,
{
    reveal_strlit("sushi");
    reveal_strlit("ramen");
    reveal_strlit("tempura");
    reveal_strlit("curry");
    reveal_strlit("udon");
    reveal_strlit("gyoza");
    reveal_strlit("yakitori");
    reveal_strlit("donburi");
    assert("sushi"@[0] == 's');
    assert("ramen"@[0] == 'r');
    assert("tempura"@[0] == 't');
    assert("curry"@[0] == 'c');
    assert("udon"@[0] == 'u');
    assert("gyoza"@[0] == 'g');
    assert("yakitori"@[0] == 'y');
    assert("donburi"@[0] == 'd');
}

/// Menus start one dish further on from restaurant to restaurant, and go round eight dishes: two
/// dishes are the same exactly if their places and those of their restaurants add up to the same,
/// but for eights.
pub proof fn menus_go_round_the_dishes(
    cfg: Config,
    firms: Seq<FirmDraw>,
    customers: Seq<CustomerDraw>,
    i: int,
    k: int,
    j: int,
    l: int,
)
    requires
        0 <= i < firms.len(),
        0 <= k < firms[i].prices@.len(),
        0 <= j < firms.len(),
        0 <= l < firms[j].prices@.len(),
    ensures
        ({
            let all = first_world(cfg, firms, customers).firms;
            all[i].1.menu[k].name == all[j].1.menu[l].name <==> (i + k) % 8 == (j + l) % 8
        }),
{
    lemma_dish_names((i + k) % 8, (j + l) % 8);
}

/// A customer can spend what is drawn as a part of the usual, and has gone nowhere yet.
pub proof fn customers_come_with_what_is_drawn(
    cfg: Config,
    firms: Seq<FirmDraw>,
    customers: Seq<CustomerDraw>,
    j: int,
)
    requires
        0 <= j < customers.len(),
        CUSTOMER_ID_BASE + customers.len() <= u64::MAX,
        cfg.customer_income.is_finite(),
        customers[j].income.is_finite(),
        cfg.customer_income.times(customers[j].income).is_finite(),
    ensures
        ({
            let (id, c) = first_world(cfg, firms, customers).customers[j];
            &&& first_world(cfg, firms, customers).customers.len() == customers.len()
            &&& id.0 == CUSTOMER_ID_BASE + j
            &&& is_product(c.income, cfg.customer_income, customers[j].income)
            &&& c.visit_memory.len() == 0
            &&& cfg.customer_mode == CustomerMode::Individual ==> c.group is None
            &&& cfg.customer_mode == CustomerMode::Group && cfg.group_size > 0 ==> ({
                let g = c.group->0 as int;
                &&& c.group is Some
                &&& g * cfg.group_size <= j < (g + 1) * cfg.group_size
            })
            &&& cfg.customer_mode == CustomerMode::Group && cfg.group_size == 0 ==> c.group
                == Some(j as u64)
        }),
{
    lemma_times_off(cfg.customer_income, customers[j].income);
    if cfg.group_size > 0 {
        let s = cfg.group_size as int;
        vstd::arithmetic::div_mod::lemma_fundamental_div_mod(j, s);
        vstd::arithmetic::div_mod::lemma_div_pos_is_pos(j, s);
        let g = j / s;
        assert(g <= j) by (nonlinear_arith)
            requires j == s * g + j % s, j % s >= 0, s >= 1, g >= 0;
        assert(s * g == g * s && (g + 1) * s == g * s + s) by (nonlinear_arith);
    } else {
        assert(j / 1 == j);
    }
}

/// Customers who drew different preferences like different things, and those who drew different
/// states of health differ in health.
pub proof fn draws_tell_customers_apart(
    cfg: Config,
    firms: Seq<FirmDraw>,
    customers: Seq<CustomerDraw>,
    i: int,
    j: int,
)
    requires
        0 <= i < customers.len(),
        0 <= j < customers.len(),
        customers[i].preference < 5,
        customers[j].preference < 5,
        customers[i].health < 4,
        customers[j].health < 4,
    ensures
        ({
            let all = first_world(cfg, firms, customers).customers;
            &&& all[i].1.preference == all[j].1.preference <==> customers[i].preference
                == customers[j].preference
            &&& all[i].1.health == all[j].1.health <==> customers[i].health == customers[j].health
        }),
{
    reveal_strlit("loves rich, indulgent dishes");
    reveal_strlit("prefers light and healthy meals");
    reveal_strlit("is a budget-conscious bargain hunter");
    reveal_strlit("seeks adventurous, novel flavors");
    reveal_strlit("values classic comfort food");
    reveal_strlit("no dietary restrictions");
    reveal_strlit("vegetarian");
    reveal_strlit("watching calories");
    reveal_strlit("gluten-free");
    assert("loves rich, indulgent dishes"@[0] == 'l');
    assert("prefers light and healthy meals"@[0] == 'p');
    assert("is a budget-conscious bargain hunter"@[0] == 'i');
    assert("seeks adventurous, novel flavors"@[0] == 's');
    assert("values classic comfort food"@[0] == 'v');
    assert("no dietary restrictions"@[0] == 'n');
    assert("vegetarian"@[0] == 'v');
    assert("watching calories"@[0] == 'w');
    assert("gluten-free"@[0] == 'g');
}

/// One restaurant takes all of a run only if, from the sixth day on, its largest share is above
/// four fifths on each day, and it does so if there are more than five days and the share is
/// clearly above four fifths on each from the sixth on.
pub proof fn winners_hold_four_fifths(shares: Seq<Real>, d: int)
    requires
        5 <= d < shares.len(),
        forall|k: int| 0 <= k < shares.len() ==> (#[trigger] shares[k]).is_finite(),
    ensures
        wins_all(shares, WTA_START_DAY as int, spec_ratio(8, 10)) ==> (10 * shares[d].value() - 8
            * pow2(1074)) * PARTS > -(9 * pow2(1074)),
        (forall|k: int|
            5 <= k < shares.len() ==> (10 * (#[trigger] shares[k]).value() - 8 * pow2(1074)) * PARTS
                > 9 * pow2(1074)) ==> wins_all(shares, WTA_START_DAY as int, spec_ratio(8, 10)),
{
    let u = pow2(1074) as int;
    let t = spec_ratio(8, 10);
    lemma_ratio_off(8, 10);
    lemma_many_units();
    reveal(size);
    assert(size(10 * t.value() - 8 * u) * PARTS == 0x20_0000_0000_0000 * size(
        10 * t.value() - 8 * u,
    ));
    if wins_all(shares, WTA_START_DAY as int, t) {
        assert(t.less(shares[d]));
        assert((10 * shares[d].value() - 8 * u) * PARTS == 0x20_0000_0000_0000 * (10
            * shares[d].value() - 8 * u));
    }
    if forall|k: int|
        5 <= k < shares.len() ==> (10 * (#[trigger] shares[k]).value() - 8 * u) * PARTS > 9 * u {
        assert forall|k: int| WTA_START_DAY <= k < shares.len() implies t.less(
            #[trigger] shares[k],
        ) by {
            assert((10 * shares[k].value() - 8 * u) * PARTS == 0x20_0000_0000_0000 * (10
                * shares[k].value() - 8 * u));
            assert((10 * shares[k].value() - 8 * u) * PARTS > 9 * u);
        }
    }
}

/// Restaurants are observed under different identities exactly if they are different.
pub proof fn units_are_told_apart(a: u64, b: u64)
    ensures
        spec_unit_id(a) == spec_unit_id(b) <==> a == b,
{
    lemma_decimal(a as nat);
    lemma_decimal(b as nat);
    let x = spec_unit_id(a);
    let y = spec_unit_id(b);
    assert(x.skip("firm-"@.len() as int) =~= decimal(a as nat));
    assert(y.skip("firm-"@.len() as int) =~= decimal(b as nat));
}

/// An address that starts with `mock://` is that of scripted answers; of the others, one with
/// `openai` in it is that of OpenAI; any other is that of Ollama.
pub proof fn providers_go_by_address(a: Seq<char>, b: Seq<char>)
    ensures
        provider_of("mock://"@ + b) == "mock"@,
        find(a + "openai"@ + b, "mock://"@) != Some(0int) ==> provider_of(a + "openai"@ + b)
            == "openai"@,
        find(a, "mock://"@) != Some(0int) && find(a, "openai"@) is None ==> provider_of(a)
            == "ollama"@,
{
    let s = "mock://"@ + b;
    assert(s.subrange(0, "mock://"@.len() as int) =~= "mock://"@);
    assert(occurs_at(s, "mock://"@, 0));
    lemma_part_found(a, "openai"@, b);
}

/// What happened is one, what did not is zero.
pub proof fn indicators_are_one_or_zero(r: SimulationResult)
    ensures
        run_values(r)[2].1 == spec_real(1) <==> r.winner_take_all,
        run_values(r)[2].1.value() == 0 <==> !r.winner_take_all,
        run_values(r)[3].1 == spec_real(1) <==> r.quality_improved,
        run_values(r)[3].1.value() == 0 <==> !r.quality_improved,
        run_values(r).len() == 7 <==> r.metadata.total > 0,
{
    lemma_one();
    lemma_pow2_pos(1074);
}

/// A row is the first of its day.
pub open spec fn opens_a_day(history: Seq<DailyMetric>, i: int) -> bool {
    i == 0 || history[i - 1].day != history[i].day
}

/// Days never go back.
pub open spec fn days_go_on(history: Seq<DailyMetric>) -> bool {
    forall|i: int, j: int|
        0 <= i < j < history.len() ==> (#[trigger] history[i]).day <= (#[trigger] history[j]).day
}

/// What is recorded of the market is told once for each day, the days going up, by the first row
/// of the day.
pub proof fn each_day_is_told_once(history: Seq<DailyMetric>)
    requires
        days_go_on(history),
    ensures
        rising(aggregates(history).map_values(|a: DailyAggregate| a.day)),
        forall|i: int|
            0 <= i < history.len() && #[trigger] opens_a_day(history, i) ==> aggregates(
                history,
            ).contains(aggregate_of(history[i])),
        forall|k: int|
            0 <= k < aggregates(history).len() ==> exists|i: int|
                0 <= i < history.len() && #[trigger] opens_a_day(history, i) && aggregate_of(
                    history[i],
                ) == #[trigger] aggregates(history)[k],
        history.len() > 0 ==> aggregates(history).len() > 0 && aggregates(history).last().day
            == history.last().day,
    decreases history.len(),
{
    let f = |a: DailyAggregate| a.day;
    let now = aggregates(history);
    if history.len() > 0 {
        let rest = history.drop_last();
        let last = history.len() - 1;
        assert forall|i: int, j: int| 0 <= i < j < rest.len() implies (#[trigger] rest[i]).day <= (
        #[trigger] rest[j]).day by {
            assert(rest[i] == history[i] && rest[j] == history[j]);
        }
        each_day_is_told_once(rest);
        let before = aggregates(rest);
        assert(history[last] == history.last());
        if rest.len() > 0 {
            assert(rest.last() == history[last - 1]);
            assert(history[last - 1].day <= history[last].day);
        }
        assert(opens_a_day(history, last) <==> !(history.len() >= 2 && history[history.len() - 2].day
            == history.last().day));
        let days = now.map_values(f);
        let old_days = before.map_values(f);
        if opens_a_day(history, last) {
            assert(now == before.push(aggregate_of(history[last])));
            assert(now[before.len() as int] == aggregate_of(history[last]));
            assert forall|i: int, j: int| 0 <= i < j < days.len() implies days[i] < days[j] by {
                assert(days[i] == old_days[i]);
                if j < before.len() {
                    assert(days[j] == old_days[j]);
                } else {
                    assert(old_days[before.len() - 1] == rest.last().day);
                    if i < before.len() - 1 {
                        assert(old_days[i] < old_days[before.len() - 1]);
                    }
                }
            }
        } else {
            assert(now == before);
        }
        assert forall|i: int| 0 <= i < history.len() && #[trigger] opens_a_day(history, i) implies
            now.contains(aggregate_of(history[i])) by {
            if i < last {
                assert(rest[i] == history[i]);
                if i > 0 {
                    assert(rest[i - 1] == history[i - 1]);
                }
                assert(opens_a_day(rest, i));
                let k = choose|k: int|
                    0 <= k < before.len() && before[k] == aggregate_of(rest[i]);
                assert(now[k] == before[k]);
            } else {
                assert(now[before.len() as int] == aggregate_of(history[i]));
            }
        }
        assert forall|k: int| 0 <= k < now.len() implies exists|i: int|
            0 <= i < history.len() && #[trigger] opens_a_day(history, i) && aggregate_of(history[i])
                == #[trigger] now[k] by {
            if k < before.len() {
                assert(before[k] == now[k]);
                let i = choose|i: int|
                    0 <= i < rest.len() && #[trigger] opens_a_day(rest, i) && aggregate_of(rest[i])
                        == before[k];
                assert(rest[i] == history[i]);
                if i > 0 {
                    assert(rest[i - 1] == history[i - 1]);
                }
                assert(opens_a_day(history, i));
            } else {
                assert(opens_a_day(history, last));
            }
        }
    }
}

/// What a row says of the market is what stands in it.
pub proof fn rows_speak_for_the_market(m: DailyMetric)
    ensures
        aggregate_of(m).day == m.day,
        aggregate_of(m).revenue_gini == m.revenue_gini,
        aggregate_of(m).market_share_max == m.market_share_max,
        aggregate_of(m).menu_similarity == m.menu_similarity,
        aggregate_of(m).n_alive_firms == spec_real(m.n_alive_firms as nat),
{
}

} // verus!
