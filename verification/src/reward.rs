//! The evening: takings, costs, reputations, and what is recorded of the day.
use crate::binary64::{ratio, real_of, spec_ratio, spec_real, Real};
use crate::metrics::{
    count_sum, market_share_max, mean, menu_similarity, menus, revenue_gini, spec_gini,
    spec_menu_similarity, spec_share, DailyMetric,
};
use crate::world::{
    alive_ids, comments_view, firms_view, menu_costs, menu_prices, menu_scores, real_mean, AgentId,
    Comment, CommentView, DishView, Firm, FirmView, MarketView, MarketWorld, WorldView,
};
use vstd::prelude::*;

verus! {

/// The reward of a day: restaurants take what they earned and pay what they owe, reputations
/// move, and the day is recorded.
pub struct RevenueRewardMechanism {
    /// What has been recorded so far.
    pub metrics: Vec<DailyMetric>,
}

/// The ratings that comments of a day gave.
pub open spec fn ratings_of(comments: Seq<CommentView>, day: u64) -> Seq<Real>
    decreases comments.len(),
{
    if comments.len() == 0 {
        seq![]
    } else if comments.last().day == day {
        ratings_of(comments.drop_last(), day).push(comments.last().rating)
    } else {
        ratings_of(comments.drop_last(), day)
    }
}

/// What a restaurant earned on a day: its takings, less the mean cost of a dish for each
/// customer, less a thirtieth of the salary of its chef.
pub open spec fn net_of(f: FirmView, revenue: Real, customers: u64) -> Real {
    revenue.minus(real_mean(menu_costs(f.menu)).times(spec_real(customers as nat))).minus(
        f.chef_salary.over(spec_real(30)),
    )
}

/// A reputation after a day's ratings: seven tenths of what it was and three tenths of their
/// mean; what it was, if there were none.
pub open spec fn reputation_after(reputation: Real, ratings: Seq<Real>) -> Real {
    if ratings.len() == 0 {
        reputation
    } else {
        spec_ratio(7, 10).times(reputation).plus(spec_ratio(3, 10).times(real_mean(ratings)))
    }
}

/// A restaurant after a day that brought it `revenue` and `customers`.
pub open spec fn rewarded(f: FirmView, revenue: Real, customers: u64, day: u64) -> FirmView {
    FirmView {
        funds: f.funds.plus(net_of(f, revenue, customers)),
        cumulative_revenue: f.cumulative_revenue.plus(revenue),
        cumulative_customers: (f.cumulative_customers + customers) as u64,
        reputation: reputation_after(f.reputation, ratings_of(f.comments, day)),
        ..f
    }
}

/// All restaurants after a day.
pub open spec fn all_rewarded(
    firms: Seq<(AgentId, FirmView)>,
    market: MarketView,
    day: u64,
) -> Seq<(AgentId, FirmView)> {
    firms.map_values(
        |e: (AgentId, FirmView)|
            (e.0, rewarded(e.1, market.revenue_of(e.0.0), market.customers_of(e.0.0), day)),
    )
}

/// The revenues of restaurants so far.
pub open spec fn revenues(firms: Seq<(AgentId, FirmView)>) -> Seq<Real> {
    firms.map_values(|e: (AgentId, FirmView)| e.1.cumulative_revenue)
}

/// The customers of restaurants on the day.
pub open spec fn day_counts(firms: Seq<(AgentId, FirmView)>, market: MarketView) -> Seq<u64> {
    firms.map_values(|e: (AgentId, FirmView)| market.customers_of(e.0.0))
}

/// The menus of the restaurants in business.
pub open spec fn alive_menus(firms: Seq<(AgentId, FirmView)>) -> Seq<Seq<DishView>>
    decreases firms.len(),
{
    if firms.len() == 0 {
        seq![]
    } else if firms.last().1.alive {
        alive_menus(firms.drop_last()).push(firms.last().1.menu)
    } else {
        alive_menus(firms.drop_last())
    }
}

/// What is recorded of a restaurant.
pub open spec fn row_of(firms: Seq<(AgentId, FirmView)>, market: MarketView, day: u64, i: int) ->
    DailyMetric {
    let (id, f) = firms[i];
    DailyMetric {
        day,
        firm: id.0,
        firm_alive: if f.alive {
            1
        } else {
            0
        },
        day_customers: market.customers_of(id.0),
        day_revenue: market.revenue_of(id.0),
        cumulative_revenue: f.cumulative_revenue,
        avg_dish_score: real_mean(menu_scores(f.menu)),
        avg_price: real_mean(menu_prices(f.menu)),
        reputation: f.reputation,
        revenue_gini: spec_gini(revenues(firms)),
        market_share_max: spec_share(day_counts(firms, market)),
        menu_similarity: spec_menu_similarity(alive_menus(firms)),
        n_alive_firms: alive_ids(firms).len() as u64,
    }
}

/// What is recorded of a day.
pub open spec fn rows_of(firms: Seq<(AgentId, FirmView)>, market: MarketView, day: u64) -> Seq<
    DailyMetric,
> {
    Seq::new(firms.len(), |i: int| row_of(firms, market, day, i))
}

/// The ratings that comments of a day gave.
fn day_ratings(comments: &Vec<Comment>, day: u64) -> (r: Vec<Real>)
    ensures
        r@ == ratings_of(comments_view(comments@), day),
{
    let ghost all = comments_view(comments@);
    let mut r: Vec<Real> = Vec::new();
    let mut i: usize = 0;
    while i < comments.len()
        invariant
            i <= comments@.len(),
            all == comments_view(comments@),
            r@ == ratings_of(all.take(i as int), day),
        decreases comments@.len() - i,
    {
        proof {
            assert(all.take(i + 1).drop_last() =~= all.take(i as int));
            assert(all.take(i + 1).last() == all[i as int]);
        }
        if comments[i].day == day {
            r.push(comments[i].rating);
        }
        i = i + 1;
    }
    proof {
        assert(all.take(all.len() as int) =~= all);
    }
    r
}

/// What a day does to a restaurant.
pub fn reward(firm: &mut Firm, revenue: Real, customers: u64, day: u64)
    requires
        old(firm).cumulative_customers + customers <= u64::MAX,
    ensures
        final(firm)@ == rewarded(old(firm)@, revenue, customers, day),
{
    let cost = firm.avg_cost().times(real_of(customers));
    let fixed = firm.chef_salary.over(real_of(30));
    let net = revenue.minus(cost).minus(fixed);
    let ratings = day_ratings(&firm.comments, day);
    firm.funds = firm.funds.plus(net);
    firm.cumulative_revenue = firm.cumulative_revenue.plus(revenue);
    firm.cumulative_customers = firm.cumulative_customers + customers;
    if ratings.len() > 0 {
        firm.reputation =
        ratio(7, 10).times(firm.reputation).plus(ratio(3, 10).times(mean(ratings.as_slice())));
    }
}

/// The menus of the restaurants in business, and how many there are.
fn in_business<'a>(firms: &'a Vec<(AgentId, Firm)>) -> (r: Vec<&'a Firm>)
    ensures
        menus(r@) == alive_menus(firms_view(firms@)),
        r@.len() == alive_ids(firms_view(firms@)).len(),
{
    let ghost all = firms_view(firms@);
    let mut r: Vec<&Firm> = Vec::new();
    let mut i: usize = 0;
    proof {
        assert(menus(r@) =~= alive_menus(all.take(0)));
    }
    while i < firms.len()
        invariant
            i <= firms@.len(),
            all == firms_view(firms@),
            menus(r@) == alive_menus(all.take(i as int)),
            r@.len() == alive_ids(all.take(i as int)).len(),
        decreases firms@.len() - i,
    {
        proof {
            assert(all.take(i + 1).drop_last() =~= all.take(i as int));
            assert(all.take(i + 1).last() == all[i as int]);
        }
        if firms[i].1.alive {
            let ghost before = r@;
            r.push(&firms[i].1);
            proof {
                assert(menus(r@) =~= menus(before).push(all[i as int].1.menu));
            }
        }
        i = i + 1;
    }
    proof {
        assert(all.take(all.len() as int) =~= all);
    }
    r
}

/// The counts that a day adds up to fit.
pub open spec fn counts_fit(w: WorldView) -> bool {
    &&& count_sum(day_counts(w.firms, w.market)) <= u64::MAX
    &&& forall|i: int|
        0 <= i < w.firms.len() ==> (#[trigger] w.firms[i]).1.cumulative_customers
            + w.market.customers_of(w.firms[i].0.0) <= u64::MAX
}

impl RevenueRewardMechanism {
    pub fn new(metrics: Vec<DailyMetric>) -> (r: Self)
        ensures
            r.metrics@ == metrics@,
    {
        RevenueRewardMechanism { metrics }
    }

    /// Ends the day: restaurants take and pay, and the day is recorded. Gives the Gini
    /// coefficient of the revenues and the largest share of the day's customers.
    pub fn apply(&mut self, world: &mut MarketWorld) -> (r: (Real, Real))
        requires
            counts_fit(old(world)@),
        ensures
            final(world)@ == (WorldView {
                firms: all_rewarded(old(world)@.firms, old(world)@.market, old(world)@.day),
                ..old(world)@
            }),
            final(self).metrics@ == old(self).metrics@ + rows_of(
                final(world)@.firms,
                old(world)@.market,
                old(world)@.day,
            ),
            r.0 == spec_gini(revenues(final(world)@.firms)),
            r.1 == spec_share(day_counts(old(world)@.firms, old(world)@.market)),
    {
        let ghost start = world@;
        let ghost goal = all_rewarded(start.firms, start.market, start.day);
        let day: u64 = world.day;
        let n: usize = world.firms.len();
        let mut i: usize = 0;
        while i < n
            invariant
                i <= n == world.firms@.len(),
                start.firms.len() == n,
                goal == all_rewarded(start.firms, start.market, start.day),
                counts_fit(start),
                day == start.day,
                world@ == (WorldView { firms: world@.firms, ..start }),
                forall|k: int| 0 <= k < i ==> #[trigger] world@.firms[k] == goal[k],
                forall|k: int| i <= k < n ==> #[trigger] world@.firms[k] == start.firms[k],
            decreases n - i,
        {
            let ghost firms = world.firms@;
            let ghost views = world@.firms;
            let id: u64 = world.firms[i].0.0;
            let revenue = world.market.revenue_of(id);
            let customers: u64 = world.market.customers_of(id);
            proof {
                assert(views[i as int] == start.firms[i as int]);
                assert(start.firms[i as int].1.cumulative_customers + start.market.customers_of(
                    start.firms[i as int].0.0,
                ) <= u64::MAX);
            }
            reward(&mut world.firms[i].1, revenue, customers, day);
            proof {
                assert forall|k: int| 0 <= k < n && k != i implies #[trigger] world@.firms[k]
                    == views[k] by {
                    assert(world.firms@[k] == firms[k]);
                }
                assert(world@.firms[i as int] == goal[i as int]);
            }
            i = i + 1;
        }
        proof {
            assert(world@.firms =~= goal);
            assert(day_counts(goal, start.market) =~= day_counts(start.firms, start.market));
        }
        let mut totals: Vec<Real> = Vec::new();
        let mut counts: Vec<u64> = Vec::new();
        i = 0;
        while i < n
            invariant
                i <= n == world.firms@.len(),
                goal == firms_view(world.firms@),
                world@.market == start.market,
                totals@.len() == i,
                counts@.len() == i,
                forall|k: int| 0 <= k < i ==> #[trigger] totals@[k] == revenues(goal)[k],
                forall|k: int|
                    0 <= k < i ==> #[trigger] counts@[k] == day_counts(goal, start.market)[k],
            decreases n - i,
        {
            totals.push(world.firms[i].1.cumulative_revenue);
            counts.push(world.market.customers_of(world.firms[i].0.0));
            i = i + 1;
        }
        proof {
            assert(totals@ =~= revenues(goal));
            assert(counts@ =~= day_counts(goal, start.market));
        }
        let gini = revenue_gini(totals.as_slice());
        let share = market_share_max(counts.as_slice());
        let open = in_business(&world.firms);
        let similarity = menu_similarity(open.as_slice());
        let n_alive: u64 = open.len() as u64;
        let ghost recorded = self.metrics@;
        i = 0;
        proof {
            assert(rows_of(goal, start.market, start.day).take(0) =~= seq![]);
            assert(recorded + rows_of(goal, start.market, start.day).take(0) =~= recorded);
        }
        while i < n
            invariant
                i <= n == world.firms@.len(),
                goal == firms_view(world.firms@),
                world@.market == start.market,
                day == start.day,
                gini == spec_gini(revenues(goal)),
                share == spec_share(day_counts(goal, start.market)),
                similarity == spec_menu_similarity(alive_menus(goal)),
                n_alive == alive_ids(goal).len(),
                self.metrics@ == recorded + rows_of(goal, start.market, start.day).take(i as int),
            decreases n - i,
        {
            let id: u64 = world.firms[i].0.0;
            let f = &world.firms[i].1;
            let row = DailyMetric {
                day,
                firm: id,
                firm_alive: if f.alive {
                    1
                } else {
                    0
                },
                day_customers: world.market.customers_of(id),
                day_revenue: world.market.revenue_of(id),
                cumulative_revenue: f.cumulative_revenue,
                avg_dish_score: f.avg_dish_score(),
                avg_price: f.avg_price(),
                reputation: f.reputation,
                revenue_gini: gini,
                market_share_max: share,
                menu_similarity: similarity,
                n_alive_firms: n_alive,
            };
            proof {
                let rows = rows_of(goal, start.market, start.day);
                assert(goal[i as int] == (world.firms@[i as int].0, world.firms@[i as int].1@));
                assert(row == rows[i as int]);
                assert((recorded + rows.take(i as int)).push(row) =~= recorded + rows.take(i + 1));
            }
            self.metrics.push(row);
            i = i + 1;
        }
        proof {
            let rows = rows_of(goal, start.market, start.day);
            assert(rows.take(n as int) =~= rows);
        }
        (gini, share)
    }
}

} // verus!
