//! What an evening and a night do to a restaurant, in exact arithmetic.
use crate::accuracy::{amounts, int_sum, is_amount, PARTS};
use crate::binary64::{spec_ratio, spec_real, Real};
use crate::bounds::lemma_exact_integer;
use crate::estimates::{
    about, is_moderate, lemma_cancelled, lemma_many_units, lemma_minus_within, lemma_over_off,
    lemma_over_within, lemma_part_off, lemma_plus_off, lemma_plus_within, lemma_ratio_within,
    lemma_real_within, lemma_size_product, lemma_size_sum, lemma_times_off, lemma_times_within,
    lemma_within_more, means_are_accurate, size, within,
};
use crate::metrics::{spec_gini, spec_menu_similarity, spec_share};
use crate::patronage::last_of;
use crate::reflection::{all_reflected, reflected};
use crate::reward::{alive_menus, all_rewarded, ratings_of, reputation_after, rewarded, rows_of};
use crate::text::decimal;
use crate::world::{
    alive_ids, dish_score, menu_costs, real_mean, real_sum, AgentId, CommentView, DishView,
    FirmView, MarketView,
};
use crate::writing::fixed;
use vstd::arithmetic::power2::*;
use vstd::prelude::*;
use vstd::string::*;

verus! {

/// A reputation after a day is a weighted mean: seven tenths of the reputation before and three
/// tenths of the mean rating, up to a few roundings. It lies between the two. Without ratings it
/// stays.
pub proof fn reputations_are_weighted_means(reputation: Real, ratings: Seq<Real>)
    requires
        is_moderate(reputation),
        is_moderate(real_mean(ratings)),
    ensures
        ratings.len() == 0 ==> reputation_after(reputation, ratings) == reputation,
        ratings.len() > 0 ==> {
            let r = reputation_after(reputation, ratings);
            let a = reputation.value();
            let b = real_mean(ratings).value();
            let low = if a < b {
                a
            } else {
                b
            };
            let high = if a < b {
                b
            } else {
                a
            };
            let scale = size(a) + size(b);
            &&& r.is_finite()
            &&& about(10 * r.value(), 7 * a + 3 * b, scale, 24)
            &&& 10 * (low - r.value()) * PARTS <= 24 * scale + 24 * PARTS
            &&& 10 * (r.value() - high) * PARTS <= 24 * scale + 24 * PARTS
        },
{
    reveal(size);
    if ratings.len() > 0 {
        let m = real_mean(ratings);
        let x = spec_ratio(7, 10).times(reputation);
        let y = spec_ratio(3, 10).times(m);
        lemma_weighted(reputation, m);
        let r = x.plus(y);
        assert(reputation_after(reputation, ratings) == r);
    }
}

/// Seven tenths of a number and three tenths of another one.
proof fn lemma_weighted(a: Real, b: Real)
    requires
        is_moderate(a),
        is_moderate(b),
    ensures
        ({
            let r = spec_ratio(7, 10).times(a).plus(spec_ratio(3, 10).times(b));
            let scale = size(a.value()) + size(b.value());
            &&& r.is_finite()
            &&& about(10 * r.value(), 7 * a.value() + 3 * b.value(), scale, 24)
        }),
{
    reveal(size);
    let x = spec_ratio(7, 10).times(a);
    let y = spec_ratio(3, 10).times(b);
    lemma2_to64();
    lemma_ratio_within(7, 10, 3);
    lemma_ratio_within(3, 10, 3);
    lemma_times_within(spec_ratio(7, 10), a, 3, 500);
    lemma_times_within(spec_ratio(3, 10), b, 3, 500);
    lemma_plus_within(x, y, 503);
    lemma_part_off(7, 10, a);
    lemma_part_off(3, 10, b);
    lemma_plus_off(x, y);
    lemma_weighted_sum(a.value(), b.value(), x.value(), y.value(), x.plus(y).value());
}

/// How errors of two parts and of their sum add up.
proof fn lemma_weighted_sum(a: int, b: int, x: int, y: int, r: int)
    requires
        size(10 * x - 7 * a) * PARTS <= 16 * size(a) + 10 * PARTS,
        size(10 * y - 3 * b) * PARTS <= 8 * size(b) + 10 * PARTS,
        size(r - (x + y)) * PARTS <= size(x + y),
    ensures
        size(10 * r - (7 * a + 3 * b)) * PARTS <= 24 * (size(a) + size(b)) + 24 * PARTS,
{
    reveal(size);
    let i = size(10 * x - 7 * a);
    let j = size(10 * y - 3 * b);
    let k = size(r - (x + y));
    assert(i * PARTS == 0x20_0000_0000_0000 * i);
    assert(j * PARTS == 0x20_0000_0000_0000 * j);
    assert(k * PARTS == 0x20_0000_0000_0000 * k);
    assert(i <= size(a) + 10);
    assert(j <= size(b) + 10);
    assert(10 * size(x + y) <= 8 * size(a) + 4 * size(b) + 20);
    let d = size(10 * r - (7 * a + 3 * b));
    assert(d <= 10 * k + i + j);
    assert(d * PARTS == 0x20_0000_0000_0000 * d);
}

/// The exact sum of one amount, over and over.
proof fn lemma_sum_of_equals(s: Seq<Real>, v: int)
    requires
        forall|i: int| 0 <= i < s.len() ==> (#[trigger] s[i]).value() == v,
    ensures
        int_sum(amounts(s)) == s.len() * v,
    decreases s.len(),
{
    if s.len() > 0 {
        let rest = s.drop_last();
        assert(amounts(s).drop_last() =~= amounts(rest));
        assert(amounts(s).last() == s[s.len() - 1].value());
        assert forall|i: int| 0 <= i < rest.len() implies (#[trigger] rest[i]).value() == v by {
            assert(rest[i] == s[i]);
        }
        lemma_sum_of_equals(rest, v);
        assert(rest.len() * v + v == s.len() * v) by (nonlinear_arith)
            requires s.len() == rest.len() + 1;
    } else {
        assert(0 * v == 0);
    }
}

/// Ratings that all equal the reputation leave it as it was, up to rounding.
pub proof fn steady_ratings_leave_a_reputation(reputation: Real, ratings: Seq<Real>)
    requires
        is_amount(reputation),
        is_moderate(reputation),
        is_moderate(real_mean(ratings)),
        real_sum(ratings).is_finite(),
        1 <= ratings.len() <= 1_000_000,
        forall|i: int|
            0 <= i < ratings.len() ==> is_amount(#[trigger] ratings[i]) && ratings[i].value()
                == reputation.value(),
    ensures
        about(
            reputation_after(reputation, ratings).value(),
            reputation.value(),
            reputation.value(),
            (6 * ratings.len() + 54) as nat,
        ),
{
    reveal(size);
    let n = ratings.len() as int;
    let w = PARTS as int;
    let v = reputation.value();
    let m = real_mean(ratings).value();
    lemma_sum_of_equals(ratings, v);
    means_are_accurate(ratings);
    reputations_are_weighted_means(reputation, ratings);
    let d = m - v;
    let k = (2 * n + 2) * v;
    assert(n * m - n * v == d * n) by (nonlinear_arith)
        requires d == m - v;
    lemma_size_product(d, n);
    assert((2 * ratings.len() + 2) * (ratings.len() * v) == k * n) by (nonlinear_arith)
        requires k == (2 * n + 2) * v, n == ratings.len();
    assert((size(d) * n) * w == (size(d) * w) * n) by (nonlinear_arith);
    assert(k * n + n * w == (k + w) * n) by (nonlinear_arith);
    lemma_cancelled(size(d) * w, k + w, n);
    assert(k <= 2_000_002 * v) by (nonlinear_arith)
        requires k == (2 * n + 2) * v, n <= 1_000_000, v >= 0;
    assert((6 * n + 54) * v == 3 * k + 48 * v) by (nonlinear_arith)
        requires k == (2 * n + 2) * v;
    assert((6 * n + 54) * w >= 54 * w) by (nonlinear_arith)
        requires n >= 0, w >= 0;
}

/// The ratings of a day are those of its comments, in order.
pub proof fn ratings_are_those_of_the_day(comments: Seq<CommentView>, day: u64)
    ensures
        ratings_of(comments, day) == comments.filter(
            |c: CommentView| c.day == day,
        ).map_values(|c: CommentView| c.rating),
    decreases comments.len(),
{
    reveal(Seq::filter);
    let p = |c: CommentView| c.day == day;
    let f = |c: CommentView| c.rating;
    if comments.len() > 0 {
        ratings_are_those_of_the_day(comments.drop_last(), day);
        let before = comments.drop_last().filter(p);
        assert(before.push(comments.last()).map_values(f) =~= before.map_values(f).push(
            comments.last().rating,
        ));
    }
    assert(ratings_of(comments, day) =~= comments.filter(p).map_values(f));
}

/// What a restaurant has more in the evening is what it took, less the mean cost of a dish for
/// each customer, less a thirtieth of the chef's salary, up to a few roundings.
pub proof fn funds_grow_by_what_is_earned(f: FirmView, revenue: Real, customers: u64, day: u64)
    requires
        is_moderate(f.funds),
        is_moderate(revenue),
        is_moderate(f.chef_salary),
        within(real_mean(menu_costs(f.menu)), 400),
        customers <= 0x20_0000_0000_0000,
    ensures
        ({
            let cost = real_mean(menu_costs(f.menu)).value() * customers;
            let gain = rewarded(f, revenue, customers, day).funds.value() - f.funds.value();
            about(
                30 * gain,
                30 * revenue.value() - 30 * cost - f.chef_salary.value(),
                size(f.funds.value()) + size(revenue.value()) + size(cost) + size(
                    f.chef_salary.value(),
                ),
                1_000,
            )
        }),
        rewarded(f, revenue, customers, day).funds.is_finite(),
{
    let c = real_mean(menu_costs(f.menu));
    let k = spec_real(customers as nat);
    let p = c.times(k);
    let s = f.chef_salary.over(spec_real(30));
    let a = revenue.minus(p);
    let n = a.minus(s);
    let cost = c.value() * customers;
    let v = f.chef_salary.value();
    lemma_cost_off(c, customers as nat);
    lemma_thirtieth_off(f.chef_salary);
    lemma_within_more(p, 464, 500);
    lemma_minus_within(revenue, p, 500);
    lemma_within_more(s, 500, 501);
    lemma_minus_within(a, s, 501);
    lemma_within_more(f.funds, 500, 502);
    lemma_plus_within(f.funds, n, 502);
    lemma_plus_off(revenue, p.negated());
    lemma_plus_off(a, s.negated());
    lemma_plus_off(f.funds, n);
    lemma_earned(
        f.funds.value(),
        revenue.value(),
        cost,
        v,
        p.value(),
        s.value(),
        a.value(),
        n.value(),
        f.funds.plus(n).value(),
    );
}

/// What dishes cost for so many customers.
proof fn lemma_cost_off(c: Real, customers: nat)
    requires
        within(c, 400),
        customers <= 0x20_0000_0000_0000,
    ensures
        within(c.times(spec_real(customers)), 464),
        size(c.times(spec_real(customers)).value() - c.value() * customers) * PARTS <= size(
            c.value() * customers,
        ) + PARTS,
{
    reveal(size);
    let u = pow2(1074) as int;
    let w = PARTS as int;
    let k = spec_real(customers);
    let p = c.times(k);
    lemma_many_units();
    lemma2_to64();
    lemma2_to64_rest();
    lemma_exact_integer(customers);
    lemma_real_within(customers, 64);
    lemma_times_within(c, k, 400, 64);
    lemma_times_off(c, k);
    let cost = c.value() * customers;
    let g = p.value() - cost;
    assert(c.value() * k.value() == cost * u) by (nonlinear_arith)
        requires k.value() == customers * u, cost == c.value() * customers;
    assert(p.value() * u - cost * u == g * u) by (nonlinear_arith)
        requires g == p.value() - cost;
    lemma_size_product(g, u);
    lemma_size_product(cost, u);
    assert((size(g) * w) * u == (size(g) * u) * w) by (nonlinear_arith);
    assert(size(cost) * u + u * w == (size(cost) + w) * u) by (nonlinear_arith);
    lemma_cancelled(size(g) * w, size(cost) + w, u);
}

/// A thirtieth of a number.
proof fn lemma_thirtieth_off(x: Real)
    requires
        is_moderate(x),
    ensures
        is_moderate(x.over(spec_real(30))),
        size(30 * x.over(spec_real(30)).value() - x.value()) * PARTS <= size(x.value()) + 30
            * PARTS,
{
    reveal(size);
    let u = pow2(1074) as int;
    let w = PARTS as int;
    let s = x.over(spec_real(30));
    let v = x.value();
    lemma_many_units();
    lemma_exact_integer(30);
    lemma_over_within(x, spec_real(30), 500);
    lemma_over_off(x, spec_real(30));
    let h = 30 * s.value() - v;
    assert(s.value() * (30 * u) - v * u == h * u) by (nonlinear_arith)
        requires h == 30 * s.value() - v;
    lemma_size_product(h, u);
    assert((size(h) * w) * u == (size(h) * u) * w) by (nonlinear_arith);
    assert(size(v) * u + (30 * u) * w == (size(v) + 30 * w) * u) by (nonlinear_arith);
    lemma_cancelled(size(h) * w, size(v) + 30 * w, u);
}

/// How errors add up on the way from takings to funds.
proof fn lemma_earned(
    funds: int,
    revenue: int,
    cost: int,
    salary: int,
    p: int,
    s: int,
    a: int,
    n: int,
    after: int,
)
    requires
        size(p - cost) * PARTS <= size(cost) + PARTS,
        size(30 * s - salary) * PARTS <= size(salary) + 30 * PARTS,
        size(a - (revenue - p)) * PARTS <= size(revenue - p),
        size(n - (a - s)) * PARTS <= size(a - s),
        size(after - (funds + n)) * PARTS <= size(funds + n),
    ensures
        size(30 * (after - funds) - (30 * revenue - 30 * cost - salary)) * PARTS <= 1_000 * (size(
            funds,
        ) + size(revenue) + size(cost) + size(salary)) + 1_000 * PARTS,
{
    let m = size(funds) + size(revenue) + size(cost) + size(salary);
    lemma_size_sizes(funds, revenue, cost, salary, n);
    lemma_cost_size(p, cost, m);
    lemma_size_small(30 * s - salary, m, 30);
    lemma_thirty(s, salary, m);
    lemma_difference_size(a, revenue, p, m, 2 * m + 1);
    lemma_difference_size(n, a, s, 6 * m + 2, 2 * m + 1);
    lemma_difference_size(after, funds, -n, m, 16 * m + 6);
    assert(funds - (-n) == funds + n);
    lemma_five(p - cost, 30 * s - salary, a - (revenue - p), n - (a - s), after - (funds + n));
    let d = 30 * (after - funds) - (30 * revenue - 30 * cost - salary);
    lemma_total(
        size(d),
        size(p - cost),
        size(30 * s - salary),
        size(a - (revenue - p)),
        size(n - (a - s)),
        size(after - (funds + n)),
        m,
    );
}

/// Sizes are not negative.
proof fn lemma_size_sizes(a: int, b: int, c: int, d: int, n: int)
    ensures
        size(a) >= 0 && size(b) >= 0 && size(c) >= 0 && size(d) >= 0,
        size(-n) == size(n),
{
    reveal(size);
}

/// Errors in parts that add up.
proof fn lemma_total(d: int, z1: int, z2: int, z3: int, z4: int, z5: int, m: int)
    requires
        d <= 30 * z5 + 30 * z4 + 30 * z3 + 30 * z1 + z2,
        z1 * PARTS <= m + PARTS,
        z2 * PARTS <= m + 30 * PARTS,
        z3 * PARTS <= 3 * m + 1,
        z4 * PARTS <= 8 * m + 3,
        z5 * PARTS <= 17 * m + 6,
        m >= 0,
    ensures
        d * PARTS <= 1_000 * m + 1_000 * PARTS,
{
    assert(z1 * PARTS == 0x20_0000_0000_0000 * z1);
    assert(z2 * PARTS == 0x20_0000_0000_0000 * z2);
    assert(z3 * PARTS == 0x20_0000_0000_0000 * z3);
    assert(z4 * PARTS == 0x20_0000_0000_0000 * z4);
    assert(z5 * PARTS == 0x20_0000_0000_0000 * z5);
    assert(d * PARTS == 0x20_0000_0000_0000 * d);
}

/// What a product that is off by little is at most.
proof fn lemma_cost_size(p: int, cost: int, m: int)
    requires
        size(p - cost) * PARTS <= size(cost) + PARTS,
        size(cost) <= m,
    ensures
        size(p) <= 2 * m + 1,
{
    reveal(size);
    lemma_size_small(p - cost, m, 1);
    lemma_size_sum(cost, p - cost);
}

/// What a difference that is rounded is at most, and by how much it is off.
proof fn lemma_difference_size(r: int, x: int, y: int, a: int, b: int)
    requires
        size(r - (x - y)) * PARTS <= size(x - y),
        size(x) <= a,
        size(y) <= b,
    ensures
        size(r) <= 2 * (a + b),
        size(r - (x - y)) * PARTS <= a + b,
{
    reveal(size);
    lemma_size_sum(x, y);
    lemma_size_rounded(r, x - y, a + b);
}

/// An error that is small.
proof fn lemma_size_small(e: int, m: int, k: int)
    requires
        size(e) * PARTS <= m + k * PARTS,
        m >= 0,
        k >= 0,
    ensures
        size(e) <= m + k,
{
    reveal(size);
    assert(size(e) * PARTS == 0x20_0000_0000_0000 * size(e));
    assert(k * PARTS == 0x20_0000_0000_0000 * k);
}

/// What a thirtieth is at most.
proof fn lemma_thirty(s: int, salary: int, m: int)
    requires
        size(30 * s - salary) <= m + 30,
        size(salary) <= m,
    ensures
        size(s) <= 2 * m + 1,
{
    reveal(size);
}

/// What is rounded is at most twice as large.
proof fn lemma_size_rounded(r: int, x: int, b: int)
    requires
        size(r - x) * PARTS <= size(x),
        size(x) <= b,
    ensures
        size(r) <= 2 * b,
        size(r - x) * PARTS <= b,
{
    reveal(size);
    assert(size(r - x) * PARTS == 0x20_0000_0000_0000 * size(r - x));
    assert(size(r) <= size(x) + size(r - x));
}

/// Errors that add up.
proof fn lemma_five(e1: int, e2: int, e3: int, e4: int, e5: int)
    ensures
        size(30 * e5 + 30 * e4 + 30 * e3 - 30 * e1 - e2) <= 30 * size(e5) + 30 * size(e4) + 30
            * size(e3) + 30 * size(e1) + size(e2),
{
    reveal(size);
    let a = 30 * e5 + 30 * e4;
    assert(size(a) <= 30 * size(e5) + 30 * size(e4));
    let b = a + 30 * e3;
    assert(size(b) <= size(a) + 30 * size(e3));
    let c = b - 30 * e1;
    assert(size(c) <= size(b) + 30 * size(e1));
    assert(size(c - e2) <= size(c) + size(e2));
}

/// An evening adds the day's takings and customers to those so far, and leaves everything of a
/// restaurant that is not of money or of its name.
pub proof fn evenings_add_up(f: FirmView, revenue: Real, customers: u64, day: u64)
    requires
        is_moderate(f.cumulative_revenue),
        is_moderate(revenue),
        f.cumulative_customers + customers <= u64::MAX,
    ensures
        ({
            let r = rewarded(f, revenue, customers, day);
            let sum = f.cumulative_revenue.value() + revenue.value();
            &&& r.cumulative_customers == f.cumulative_customers + customers
            &&& r.cumulative_revenue.is_finite()
            &&& about(r.cumulative_revenue.value(), sum, size(sum), 1)
            &&& r.menu == f.menu && r.chef_salary == f.chef_salary
            &&& r.advertisement == f.advertisement && r.comments == f.comments
            &&& r.memory == f.memory && r.alive == f.alive
        }),
{
    reveal(size);
    lemma_plus_within(f.cumulative_revenue, revenue, 500);
    lemma_plus_off(f.cumulative_revenue, revenue);
}

/// Every restaurant settles what the market brought under its own identity, and nobody else's.
pub proof fn restaurants_settle_their_own(
    firms: Seq<(AgentId, FirmView)>,
    market: MarketView,
    day: u64,
    i: int,
)
    requires
        0 <= i < firms.len(),
    ensures
        all_rewarded(firms, market, day).len() == firms.len(),
        all_reflected(firms, market, day).len() == firms.len(),
        ({
            let (id, f) = firms[i];
            let (a, b) = (market.revenue_of(id.0), market.customers_of(id.0));
            &&& all_rewarded(firms, market, day)[i] == (id, rewarded(f, a, b, day))
            &&& all_reflected(firms, market, day)[i] == (id, reflected(f, a, b, day))
        }),
{
}

/// Of a list the last ones are kept, as many as are asked for, in order.
pub proof fn the_last_are_kept<T>(s: Seq<T>, n: int)
    requires
        n >= 0,
    ensures
        last_of(s, n).len() == if s.len() < n {
            s.len() as int
        } else {
            n
        },
        forall|k: int|
            0 <= k < last_of(s, n).len() ==> #[trigger] last_of(s, n)[k] == s[s.len() - last_of(
                s,
                n,
            ).len() + k],
{
}

/// At night a restaurant in business remembers the day, behind the days that it remembered
/// before, ten days at most; and it gives up where its funds are below zero. One that gave up
/// stays as it was.
pub proof fn nights_are_remembered(f: FirmView, revenue: Real, customers: u64, day: u64)
    ensures
        ({
            let r = reflected(f, revenue, customers, day);
            let kept = r.memory.len() as int;
            &&& !f.alive ==> r == f
            &&& f.alive ==> {
                &&& r.alive == !f.funds.less(Real { bits: 0 })
                &&& kept == if f.memory.len() < 10 {
                    f.memory.len() + 1
                } else {
                    10
                }
                &&& r.memory.last() == "day "@ + decimal(day as nat) + ": "@ + decimal(
                    customers as nat,
                ) + " customers, revenue "@ + fixed(revenue, 0) + ", funds "@ + fixed(f.funds, 0)
                    + ", avg price "@ + fixed(
                    real_mean(f.menu.map_values(|d: DishView| d.price)),
                    0,
                )
                &&& forall|k: int|
                    0 <= k < kept - 1 ==> #[trigger] r.memory[k] == f.memory[f.memory.len() + 1
                        - kept + k]
                &&& r == (FirmView { memory: r.memory, alive: r.alive, ..f })
            }
        }),
{
}

/// What is recorded of a restaurant on a day is what the market brought it and what it is in
/// the evening.
pub proof fn rows_tell_of_their_restaurants(
    firms: Seq<(AgentId, FirmView)>,
    market: MarketView,
    day: u64,
    i: int,
)
    requires
        0 <= i < firms.len(),
        firms.len() <= u64::MAX,
    ensures
        rows_of(firms, market, day).len() == firms.len(),
        ({
            let row = rows_of(firms, market, day)[i];
            let (id, f) = firms[i];
            let open = firms.filter(|e: (AgentId, FirmView)| e.1.alive);
            &&& row.day == day && row.firm == id.0
            &&& row.firm_alive == 1 <==> f.alive
            &&& row.firm_alive == 0 <==> !f.alive
            &&& row.day_customers == market.customers_of(id.0)
            &&& row.day_revenue == market.revenue_of(id.0)
            &&& row.cumulative_revenue == f.cumulative_revenue
            &&& row.reputation == f.reputation
            &&& row.avg_price == real_mean(f.menu.map_values(|d: DishView| d.price))
            &&& row.avg_dish_score == real_mean(f.menu.map_values(|d: DishView| dish_score(d)))
            &&& row.revenue_gini == spec_gini(
                firms.map_values(|e: (AgentId, FirmView)| e.1.cumulative_revenue),
            )
            &&& row.market_share_max == spec_share(
                firms.map_values(|e: (AgentId, FirmView)| market.customers_of(e.0.0)),
            )
            &&& row.menu_similarity == spec_menu_similarity(
                open.map_values(|e: (AgentId, FirmView)| e.1.menu),
            )
            &&& row.n_alive_firms == open.len()
        }),
{
    those_in_business_are_counted(firms);
}

/// Identities and menus of the restaurants in business are those of the restaurants that did
/// not give up, in order.
pub proof fn those_in_business_are_counted(firms: Seq<(AgentId, FirmView)>)
    ensures
        ({
            let open = firms.filter(|e: (AgentId, FirmView)| e.1.alive);
            &&& open.len() <= firms.len()
            &&& alive_ids(firms) == open.map_values(|e: (AgentId, FirmView)| e.0)
            &&& alive_menus(firms) == open.map_values(|e: (AgentId, FirmView)| e.1.menu)
        }),
    decreases firms.len(),
{
    reveal(Seq::filter);
    let p = |e: (AgentId, FirmView)| e.1.alive;
    let f = |e: (AgentId, FirmView)| e.0;
    let g = |e: (AgentId, FirmView)| e.1.menu;
    let open = firms.filter(p);
    if firms.len() > 0 {
        those_in_business_are_counted(firms.drop_last());
        let before = firms.drop_last().filter(p);
        let x = firms.last();
        assert(before.push(x).map_values(f) =~= before.map_values(f).push(x.0));
        assert(before.push(x).map_values(g) =~= before.map_values(g).push(x.1.menu));
    }
    assert(alive_ids(firms) =~= open.map_values(f));
    assert(alive_menus(firms) =~= open.map_values(g));
}

} // verus!
