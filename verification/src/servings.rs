//! What visitors are served, what they pay, and how satisfied they are, in exact arithmetic.
use crate::accuracy::{is_amount, PARTS};
use crate::binary64::{spec_ratio, spec_real, Real};
use crate::bounds::{lemma_exact_integer, lemma_one, lemma_over_one_or_more, lemma_times_one, plain};
use crate::choice::Choice;
use crate::estimates::{
    about, is_moderate, lemma_cancelled, lemma_many_units, lemma_over_off, lemma_over_within,
    lemma_part_off, lemma_plus_off, lemma_plus_within, lemma_ratio_off, lemma_ratio_within,
    lemma_real_within, lemma_size_product, lemma_times_off, lemma_times_within, lemma_within_more,
    size, within,
};
use crate::patronage::{
    all_visited, cheapest, income_of, last_of, satisfaction_of, serves, spec_comment_text, visited,
};
use crate::rounding::{lemma_nearest_exact, nearest, units};
use crate::world::{
    dish_score, ids_of, lemma_place_of, place_of, AgentId, CustomerView, DishView, FirmView, Visit,
    WorldView,
};
use vstd::arithmetic::power2::*;
use vstd::prelude::*;
use vstd::string::*;

verus! {

/// A visitor is served the cheapest dish: no dish on the menu costs less, and all dishes before
/// it cost more.
pub proof fn visitors_are_served_the_cheapest_dish(menu: Seq<DishView>)
    requires
        menu.len() > 0,
        forall|k: int| 0 <= k < menu.len() ==> !(#[trigger] menu[k]).price.is_nan(),
    ensures
        0 <= cheapest(menu) < menu.len(),
        forall|k: int|
            0 <= k < menu.len() ==> !(#[trigger] menu[k]).price.less(menu[cheapest(menu)].price),
        forall|k: int|
            0 <= k < cheapest(menu) ==> menu[cheapest(menu)].price.less((#[trigger] menu[k]).price),
    decreases menu.len(),
{
    if menu.len() > 1 {
        let rest = menu.drop_last();
        assert forall|k: int| 0 <= k < rest.len() implies !(#[trigger] rest[k]).price.is_nan() by {
            assert(rest[k] == menu[k]);
        }
        visitors_are_served_the_cheapest_dish(rest);
        let b = cheapest(rest);
        let c = cheapest(menu);
        assert(rest[b] == menu[b]);
        assert(!menu[b].price.is_nan());
        assert(!menu[menu.len() - 1].price.is_nan());
        assert forall|k: int| 0 <= k < menu.len() implies !(#[trigger] menu[k]).price.less(
            menu[c].price,
        ) by {
            if k < rest.len() {
                assert(!rest[k].price.less(rest[b].price));
                assert(rest[k] == menu[k]);
            }
        }
        assert forall|k: int| 0 <= k < c implies menu[c].price.less((#[trigger] menu[k]).price) by {
            if k < rest.len() {
                assert(rest[k] == menu[k]);
                if c == b {
                    assert(rest[b].price.less(rest[k].price));
                } else {
                    assert(!rest[k].price.less(rest[b].price));
                    assert(!menu[k].price.is_nan());
                }
            }
        }
    }
}

/// A visit to a restaurant that serves: the restaurant has one customer more on the day and
/// takes what its cheapest dish costs, the customer remembers what they paid and how satisfied
/// they were, and says so in a comment behind the others, of which the last fifty are kept.
/// Everyone else is left alone.
pub proof fn visits_have_their_effects(w: WorldView, choice: Choice, i: int)
    requires
        w.wf(),
        0 <= i < w.firms.len(),
        w.firms[i].0 == AgentId(choice.1),
        w.firms[i].1.alive,
        w.firms[i].1.menu.len() > 0,
        forall|k: int|
            0 <= k < w.firms[i].1.menu.len() ==> !(#[trigger] w.firms[i].1.menu[k]).price.is_nan(),
        w.market.customers_of(choice.1) < u64::MAX,
    ensures
        ({
            let v = visited(w, choice);
            let (customer, firm) = choice;
            let f = w.firms[i].1;
            let said = v.firms[i].1.comments;
            exists|c: int|
                {
                    let dish = #[trigger] f.menu[c];
                    let s = said.last().rating;
                    &&& 0 <= c < f.menu.len()
                    &&& forall|k: int| 0 <= k < f.menu.len() ==> !(#[trigger] f.menu[k]).price.less(
                        dish.price,
                    )
                    &&& v.market.revenue_of(firm) == w.market.revenue_of(firm).plus(dish.price)
                    &&& v.market.customers_of(firm) == w.market.customers_of(firm) + 1
                    &&& said == last_of(f.comments.push(said.last()), 50)
                    &&& said.last().customer == customer && said.last().day == w.day
                    &&& said.last().text == spec_comment_text(s)
                    &&& s == satisfaction_of(dish, income_of(w, customer))
                    &&& v.firms[i] == (w.firms[i].0, (FirmView { comments: said, ..f }))
                    &&& forall|j: int|
                        0 <= j < w.customers.len() && (#[trigger] w.customers[j]).0 == AgentId(
                            customer,
                        ) ==> v.customers[j] == (
                            w.customers[j].0,
                            (CustomerView {
                                visit_memory: w.customers[j].1.visit_memory.push(
                                    Visit {
                                        day: w.day,
                                        firm,
                                        spend: dish.price,
                                        satisfaction: s,
                                    },
                                ),
                                ..w.customers[j].1
                            }),
                        )
                }
        }),
        ({
            let v = visited(w, choice);
            &&& v.firms.len() == w.firms.len() && v.customers.len() == w.customers.len()
            &&& v.day == w.day && v.t == w.t
            &&& forall|j: int| 0 <= j < w.firms.len() && j != i ==> #[trigger] v.firms[j] == w.firms[j]
            &&& forall|j: int|
                0 <= j < w.customers.len() && w.customers[j].0 != AgentId(choice.0)
                    ==> #[trigger] v.customers[j] == w.customers[j]
            &&& forall|g: u64|
                g != choice.1 ==> #[trigger] v.market.customers_of(g) == w.market.customers_of(g)
            &&& forall|g: u64|
                g != choice.1 ==> #[trigger] v.market.revenue_of(g) == w.market.revenue_of(g)
        }),
{
    let v = visited(w, choice);
    let f = w.firms[i].1;
    let c = cheapest(f.menu);
    lemma_place_of(ids_of(w.firms), AgentId(choice.1));
    lemma_place_of(ids_of(w.customers), AgentId(choice.0));
    assert(ids_of(w.firms)[i] == w.firms[i].0);
    assert(place_of(ids_of(w.firms), AgentId(choice.1)) == Some(i));
    visitors_are_served_the_cheapest_dish(f.menu);
    let said = v.firms[i].1.comments;
    assert(said.len() > 0);
    assert forall|j: int|
        0 <= j < w.customers.len() && w.customers[j].0 != AgentId(choice.0) implies
        #[trigger] v.customers[j] == w.customers[j] by {
        assert(ids_of(w.customers)[j] == w.customers[j].0);
    }
    assert forall|j: int|
        0 <= j < w.customers.len() && (#[trigger] w.customers[j]).0 == AgentId(choice.0) implies
        place_of(ids_of(w.customers), AgentId(choice.0)) == Some(j) by {
        assert(ids_of(w.customers)[j] == w.customers[j].0);
    }
    assert(!f.menu[c].price.less(f.menu[c].price));
}

/// What a customer can spend is their own income; whoever is no customer of the town can spend
/// nothing.
pub proof fn customers_spend_their_own(w: WorldView, customer: u64)
    requires
        w.wf(),
    ensures
        forall|j: int|
            0 <= j < w.customers.len() && (#[trigger] w.customers[j]).0 == AgentId(customer)
                ==> income_of(w, customer) == w.customers[j].1.income,
        (forall|j: int|
            0 <= j < w.customers.len() ==> (#[trigger] w.customers[j]).0 != AgentId(customer))
            ==> income_of(w, customer) == (Real { bits: 0 }),
{
    let ids = ids_of(w.customers);
    lemma_place_of(ids, AgentId(customer));
    assert forall|j: int| 0 <= j < w.customers.len() implies #[trigger] w.customers[j].0 == ids[j] by {
    }
}

/// The visits of a day happen one after the other: those of two lists together are those of the
/// first list, then those of the second.
pub proof fn visits_follow_each_other(w: WorldView, a: Seq<Choice>, b: Seq<Choice>)
    ensures
        all_visited(w, a + b) == all_visited(all_visited(w, a), b),
        all_visited(w, seq![]) == w,
        forall|c: Choice| #[trigger] all_visited(w, seq![c]) == visited(w, c),
    decreases b.len(),
{
    assert forall|c: Choice| #[trigger] all_visited(w, seq![c]) == visited(w, c) by {
        assert(seq![c].drop_last() =~= Seq::<Choice>::empty());
        assert(all_visited(w, seq![c].drop_last()) == w);
    }
    if b.len() == 0 {
        assert(a + b =~= a);
    } else {
        visits_follow_each_other(w, a, b.drop_last());
        assert((a + b).drop_last() =~= a + b.drop_last());
        assert((a + b).last() == b.last());
    }
}

/// Two and a half, exactly.
proof fn lemma_two_and_a_half()
    ensures
        plain(spec_ratio(25, 10)),
        2 * spec_ratio(25, 10).value() == 5 * pow2(1074),
{
    let u = pow2(1074);
    let x = spec_real(25);
    let y = spec_real(10);
    lemma_many_units();
    lemma_exact_integer(25);
    lemma_exact_integer(10);
    crate::bounds::lemma_halves();
    lemma_exact_integer(5);
    lemma_exact_integer(2);
    // Half of five is a number, so the quotient is exact.
    lemma2_to64();
    lemma2_to64_rest();
    let b = crate::rounding::BINADE as nat;
    let k = 0x4004_0000_0000_0000nat;
    crate::rounding::lemma_units_scaled(b + b / 4, 1023);
    lemma_pow2_adds(50, 1023);
    lemma_pow2_adds(1, 1073);
    assert(units(k) == (b + b / 4) * pow2(1023));
    assert(b + b / 4 == 5 * pow2(50));
    assert((5 * pow2(50)) * pow2(1023) == 5 * pow2(1073)) by (nonlinear_arith)
        requires pow2(50) * pow2(1023) == pow2(1073);
    assert(2 * units(k) == 5 * u);
    crate::bounds::lemma_quotient_pattern(x, y);
    assert(units(x.magnitude()) == 25 * u && units(y.magnitude()) == 10 * u);
    assert(units(k) * (10 * u) == (25 * u) * u) by (nonlinear_arith)
        requires 2 * units(k) == 5 * u;
    lemma_nearest_exact((25 * u) * u, 10 * u, k);
    crate::bounds::lemma_pattern(k);
}

/// What a customer says goes by how satisfied they are: four or more is excellent, two and a
/// half or more decent, and anything else a disappointment.
pub proof fn comments_go_by_satisfaction(s: Real)
    requires
        !s.is_nan(),
    ensures
        ({
            let u = pow2(1074);
            let text = spec_comment_text(s);
            &&& s.value() >= 4 * u ==> text
                == "Excellent food and great value — highly recommend!"@
            &&& 2 * s.value() >= 5 * u && s.value() < 4 * u ==> text
                == "Decent meal, fair for the price."@
            &&& 2 * s.value() < 5 * u ==> text == "Overpriced and underwhelming."@
        }),
{
    lemma_exact_integer(4);
    lemma_two_and_a_half();
}

/// The quality of a dish that costs one or more is half of its cost as a part of its price and
/// half of the chef's salary as a part of 5000: ten thousand times the price times the quality
/// is five thousand times the cost and the price times the salary, up to a few roundings.
pub proof fn quality_is_half_cost_and_half_salary(d: DishView)
    requires
        is_amount(d.cost) && is_moderate(d.cost),
        is_amount(d.price) && is_moderate(d.price),
        d.price.value() >= pow2(1074),
        is_amount(d.chef_salary) && is_moderate(d.chef_salary),
    ensures
        is_amount(dish_score(d)),
        within(dish_score(d), 501),
        ({
            let p = d.price.value();
            let exact = 5_000 * (d.cost.value() * pow2(1074)) + d.chef_salary.value() * p;
            size(10_000 * (dish_score(d).value() * p) - exact) * PARTS <= 13 * exact + 40_000 * (p
                * PARTS)
        }),
{
    reveal(size);
    let u = pow2(1074) as int;
    let half = spec_ratio(1, 2);
    let a = d.cost.over(d.price);
    let b = d.chef_salary.over(spec_real(5_000));
    let x = half.times(a);
    let y = half.times(b);
    lemma_many_units();
    lemma_one();
    lemma_exact_integer(5_000);
    lemma_tiny_price(d.price);
    lemma_over_one_or_more(d.cost, d.price);
    lemma_over_one_or_more(d.chef_salary, spec_real(5_000));
    lemma_over_within(d.cost, d.price, 500);
    lemma_over_within(d.chef_salary, spec_real(5_000), 500);
    lemma_halved(a);
    lemma_halved(b);
    lemma_plus_within(x, y, 500);
    lemma_plus_off(x, y);
    lemma_over_off(d.cost, d.price);
    lemma_by_5000(d.chef_salary);
    crate::bounds::lemma_plus_grows(x, y);
    let s = dish_score(d);
    assert(s == x.plus(y));
    lemma_score_sum(a.value(), b.value(), x.value(), y.value(), s.value());
    lemma_score_scaled(
        a.value(),
        b.value(),
        s.value(),
        d.cost.value(),
        d.price.value(),
        d.chef_salary.value(),
        u,
    );
}

/// A price of one is no price next to nothing.
proof fn lemma_tiny_price(p: Real)
    requires
        is_amount(p),
        p.value() >= pow2(1074),
    ensures
        spec_ratio(1, 1_000_000_000).less(p),
{
    lemma_many_units();
    lemma_one();
    lemma_exact_integer(1_000_000_000);
    let u = pow2(1074) as int;
    let x = spec_real(1);
    let y = spec_real(1_000_000_000);
    lemma_over_one_or_more(x, y);
    lemma_over_off(x, y);
    reveal(size);
    let r = x.over(y).value();
    let k = 1_000_000_000 * u;
    if r >= u {
        assert(r * k >= u * k) by (nonlinear_arith)
            requires r >= u, k >= 0;
        let d = r * k - u * u;
        assert(u * k == 1_000_000_000 * (u * u)) by (nonlinear_arith)
            requires k == 1_000_000_000 * u;
        assert(d * PARTS == 0x20_0000_0000_0000 * d);
        assert(k * PARTS == 0x20_0000_0000_0000 * k);
        assert(u * u >= k) by (nonlinear_arith)
            requires k == 1_000_000_000 * u, u >= 1_000_000_000;
    }
}

/// Half of an amount.
proof fn lemma_halved(a: Real)
    requires
        is_amount(a),
        is_moderate(a),
    ensures
        is_amount(spec_ratio(1, 2).times(a)),
        is_moderate(spec_ratio(1, 2).times(a)),
        size(2 * spec_ratio(1, 2).times(a).value() - a.value()) * PARTS <= 4 * a.value() + 2
            * PARTS,
{
    reveal(size);
    lemma2_to64();
    lemma_ratio_within(1, 2, 0);
    lemma_ratio_off(1, 2);
    lemma_times_within(spec_ratio(1, 2), a, 0, 500);
    lemma_part_off(1, 2, a);
    crate::bounds::lemma_product_pattern(spec_ratio(1, 2), a);
    crate::bounds::lemma_pattern(
        nearest(units(spec_ratio(1, 2).magnitude()) * units(a.magnitude()), pow2(1074)),
    );
}

/// An amount by five thousand.
proof fn lemma_by_5000(x: Real)
    requires
        is_amount(x),
        is_moderate(x),
    ensures
        size(5_000 * x.over(spec_real(5_000)).value() - x.value()) * PARTS <= x.value() + 5_000
            * PARTS,
{
    reveal(size);
    let u = pow2(1074) as int;
    let w = PARTS as int;
    let s = x.over(spec_real(5_000));
    let v = x.value();
    lemma_many_units();
    lemma_exact_integer(5_000);
    lemma_over_within(x, spec_real(5_000), 500);
    lemma_over_off(x, spec_real(5_000));
    let h = 5_000 * s.value() - v;
    assert(s.value() * (5_000 * u) - v * u == h * u) by (nonlinear_arith)
        requires h == 5_000 * s.value() - v;
    lemma_size_product(h, u);
    assert((size(h) * w) * u == (size(h) * u) * w) by (nonlinear_arith);
    assert(v * u + (5_000 * u) * w == (v + 5_000 * w) * u) by (nonlinear_arith);
    lemma_cancelled(size(h) * w, v + 5_000 * w, u);
}

/// Two halves added up.
proof fn lemma_score_sum(a: int, b: int, x: int, y: int, s: int)
    requires
        a >= 0,
        b >= 0,
        x >= 0,
        y >= 0,
        size(2 * x - a) * PARTS <= 4 * a + 2 * PARTS,
        size(2 * y - b) * PARTS <= 4 * b + 2 * PARTS,
        size(s - (x + y)) * PARTS <= size(x + y),
    ensures
        size(2 * s - (a + b)) * PARTS <= 6 * (a + b) + 5 * PARTS,
{
    reveal(size);
    let i = size(2 * x - a);
    let j = size(2 * y - b);
    let k = size(s - (x + y));
    assert(i * PARTS == 0x20_0000_0000_0000 * i);
    assert(j * PARTS == 0x20_0000_0000_0000 * j);
    assert(k * PARTS == 0x20_0000_0000_0000 * k);
    assert(i <= a + 2 && j <= b + 2);
    assert(x + y <= a + b + 2);
    let d = size(2 * s - (a + b));
    assert(d <= 2 * k + i + j);
    assert(d * PARTS == 0x20_0000_0000_0000 * d);
}

/// A quality times a price.
proof fn lemma_score_scaled(a: int, b: int, s: int, cost: int, p: int, salary: int, u: int)
    requires
        a >= 0,
        b >= 0,
        cost >= 0,
        p >= 0,
        salary >= 0,
        u >= 0,
        size(2 * s - (a + b)) * PARTS <= 6 * (a + b) + 5 * PARTS,
        size(5_000 * b - salary) * PARTS <= salary + 5_000 * PARTS,
        size(a * p - cost * u) * PARTS <= size(cost) * u + p * PARTS,
    ensures
        ({
            let exact = 5_000 * (cost * u) + salary * p;
            size(10_000 * (s * p) - exact) * PARTS <= 13 * exact + 40_000 * (p * PARTS)
        }),
{
    reveal(size);
    let w = PARTS as int;
    let g = 10_000 * s - 5_000 * a - salary;
    let h = a * p - cost * u;
    let cu = cost * u;
    let ap = a * p;
    let sp = salary * p;
    let pw = p * w;
    assert(size(g) * w <= 30_000 * a + 13 * salary + 30_001 * w) by {
        let i = size(2 * s - (a + b));
        let j = size(5_000 * b - salary);
        assert(i * w == 0x20_0000_0000_0000 * i);
        assert(j * w == 0x20_0000_0000_0000 * j);
        assert(j <= salary + 5_000);
        assert(size(g) <= 5_000 * i + j);
        assert(size(g) * w == 0x20_0000_0000_0000 * size(g));
    }
    assert(cu >= 0 && ap >= 0 && sp >= 0 && pw >= p) by (nonlinear_arith)
        requires
            cu == cost * u, ap == a * p, sp == salary * p, pw == p * w,
            cost >= 0, u >= 0, a >= 0, p >= 0, salary >= 0, w >= 1,
    ;
    assert(size(h) * w == 0x20_0000_0000_0000 * size(h));
    assert(pw == 0x20_0000_0000_0000 * p);
    assert(ap <= 2 * cu + p);
    let d = 10_000 * (s * p) - (5_000 * cu + sp);
    assert(d == g * p + 5_000 * h) by (nonlinear_arith)
        requires
            d == 10_000 * (s * p) - (5_000 * cu + sp),
            g == 10_000 * s - 5_000 * a - salary,
            h == a * p - cu,
            sp == salary * p,
    ;
    lemma_size_product(g, p);
    let gp = size(g) * p;
    assert(gp * w == (size(g) * w) * p) by (nonlinear_arith)
        requires gp == size(g) * p;
    assert((size(g) * w) * p <= (30_000 * a + 13 * salary + 30_001 * w) * p) by (nonlinear_arith)
        requires size(g) * w <= 30_000 * a + 13 * salary + 30_001 * w, p >= 0;
    assert((30_000 * a + 13 * salary + 30_001 * w) * p == 30_000 * ap + 13 * sp + 30_001 * pw)
        by (nonlinear_arith)
        requires ap == a * p, sp == salary * p, pw == p * w;
    assert(gp * w == 0x20_0000_0000_0000 * gp);
    assert(size(d) <= gp + 5_000 * size(h));
    assert(size(d) * w == 0x20_0000_0000_0000 * size(d));
}

/// The quality of a dish that has next to no price does not depend on what it costs.
pub proof fn quality_without_a_price_is_of_the_chef(d: DishView, cost: Real)
    requires
        !spec_ratio(1, 1_000_000_000).less(d.price),
    ensures
        dish_score(d) == dish_score(DishView { cost, ..d }),
{
}

/// Five times an amount.
proof fn lemma_five_times(x: Real)
    requires
        is_amount(x),
        within(x, 501),
    ensures
        is_amount(spec_real(5).times(x)),
        within(spec_real(5).times(x), 504),
        size(spec_real(5).times(x).value() - 5 * x.value()) * PARTS <= 5 * x.value() + PARTS,
{
    reveal(size);
    let u = pow2(1074) as int;
    let w = PARTS as int;
    let f = spec_real(5).times(x);
    let v = x.value();
    lemma_many_units();
    lemma2_to64();
    lemma_exact_integer(5);
    lemma_real_within(5, 3);
    lemma_times_within(spec_real(5), x, 3, 501);
    lemma_times_off(spec_real(5), x);
    crate::bounds::lemma_product_pattern(spec_real(5), x);
    crate::bounds::lemma_pattern(
        nearest(units(spec_real(5).magnitude()) * units(x.magnitude()), pow2(1074)),
    );
    let h = f.value() - 5 * v;
    assert((5 * u) * v == (5 * v) * u) by (nonlinear_arith);
    assert(f.value() * u - (5 * v) * u == h * u) by (nonlinear_arith)
        requires h == f.value() - 5 * v;
    lemma_size_product(h, u);
    lemma_size_product(5 * v, u);
    assert((size(h) * w) * u == (size(h) * u) * w) by (nonlinear_arith);
    assert((5 * v) * u + u * w == (5 * v + w) * u) by (nonlinear_arith);
    lemma_cancelled(size(h) * w, 5 * v + w, u);
}

/// A customer who can pay for a dish is satisfied by five times its quality, up to a rounding,
/// and by five at most.
pub proof fn quality_satisfies(dish: DishView, income: Real)
    requires
        dish.price.at_most(income),
        is_amount(dish_score(dish)),
        within(dish_score(dish), 501),
    ensures
        ({
            let u = pow2(1074);
            let q = 5 * dish_score(dish).value();
            let most = if q < 5 * u {
                q
            } else {
                5 * u as int
            };
            about(satisfaction_of(dish, income).value(), most, q, 1)
        }),
{
    reveal(size);
    let f = spec_real(5).times(dish_score(dish));
    lemma_many_units();
    lemma_exact_integer(5);
    lemma_five_times(dish_score(dish));
    lemma_times_one(f);
    let s = satisfaction_of(dish, income);
    assert(s == f.clamped(Real { bits: 0 }, spec_real(5)));
    let h = f.value() - 5 * dish_score(dish).value();
    assert(size(h) * PARTS == 0x20_0000_0000_0000 * size(h));
}

/// A customer whose means are below the price of a dish is satisfied by five times its quality
/// times the means as a part of the price: the satisfaction times the price is five times the
/// quality times the means, up to a few roundings, unless that is more than five.
pub proof fn means_limit_satisfaction(dish: DishView, income: Real) -> (x: int)
    requires
        is_amount(income) && is_moderate(income),
        is_amount(dish.price) && is_moderate(dish.price),
        dish.price.value() >= pow2(1074),
        income.value() < dish.price.value(),
        is_amount(dish_score(dish)),
        dish_score(dish).value() <= 1_000 * pow2(1074),
    ensures
        satisfaction_of(dish, income).value() == if x < 5 * pow2(1074) {
            x
        } else {
            5 * pow2(1074) as int
        },
        ({
            let p = dish.price.value();
            let exact = 5 * (dish_score(dish).value() * income.value());
            size(x * p - exact) * PARTS <= 7 * exact + 7_000 * (p * PARTS)
        }),
{
    reveal(size);
    let u = pow2(1074) as int;
    let q = dish_score(dish);
    let f = spec_real(5).times(q);
    let a = income.over(dish.price);
    let t = f.times(a);
    lemma_many_units();
    lemma_one();
    lemma2_to64();
    lemma_exact_integer(5);
    assert(within(q, 10)) by {
        assert(1_000 * u <= pow2(10) * u) by (nonlinear_arith)
            requires pow2(10) == 1024, u >= 0;
    }
    lemma_within_more(q, 10, 501);
    lemma_five_times(q);
    lemma_over_one_or_more(income, dish.price);
    lemma_over_within(income, dish.price, 500);
    lemma_over_off(income, dish.price);
    assert(dish.price.larger(spec_real(1)) == dish.price);
    assert(within(f, 13)) by {
        let h = f.value() - 5 * q.value();
        assert(size(h) * PARTS == 0x20_0000_0000_0000 * size(h));
        assert(f.value() <= 5_001 * u);
        assert(5_001 * u <= pow2(13) * u) by (nonlinear_arith)
            requires pow2(13) == 8192, u >= 0;
    }
    lemma_times_within(f, a, 13, 500);
    lemma_times_off(f, a);
    crate::bounds::lemma_product_pattern(f, a);
    crate::bounds::lemma_pattern(nearest(units(f.magnitude()) * units(a.magnitude()), pow2(1074)));
    assert(satisfaction_of(dish, income) == t.clamped(Real { bits: 0 }, spec_real(5)));
    lemma_limited(q.value(), f.value(), a.value(), income.value(), dish.price.value(), t.value(), u);
    t.value()
}

/// A quality times means by a price.
proof fn lemma_limited(q: int, f: int, a: int, i: int, p: int, t: int, u: int)
    requires
        u >= 1_000_000 * PARTS,
        0 <= q <= 1_000 * u,
        f >= 0,
        a >= 0,
        0 <= i < p,
        size(f - 5 * q) * PARTS <= 5 * q + PARTS,
        size(a * p - i * u) * PARTS <= size(i) * u + p * PARTS,
        size(t * u - f * a) * PARTS <= size(f * a) + u * PARTS,
    ensures
        ({
            let exact = 5 * (q * i);
            size(t * p - exact) * PARTS <= 7 * exact + 7_000 * (p * PARTS)
        }),
{
    reveal(size);
    let w = PARTS as int;
    let qi = q * i;
    let fi = f * i;
    let e = f - 5 * q;
    let h = a * p - i * u;
    let k = t * u - f * a;
    let pw = p * w;
    assert(size(e) * w == 0x20_0000_0000_0000 * size(e));
    assert(f <= 6 * q + 1 && f <= 5_001 * u);
    // The error of the factor.
    let ei = e * i;
    lemma_size_product(e, i);
    assert(size(ei) * w <= 5 * qi + pw) by {
        assert((size(e) * i) * w == (size(e) * w) * i) by (nonlinear_arith);
        assert((size(e) * w) * i <= (5 * q + w) * i) by (nonlinear_arith)
            requires size(e) * w <= 5 * q + w, i >= 0;
        assert((5 * q + w) * i == 5 * qi + w * i) by (nonlinear_arith)
            requires qi == q * i;
        assert(w * i <= pw) by (nonlinear_arith)
            requires i <= p, pw == p * w, w >= 0;
    }
    assert(fi == 5 * qi + ei) by (nonlinear_arith)
        requires fi == f * i, qi == q * i, ei == e * i, e == f - 5 * q;
    assert(fi <= 6 * qi + p) by {
        assert(fi <= (6 * q + 1) * i) by (nonlinear_arith)
            requires fi == f * i, f <= 6 * q + 1, i >= 0;
        assert((6 * q + 1) * i == 6 * qi + i) by (nonlinear_arith)
            requires qi == q * i;
    }
    assert(fi >= 0 && qi >= 0) by (nonlinear_arith)
        requires fi == f * i, qi == q * i, f >= 0, q >= 0, i >= 0;
    // The error of the part of the price.
    let fh = f * h;
    let fiu = fi * u;
    let pu = p * u;
    let iu = i * u;
    lemma_size_product(f, h);
    assert(size(fh) * w <= fiu + 5_001 * (pu * w)) by {
        assert((f * size(h)) * w == f * (size(h) * w)) by (nonlinear_arith);
        assert(f * (size(h) * w) <= f * (iu + pw)) by (nonlinear_arith)
            requires size(h) * w <= iu + pw, f >= 0;
        assert(f * (iu + pw) == fiu + f * pw) by (nonlinear_arith)
            requires iu == i * u, fiu == fi * u, fi == f * i;
        assert(f * pw <= (5_001 * u) * pw) by (nonlinear_arith)
            requires f <= 5_001 * u, pw >= 0;
        assert((5_001 * u) * pw == 5_001 * (pu * w)) by (nonlinear_arith)
            requires pw == p * w, pu == p * u;
    }
    // The error of the product.
    let fa = f * a;
    let kp = k * p;
    let fap = fa * p;
    lemma_size_product(k, p);
    assert(fa >= 0) by (nonlinear_arith)
        requires fa == f * a, f >= 0, a >= 0;
    assert(size(kp) * w <= fap + pu * w) by {
        assert((size(k) * p) * w == (size(k) * w) * p) by (nonlinear_arith);
        assert((size(k) * w) * p <= (fa + u * w) * p) by (nonlinear_arith)
            requires size(k) * w <= fa + u * w, p >= 0;
        assert((fa + u * w) * p == fap + pu * w) by (nonlinear_arith)
            requires fap == fa * p, pu == p * u;
    }
    assert(fap == fh + fiu) by (nonlinear_arith)
        requires fap == fa * p, fa == f * a, fh == f * h, h == a * p - i * u, fiu == fi * u, fi == f * i;
    // Together.
    let g = t * p - fi;
    assert(g * u == kp + fh) by (nonlinear_arith)
        requires
            g == t * p - fi, kp == k * p, k == t * u - fa, fap == fa * p, fap == fh + fiu,
            fiu == fi * u,
    ;
    lemma_size_product(g, u);
    let puw = pu * w;
    assert(puw == 0x20_0000_0000_0000 * pu);
    assert(size(fh) * w == 0x20_0000_0000_0000 * size(fh));
    assert(size(kp) * w == 0x20_0000_0000_0000 * size(kp));
    assert(fiu >= 0 && pu >= 0) by (nonlinear_arith)
        requires fiu == fi * u, pu == p * u, fi >= 0, p >= 0, u >= 0;
    assert(fap <= 2 * fiu + 5_001 * pu);
    let gu = size(g) * u;
    assert(gu <= size(kp) + size(fh));
    assert(gu * w == 0x20_0000_0000_0000 * gu);
    assert(gu * w <= 3 * fiu + 5_004 * puw);
    assert((size(g) * w) * u == gu * w) by (nonlinear_arith)
        requires gu == size(g) * u;
    assert(3 * fiu + 5_004 * puw == (3 * fi + 5_004 * pw) * u) by (nonlinear_arith)
        requires fiu == fi * u, puw == pu * w, pu == p * u, pw == p * w;
    lemma_cancelled(size(g) * w, 3 * fi + 5_004 * pw, u);
    let d = t * p - 5 * qi;
    assert(d == g + ei);
    assert(size(d) * w == 0x20_0000_0000_0000 * size(d));
    assert(size(g) * w == 0x20_0000_0000_0000 * size(g));
    assert(size(ei) * w == 0x20_0000_0000_0000 * size(ei));
    assert(pw == 0x20_0000_0000_0000 * p);
}

} // verus!
