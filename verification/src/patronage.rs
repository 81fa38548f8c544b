//! Visits: what customers eat, spend and say.
use crate::binary64::{ratio, real_of, spec_ratio, spec_real, Real};
use crate::bounds::{
    lemma_exact_integer, lemma_one, lemma_over_one_or_more, lemma_pattern, lemma_product_pattern,
    plain,
};
use crate::choice::{chosen, Choice};
use crate::rounding::{nearest, units};
use crate::world::{
    comments_view, dish_score, find_agent, ids_of, lemma_place_of, menu_view, place_of, AgentId,
    Comment, CommentView, CustomerView, Dish, DishView, FirmView, MarketView, MarketWorld, Visit,
    WorldView,
};
use vstd::arithmetic::power2::{lemma_pow2_pos, pow2};
use vstd::prelude::*;
use vstd::string::*;

verus! {

/// The interaction of a day: customers visit the restaurants that they chose.
pub struct PatronageMechanism;

/// How many comments a restaurant keeps.
pub const COMMENTS_KEPT: usize = 50;

/// The last `n` of a list.
pub open spec fn last_of<T>(s: Seq<T>, n: int) -> Seq<T> {
    if s.len() > n {
        s.skip(s.len() - n)
    } else {
        s
    }
}

/// Drops the oldest so that `n` are left.
pub fn keep_last<T>(v: &mut Vec<T>, n: usize)
    ensures
        final(v)@ == last_of(old(v)@, n as int),
{
    let len: usize = v.len();
    if len > n {
        let kept = v.split_off(len - n);
        *v = kept;
        proof {
            assert(v@ =~= last_of(old(v)@, n as int));
        }
    }
}

/// What a customer says of a visit.
pub open spec fn spec_comment_text(satisfaction: Real) -> Seq<char> {
    if spec_real(4).at_most(satisfaction) {
        "Excellent food and great value — highly recommend!"@
    } else if spec_ratio(25, 10).at_most(satisfaction) {
        "Decent meal, fair for the price."@
    } else {
        "Overpriced and underwhelming."@
    }
}

/// What a customer says of a visit.
pub fn comment_text(satisfaction: Real) -> (r: String)
    ensures
        r@ == spec_comment_text(satisfaction),
{
    if real_of(4).at_most(satisfaction) {
        "Excellent food and great value — highly recommend!".to_owned()
    } else if ratio(25, 10).at_most(satisfaction) {
        "Decent meal, fair for the price.".to_owned()
    } else {
        "Overpriced and underwhelming.".to_owned()
    }
}

/// The cheapest dish; the first of these.
pub open spec fn cheapest(menu: Seq<DishView>) -> int
    decreases menu.len(),
{
    if menu.len() <= 1 {
        0
    } else {
        let b = cheapest(menu.drop_last());
        if menu.last().price.less(menu[b].price) {
            menu.len() - 1
        } else {
            b
        }
    }
}

/// Where the cheapest dish stands.
fn cheapest_dish(menu: &Vec<Dish>) -> (r: usize)
    requires
        menu@.len() > 0,
    ensures
        r == cheapest(menu_view(menu@)),
        r < menu@.len(),
{
    let ghost all = menu_view(menu@);
    let mut best: usize = 0;
    let mut i: usize = 1;
    proof {
        assert(all.take(1).len() == 1);
    }
    while i < menu.len()
        invariant
            1 <= i <= menu@.len(),
            all == menu_view(menu@),
            best < i,
            best == cheapest(all.take(i as int)),
        decreases menu@.len() - i,
    {
        proof {
            assert(all.take(i + 1).drop_last() =~= all.take(i as int));
            assert(all.take(i + 1).last() == all[i as int]);
            assert(all.take(i + 1)[best as int] == all[best as int]);
        }
        if menu[i].price.less(menu[best].price) {
            best = i;
        }
        i = i + 1;
    }
    proof {
        assert(all.take(all.len() as int) =~= all);
    }
    best
}

/// How satisfied a customer is: five times the quality of the dish, less where it costs more
/// than they can spend, between zero and five.
pub open spec fn satisfaction_of(dish: DishView, income: Real) -> Real {
    let affordability = if dish.price.at_most(income) {
        spec_real(1)
    } else {
        income.over(dish.price.larger(spec_real(1)))
    };
    spec_real(5).times(dish_score(dish)).times(affordability).clamped(
        Real { bits: 0 },
        spec_real(5),
    )
}

/// How satisfied a customer is who eats a dish.
pub fn satisfaction(dish: &Dish, income: Real) -> (r: Real)
    ensures
        r == satisfaction_of(dish@, income),
{
    let affordability = if dish.price.at_most(income) {
        real_of(1)
    } else {
        income.over(dish.price.larger(real_of(1)))
    };
    real_of(5).times(dish.score()).times(affordability).clamped(Real { bits: 0 }, real_of(5))
}

/// What a customer can spend; nothing if there is no such customer.
pub open spec fn income_of(w: WorldView, customer: u64) -> Real {
    match place_of(ids_of(w.customers), AgentId(customer)) {
        Some(i) => w.customers[i].1.income,
        None => Real { bits: 0 },
    }
}

/// A restaurant that serves: it is in business and has a dish.
pub open spec fn serves(f: FirmView) -> bool {
    f.alive && f.menu.len() > 0
}

/// The market after a visit.
pub open spec fn market_after(m: MarketView, firm: u64, spend: Real) -> MarketView {
    MarketView {
        day_customers: m.day_customers.insert(firm, (m.customers_of(firm) + 1) as u64),
        day_revenue: m.day_revenue.insert(firm, m.revenue_of(firm).plus(spend)),
    }
}

/// A customer after a visit.
pub open spec fn customer_after(c: CustomerView, visit: Visit) -> CustomerView {
    CustomerView { visit_memory: c.visit_memory.push(visit), ..c }
}

/// A restaurant after a visit.
pub open spec fn firm_after(f: FirmView, comment: CommentView) -> FirmView {
    FirmView { comments: last_of(f.comments.push(comment), COMMENTS_KEPT as int), ..f }
}

/// The town after one customer's visit. Nothing happens where the restaurant does not serve.
pub open spec fn visited(w: WorldView, choice: Choice) -> WorldView {
    let (customer, firm) = choice;
    match place_of(ids_of(w.firms), AgentId(firm)) {
        Some(i) => if serves(w.firms[i].1) {
            let f = w.firms[i].1;
            let dish = f.menu[cheapest(f.menu)];
            let s = satisfaction_of(dish, income_of(w, customer));
            WorldView {
                firms: w.firms.update(
                    i,
                    (
                        AgentId(firm),
                        firm_after(
                            f,
                            CommentView {
                                customer,
                                text: spec_comment_text(s),
                                rating: s,
                                day: w.day,
                            },
                        ),
                    ),
                ),
                customers: match place_of(ids_of(w.customers), AgentId(customer)) {
                    Some(j) => w.customers.update(
                        j,
                        (
                            AgentId(customer),
                            customer_after(
                                w.customers[j].1,
                                Visit { day: w.day, firm, spend: dish.price, satisfaction: s },
                            ),
                        ),
                    ),
                    None => w.customers,
                },
                market: market_after(w.market, firm, dish.price),
                ..w
            }
        } else {
            w
        },
        None => w,
    }
}

/// The town after visits.
pub open spec fn all_visited(w: WorldView, choices: Seq<Choice>) -> WorldView
    decreases choices.len(),
{
    if choices.len() == 0 {
        w
    } else {
        visited(all_visited(w, choices.drop_last()), choices.last())
    }
}

/// No restaurant's count can overflow by `n` more customers.
pub open spec fn room_for(m: MarketView, n: nat) -> bool {
    forall|firm: u64| #[trigger] m.customers_of(firm) + n <= u64::MAX
}

impl PatronageMechanism {
    /// One customer's visit.
    fn visit(&self, world: &mut MarketWorld, customer: u64, firm: u64)
        requires
            old(world)@.market.customers_of(firm) < u64::MAX,
        ensures
            final(world)@ == visited(old(world)@, (customer, firm)),
    {
        broadcast use vstd::std_specs::btree::group_btree_axioms;

        let ghost before = world@;
        proof {
            assert(ids_of(world@.firms) =~= ids_of(world.firms@));
            assert(ids_of(world@.customers) =~= ids_of(world.customers@));
        }
        let day: u64 = world.day;
        let place = match find_agent(&world.firms, AgentId(firm)) {
            Some(i) => i,
            None => {
                return;
            },
        };
        if !world.firms[place].1.alive || world.firms[place].1.menu.len() == 0 {
            return;
        }
        let who = find_agent(&world.customers, AgentId(customer));
        let income = match who {
            Some(j) => world.customers[j].1.income,
            None => Real { bits: 0 },
        };
        let menu = &world.firms[place].1.menu;
        let best: usize = cheapest_dish(menu);
        let spend = menu[best].price;
        let liked = satisfaction(&menu[best], income);
        let count: u64 = world.market.customers_of(firm);
        world.market.day_customers.insert(firm, count + 1);
        let revenue = world.market.revenue_of(firm);
        world.market.day_revenue.insert(firm, revenue.plus(spend));
        if let Some(j) = who {
            let visit = Visit { day, firm, spend, satisfaction: liked };
            world.customers[j].1.visit_memory.push(visit);
            proof {
                assert(world@.customers =~= visited(before, (customer, firm)).customers);
            }
        }
        let comment = Comment { customer, text: comment_text(liked), rating: liked, day };
        let ghost said = world.firms@[place as int].1.comments@;
        let comments = &mut world.firms[place].1.comments;
        comments.push(comment);
        keep_last(comments, COMMENTS_KEPT);
        proof {
            let now = world.firms@[place as int].1;
            assert(now@.comments =~= last_of(
                comments_view(said).push(comment@),
                COMMENTS_KEPT as int,
            ));
            assert(world@.firms =~= visited(before, (customer, firm)).firms);
        }
    }

    /// The visits of a day, in order.
    pub fn apply(&self, world: &mut MarketWorld, choices: &Vec<Choice>)
        requires
            room_for(old(world)@.market, choices@.len()),
        ensures
            final(world)@ == all_visited(old(world)@, choices@),
    {
        let ghost start = world@;
        let mut i: usize = 0;
        while i < choices.len()
            invariant
                i <= choices@.len(),
                world@ == all_visited(start, choices@.take(i as int)),
                room_for(world@.market, (choices@.len() - i) as nat),
            decreases choices@.len() - i,
        {
            let (customer, firm) = choices[i];
            let ghost before = world@;
            proof {
                assert(choices@.take(i + 1).drop_last() =~= choices@.take(i as int));
                assert(choices@.take(i + 1).last() == choices@[i as int]);
                assert(before.market.customers_of(firm) + (choices@.len() - i) <= u64::MAX);
            }
            self.visit(world, customer, firm);
            proof {
                assert forall|f: u64| #[trigger] world@.market.customers_of(f) + (choices@.len() - i
                    - 1) <= u64::MAX by {
                    assert(before.market.customers_of(f) + (choices@.len() - i) <= u64::MAX);
                }
            }
            i = i + 1;
        }
        proof {
            assert(choices@.take(choices@.len() as int) =~= choices@);
        }
    }
}

/// One visit leaves in place who is there, the menus, and everything else about restaurants
/// but their comments.
proof fn lemma_visited(w: WorldView, choice: Choice)
    requires
        w.wf(),
    ensures
        visited(w, choice).wf(),
        ids_of(visited(w, choice).firms) == ids_of(w.firms),
        ids_of(visited(w, choice).customers) == ids_of(w.customers),
        forall|i: int|
            0 <= i < w.firms.len() ==> #[trigger] visited(w, choice).firms[i].1 == (FirmView {
                comments: visited(w, choice).firms[i].1.comments,
                ..w.firms[i].1
            }),
        visited(w, choice).day == w.day,
        visited(w, choice).t == w.t,
{
    let v = visited(w, choice);
    lemma_place_of(ids_of(w.firms), AgentId(choice.1));
    lemma_place_of(ids_of(w.customers), AgentId(choice.0));
    assert(ids_of(v.firms) =~= ids_of(w.firms));
    assert(ids_of(v.customers) =~= ids_of(w.customers));
}

/// Visits leave in place who is there, the menus, and everything else about restaurants but
/// their comments.
pub proof fn visits_change_comments_only(w: WorldView, choices: Seq<Choice>)
    requires
        w.wf(),
    ensures
        all_visited(w, choices).wf(),
        ids_of(all_visited(w, choices).firms) == ids_of(w.firms),
        ids_of(all_visited(w, choices).customers) == ids_of(w.customers),
        forall|i: int|
            0 <= i < w.firms.len() ==> #[trigger] all_visited(w, choices).firms[i].1 == (FirmView {
                comments: all_visited(w, choices).firms[i].1.comments,
                ..w.firms[i].1
            }),
        all_visited(w, choices).day == w.day,
        all_visited(w, choices).t == w.t,
    decreases choices.len(),
{
    if choices.len() > 0 {
        let before = all_visited(w, choices.drop_last());
        visits_change_comments_only(w, choices.drop_last());
        lemma_visited(before, choices.last());
        assert(before.firms.len() == ids_of(before.firms).len());
        assert(w.firms.len() == ids_of(w.firms).len());
    }
}

/// What has been paid after `n` more customers paid one price.
pub open spec fn paid(before: Real, price: Real, n: nat) -> Real
    decreases n,
{
    if n == 0 {
        before
    } else {
        paid(before, price, (n - 1) as nat).plus(price)
    }
}

/// No restaurant is chosen more often than there are choices.
proof fn lemma_chosen(choices: Seq<Choice>, firm: u64)
    ensures
        chosen(choices, firm) <= choices.len(),
    decreases choices.len(),
{
    if choices.len() > 0 {
        lemma_chosen(choices.drop_last(), firm);
    }
}

/// A restaurant that serves has every customer counted who chose it, and each pays for its
/// cheapest dish.
pub proof fn visits_are_counted(w: WorldView, choices: Seq<Choice>, i: int)
    requires
        w.wf(),
        room_for(w.market, choices.len()),
        0 <= i < w.firms.len(),
        serves(w.firms[i].1),
    ensures
        ({
            let firm = w.firms[i].0.0;
            let menu = w.firms[i].1.menu;
            let after = all_visited(w, choices).market;
            &&& after.customers_of(firm) == w.market.customers_of(firm) + chosen(choices, firm)
            &&& after.revenue_of(firm) == paid(
                w.market.revenue_of(firm),
                menu[cheapest(menu)].price,
                chosen(choices, firm),
            )
        }),
    decreases choices.len(),
{
    if choices.len() > 0 {
        let rest = choices.drop_last();
        let before = all_visited(w, rest);
        let firm = w.firms[i].0.0;
        assert(room_for(w.market, rest.len())) by {
            assert forall|f: u64| #[trigger] w.market.customers_of(f) + rest.len() <= u64::MAX by {
                assert(w.market.customers_of(f) + choices.len() <= u64::MAX);
            }
        }
        visits_are_counted(w, rest, i);
        visits_change_comments_only(w, rest);
        let ids = ids_of(before.firms);
        assert(ids == ids_of(w.firms));
        assert(ids[i] == w.firms[i].0);
        assert(before.firms.len() == w.firms.len()) by {
            assert(ids_of(before.firms).len() == before.firms.len());
        }
        assert(before.firms[i].1.menu == w.firms[i].1.menu);
        lemma_place_of(ids, AgentId(choices.last().1));
        lemma_place_of(ids, AgentId(firm));
        lemma_chosen(choices, firm);
        assert(w.market.customers_of(firm) + choices.len() <= u64::MAX);
        if choices.last().1 == firm {
            assert(place_of(ids, AgentId(firm)) == Some(i));
        }
    }
}

/// A restaurant that does not serve, or is not there, has nobody counted.
pub proof fn closed_restaurants_are_not_visited(w: WorldView, choices: Seq<Choice>, firm: u64)
    requires
        w.wf(),
        place_of(ids_of(w.firms), AgentId(firm)) matches Some(i) ==> !serves(w.firms[i].1),
    ensures
        all_visited(w, choices).market.customers_of(firm) == w.market.customers_of(firm),
        all_visited(w, choices).market.revenue_of(firm) == w.market.revenue_of(firm),
    decreases choices.len(),
{
    if choices.len() > 0 {
        let rest = choices.drop_last();
        let before = all_visited(w, rest);
        closed_restaurants_are_not_visited(w, rest, firm);
        visits_change_comments_only(w, rest);
        lemma_place_of(ids_of(w.firms), AgentId(firm));
        if choices.last().1 == firm {
            if let Some(i) = place_of(ids_of(w.firms), AgentId(firm)) {
                assert(before.firms[i].1.alive == w.firms[i].1.alive);
                assert(before.firms[i].1.menu == w.firms[i].1.menu);
            }
        }
    }
}

/// Restaurants keep no more comments than they may.
pub proof fn comments_are_bounded(w: WorldView, choices: Seq<Choice>, i: int)
    requires
        w.wf(),
        0 <= i < w.firms.len(),
        w.firms[i].1.comments.len() <= COMMENTS_KEPT,
    ensures
        all_visited(w, choices).firms[i].1.comments.len() <= COMMENTS_KEPT,
    decreases choices.len(),
{
    if choices.len() > 0 {
        let rest = choices.drop_last();
        comments_are_bounded(w, rest, i);
        visits_change_comments_only(w, rest);
        lemma_place_of(ids_of(w.firms), AgentId(choices.last().1));
        assert(ids_of(w.firms).len() == w.firms.len());
        assert(ids_of(all_visited(w, rest).firms).len() == all_visited(w, rest).firms.len());
    }
}

/// How satisfied a customer is who visits a restaurant.
pub open spec fn satisfaction_with(w: WorldView, f: FirmView, customer: u64) -> Real {
    satisfaction_of(f.menu[cheapest(f.menu)], income_of(w, customer))
}

/// The comments that a restaurant is left by those who chose it, in order.
pub open spec fn new_comments(w: WorldView, i: int, choices: Seq<Choice>) -> Seq<CommentView>
    decreases choices.len(),
{
    if choices.len() == 0 {
        seq![]
    } else {
        let before = new_comments(w, i, choices.drop_last());
        let (customer, firm) = choices.last();
        if firm == w.firms[i].0.0 && serves(w.firms[i].1) {
            let s = satisfaction_with(w, w.firms[i].1, customer);
            before.push(
                CommentView { customer, text: spec_comment_text(s), rating: s, day: w.day },
            )
        } else {
            before
        }
    }
}

/// The visits that a customer makes, in order: one for each choice of a restaurant that serves.
pub open spec fn new_visits(w: WorldView, customer: u64, choices: Seq<Choice>) -> Seq<Visit>
    decreases choices.len(),
{
    if choices.len() == 0 {
        seq![]
    } else {
        let before = new_visits(w, customer, choices.drop_last());
        let (who, firm) = choices.last();
        match place_of(ids_of(w.firms), AgentId(firm)) {
            Some(i) => if who == customer && serves(w.firms[i].1) {
                let f = w.firms[i].1;
                before.push(
                    Visit {
                        day: w.day,
                        firm,
                        spend: f.menu[cheapest(f.menu)].price,
                        satisfaction: satisfaction_with(w, f, customer),
                    },
                )
            } else {
                before
            },
            None => before,
        }
    }
}

/// Visits change nothing about customers but what they remember of their visits.
proof fn lemma_customers_kept(w: WorldView, choices: Seq<Choice>)
    requires
        w.wf(),
    ensures
        all_visited(w, choices).customers.len() == w.customers.len(),
        forall|j: int|
            0 <= j < w.customers.len() ==> #[trigger] all_visited(w, choices).customers[j].1 == (
            CustomerView {
                visit_memory: all_visited(w, choices).customers[j].1.visit_memory,
                ..w.customers[j].1
            }),
        forall|c: u64| #[trigger] income_of(all_visited(w, choices), c) == income_of(w, c),
    decreases choices.len(),
{
    let after = all_visited(w, choices);
    visits_change_comments_only(w, choices);
    assert(ids_of(after.customers).len() == after.customers.len());
    assert(ids_of(w.customers).len() == w.customers.len());
    if choices.len() > 0 {
        let before = all_visited(w, choices.drop_last());
        lemma_customers_kept(w, choices.drop_last());
        visits_change_comments_only(w, choices.drop_last());
        lemma_place_of(ids_of(before.customers), AgentId(choices.last().0));
        assert forall|j: int| 0 <= j < w.customers.len() implies #[trigger] after.customers[j].1
            == (CustomerView {
            visit_memory: after.customers[j].1.visit_memory,
            ..w.customers[j].1
        }) by {
            assert(before.customers[j].1.income == w.customers[j].1.income);
        }
    }
    assert forall|c: u64| #[trigger] income_of(after, c) == income_of(w, c) by {
        lemma_place_of(ids_of(w.customers), AgentId(c));
        if let Some(j) = place_of(ids_of(w.customers), AgentId(c)) {
            assert(after.customers[j].1.income == w.customers[j].1.income);
        }
    }
}

/// After a day's visits a restaurant has the newest of the comments that it had and of those
/// that it was left, as many as it may keep, in order.
pub proof fn the_newest_comments_are_kept(w: WorldView, choices: Seq<Choice>, i: int)
    requires
        w.wf(),
        0 <= i < w.firms.len(),
        w.firms[i].1.comments.len() <= COMMENTS_KEPT,
    ensures
        all_visited(w, choices).firms[i].1.comments == last_of(
            w.firms[i].1.comments + new_comments(w, i, choices),
            COMMENTS_KEPT as int,
        ),
    decreases choices.len(),
{
    let old_ones = w.firms[i].1.comments;
    let after = all_visited(w, choices).firms[i].1.comments;
    let now = new_comments(w, i, choices);
    if choices.len() == 0 {
        assert(old_ones + now =~= old_ones);
    } else {
        let rest = choices.drop_last();
        let (customer, firm) = choices.last();
        let before = all_visited(w, rest);
        let then = new_comments(w, i, rest);
        the_newest_comments_are_kept(w, rest, i);
        visits_change_comments_only(w, rest);
        lemma_customers_kept(w, rest);
        let ids = ids_of(w.firms);
        lemma_place_of(ids, AgentId(firm));
        assert(ids_of(before.firms).len() == before.firms.len());
        assert(ids[i] == w.firms[i].0);
        assert(before.firms[i].1.menu == w.firms[i].1.menu);
        assert(before.firms[i].1.alive == w.firms[i].1.alive);
        assert(income_of(before, customer) == income_of(w, customer));
        if firm == w.firms[i].0.0 {
            assert(place_of(ids, AgentId(firm)) == Some(i));
            if serves(w.firms[i].1) {
                assert(now == then.push(now.last()));
                assert((old_ones + then).push(now.last()) =~= old_ones + now);
                assert(after =~= last_of(old_ones + now, COMMENTS_KEPT as int));
            }
        }
    }
}

/// After a day's visits a customer remembers what they remembered and each visit of the day,
/// in order. The rating that they leave is how satisfied they were.
pub proof fn visits_are_remembered(w: WorldView, choices: Seq<Choice>, j: int)
    requires
        w.wf(),
        0 <= j < w.customers.len(),
    ensures
        all_visited(w, choices).customers[j].1.visit_memory == w.customers[j].1.visit_memory
            + new_visits(w, w.customers[j].0.0, choices),
        all_visited(w, choices).customers[j].1.income == w.customers[j].1.income,
    decreases choices.len(),
{
    let old_ones = w.customers[j].1.visit_memory;
    let me = w.customers[j].0.0;
    let now = new_visits(w, me, choices);
    lemma_customers_kept(w, choices);
    assert(all_visited(w, choices).customers[j].1.income == w.customers[j].1.income);
    if choices.len() == 0 {
        assert(old_ones + now =~= old_ones);
    } else {
        let rest = choices.drop_last();
        let (who, firm) = choices.last();
        let before = all_visited(w, rest);
        let then = new_visits(w, me, rest);
        visits_are_remembered(w, rest, j);
        visits_change_comments_only(w, rest);
        lemma_customers_kept(w, rest);
        lemma_place_of(ids_of(w.firms), AgentId(firm));
        lemma_place_of(ids_of(w.customers), AgentId(who));
        assert(ids_of(w.customers)[j] == w.customers[j].0);
        assert(ids_of(before.firms).len() == before.firms.len());
        assert(ids_of(w.firms).len() == w.firms.len());
        assert(income_of(before, who) == income_of(w, who));
        if let Some(i) = place_of(ids_of(w.firms), AgentId(firm)) {
            assert(before.firms[i].1.menu == w.firms[i].1.menu);
            assert(before.firms[i].1.alive == w.firms[i].1.alive);
            if who == me && serves(w.firms[i].1) {
                assert(place_of(ids_of(w.customers), AgentId(who)) == Some(j));
                assert((old_ones + then).push(now.last()) =~= old_ones + now);
            }
        }
    }
}

/// What a customer rates a restaurant in a comment is how satisfied they were with the visit.
pub proof fn ratings_are_satisfactions(w: WorldView, i: int, choices: Seq<Choice>, k: int)
    requires
        w.wf(),
        0 <= i < w.firms.len(),
        0 <= k < new_comments(w, i, choices).len(),
    ensures
        ({
            let c = new_comments(w, i, choices)[k];
            exists|m: int|
                {
                    &&& 0 <= m < new_visits(w, c.customer, choices).len()
                    &&& (#[trigger] new_visits(w, c.customer, choices)[m]).satisfaction == c.rating
                    &&& new_visits(w, c.customer, choices)[m].firm == w.firms[i].0.0
                    &&& new_visits(w, c.customer, choices)[m].day == c.day
                }
        }),
    decreases choices.len(),
{
    let rest = choices.drop_last();
    let then = new_comments(w, i, rest);
    let c = new_comments(w, i, choices)[k];
    let visits = new_visits(w, c.customer, choices);
    let before = new_visits(w, c.customer, rest);
    lemma_place_of(ids_of(w.firms), w.firms[i].0);
    assert(ids_of(w.firms)[i] == w.firms[i].0);
    if k < then.len() {
        ratings_are_satisfactions(w, i, rest, k);
        let m = choose|m: int|
            {
                &&& 0 <= m < before.len()
                &&& (#[trigger] before[m]).satisfaction == c.rating
                &&& before[m].firm == w.firms[i].0.0
                &&& before[m].day == c.day
            };
        assert(visits[m] == before[m]);
    } else {
        assert(w.firms[i].0 == AgentId(choices.last().1));
        assert(visits[before.len() as int].satisfaction == c.rating);
    }
}

/// A choice of a restaurant that is not there, gave up or has no dish changes nothing.
pub proof fn idle_choices_change_nothing(w: WorldView, choice: Choice)
    requires
        place_of(ids_of(w.firms), AgentId(choice.1)) matches Some(i) ==> !serves(w.firms[i].1),
    ensures
        visited(w, choice) == w,
{
}

/// Satisfaction lies between zero and five, unless it is NaN. It is none where the customer's
/// means are a finite number that is not negative and five times the quality of the dish is one
/// as well.
pub proof fn satisfaction_is_bounded(dish: DishView, income: Real)
    ensures
        !satisfaction_of(dish, income).is_nan() ==> {
            &&& (Real { bits: 0 }).at_most(satisfaction_of(dish, income))
            &&& satisfaction_of(dish, income).at_most(spec_real(5))
        },
        ({
            let s = spec_real(5).times(dish_score(dish));
            plain(income) && income.is_finite() && plain(s) && s.is_finite()
        }) ==> !satisfaction_of(dish, income).is_nan(),
{
    let s = spec_real(5).times(dish_score(dish));
    lemma_exact_integer(5);
    lemma_pow2_pos(1074);
    assert(5 * pow2(1074) >= 0);
    if plain(income) && income.is_finite() && plain(s) && s.is_finite() {
        lemma_satisfaction_is_number(dish, income);
    }
}

/// Satisfaction is a number where means and quality are finite and not negative.
proof fn lemma_satisfaction_is_number(dish: DishView, income: Real)
    requires
        plain(income),
        income.is_finite(),
        plain(spec_real(5).times(dish_score(dish))),
        spec_real(5).times(dish_score(dish)).is_finite(),
    ensures
        !satisfaction_of(dish, income).is_nan(),
{
    let s = spec_real(5).times(dish_score(dish));
    let d = dish.price.larger(spec_real(1));
    lemma_exact_integer(5);
    lemma_one();
    lemma_pow2_pos(1074);
    assert(5 * pow2(1074) >= 0);
    let affordability = if dish.price.at_most(income) {
        spec_real(1)
    } else {
        income.over(d)
    };
    assert(plain(affordability) && affordability.is_finite()) by {
        if !dish.price.at_most(income) {
            assert(d.value() >= pow2(1074));
            lemma_over_one_or_more(income, d);
        }
    }
    lemma_product_pattern(s, affordability);
    lemma_pattern(nearest(units(s.magnitude()) * units(affordability.magnitude()), pow2(1074)));
}

} // verus!
