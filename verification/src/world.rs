//! The town: restaurants, customers, and the market of the day.
use crate::binary64::{ratio, real_of, spec_ratio, spec_real, Real};
use std::collections::BTreeMap;
use vstd::prelude::*;

verus! {

/// The identity of a restaurant or a customer.
#[derive(Clone, Copy, Debug, PartialEq, Eq, PartialOrd, Ord, Hash, Structural)]
pub struct AgentId(pub u64);

/// A dish on a menu.
#[derive(Clone, Debug)]
pub struct Dish {
    pub name: String,
    /// What it costs to make.
    pub cost: Real,
    pub price: Real,
    /// The salary of the chef who makes it.
    pub chef_salary: Real,
}

/// What a dish is.
pub struct DishView {
    pub name: Seq<char>,
    pub cost: Real,
    pub price: Real,
    pub chef_salary: Real,
}

impl View for Dish {
    type V = DishView;

    open spec fn view(&self) -> DishView {
        DishView {
            name: self.name@,
            cost: self.cost,
            price: self.price,
            chef_salary: self.chef_salary,
        }
    }
}

/// Half of the cost as a part of the price, and half of the salary as a part of 5000. A
/// price of no more than `10^-9` counts as no part.
pub open spec fn dish_score(d: DishView) -> Real {
    let cost_ratio = if spec_ratio(1, 1_000_000_000).less(d.price) {
        d.cost.over(d.price)
    } else {
        Real { bits: 0 }
    };
    spec_ratio(1, 2).times(cost_ratio).plus(
        spec_ratio(1, 2).times(d.chef_salary.over(spec_real(5_000))),
    )
}

impl Dish {
    /// The quality of the dish.
    pub fn score(&self) -> (r: Real)
        ensures
            r == dish_score(self@),
    {
        let cost_ratio = if ratio(1, 1_000_000_000).less(self.price) {
            self.cost.over(self.price)
        } else {
            Real { bits: 0 }
        };
        ratio(1, 2).times(cost_ratio).plus(
            ratio(1, 2).times(self.chef_salary.over(real_of(5_000))),
        )
    }

    /// Another copy.
    pub fn copied(&self) -> (r: Dish)
        ensures
            r@ == self@,
    {
        Dish {
            name: self.name.clone(),
            cost: self.cost,
            price: self.price,
            chef_salary: self.chef_salary,
        }
    }
}

/// What a customer wrote about a visit, for others to see.
#[derive(Clone, Debug)]
pub struct Comment {
    pub customer: u64,
    pub text: String,
    /// From zero to five.
    pub rating: Real,
    pub day: u64,
}

/// What a comment is.
pub struct CommentView {
    pub customer: u64,
    pub text: Seq<char>,
    pub rating: Real,
    pub day: u64,
}

impl View for Comment {
    type V = CommentView;

    open spec fn view(&self) -> CommentView {
        CommentView {
            customer: self.customer,
            text: self.text@,
            rating: self.rating,
            day: self.day,
        }
    }
}

/// A restaurant.
#[derive(Clone, Debug)]
pub struct Firm {
    pub funds: Real,
    pub menu: Vec<Dish>,
    pub chef_salary: Real,
    pub advertisement: String,
    /// A moving average of what customers rated.
    pub reputation: Real,
    pub cumulative_customers: u64,
    pub cumulative_revenue: Real,
    /// The latest comments, the newest last.
    pub comments: Vec<Comment>,
    /// What the restaurant remembers of its days, the newest last.
    pub memory: Vec<String>,
    /// Whether it is still in business.
    pub alive: bool,
}

/// What a restaurant is.
#[verifier::ext_equal]
pub struct FirmView {
    pub funds: Real,
    pub menu: Seq<DishView>,
    pub chef_salary: Real,
    pub advertisement: Seq<char>,
    pub reputation: Real,
    pub cumulative_customers: u64,
    pub cumulative_revenue: Real,
    pub comments: Seq<CommentView>,
    pub memory: Seq<Seq<char>>,
    pub alive: bool,
}

pub open spec fn menu_view(menu: Seq<Dish>) -> Seq<DishView> {
    menu.map_values(|d: Dish| d@)
}

pub open spec fn comments_view(comments: Seq<Comment>) -> Seq<CommentView> {
    comments.map_values(|c: Comment| c@)
}

pub open spec fn texts_view(texts: Seq<String>) -> Seq<Seq<char>> {
    texts.map_values(|s: String| s@)
}

impl View for Firm {
    type V = FirmView;

    open spec fn view(&self) -> FirmView {
        FirmView {
            funds: self.funds,
            menu: menu_view(self.menu@),
            chef_salary: self.chef_salary,
            advertisement: self.advertisement@,
            reputation: self.reputation,
            cumulative_customers: self.cumulative_customers,
            cumulative_revenue: self.cumulative_revenue,
            comments: comments_view(self.comments@),
            memory: texts_view(self.memory@),
            alive: self.alive,
        }
    }
}

/// A sum, added up from the first to the last.
pub open spec fn real_sum(s: Seq<Real>) -> Real
    decreases s.len(),
{
    if s.len() == 0 {
        Real { bits: 0 }
    } else {
        real_sum(s.drop_last()).plus(s.last())
    }
}

/// The mean; zero of nothing.
pub open spec fn real_mean(s: Seq<Real>) -> Real {
    if s.len() == 0 {
        Real { bits: 0 }
    } else {
        real_sum(s).over(spec_real(s.len()))
    }
}

pub open spec fn menu_prices(menu: Seq<DishView>) -> Seq<Real> {
    menu.map_values(|d: DishView| d.price)
}

pub open spec fn menu_costs(menu: Seq<DishView>) -> Seq<Real> {
    menu.map_values(|d: DishView| d.cost)
}

pub open spec fn menu_scores(menu: Seq<DishView>) -> Seq<Real> {
    menu.map_values(|d: DishView| dish_score(d))
}

/// The mean of numbers; zero of none.
pub fn mean_of(values: &[Real]) -> (r: Real)
    ensures
        r == real_mean(values@),
{
    if values.len() == 0 {
        return Real { bits: 0 };
    }
    sum_of(values).over(real_of(values.len() as u64))
}

/// The sum of numbers, added up from the first to the last.
pub fn sum_of(values: &[Real]) -> (r: Real)
    ensures
        r == real_sum(values@),
{
    let mut r = Real { bits: 0 };
    let mut i: usize = 0;
    while i < values.len()
        invariant
            i <= values@.len(),
            r == real_sum(values@.take(i as int)),
        decreases values@.len() - i,
    {
        proof {
            assert(values@.take(i + 1).drop_last() =~= values@.take(i as int));
        }
        r = r.plus(values[i]);
        i = i + 1;
    }
    proof {
        assert(values@.take(values@.len() as int) =~= values@);
    }
    r
}

impl Firm {
    /// A restaurant that opens.
    pub fn new(funds: Real, menu: Vec<Dish>, chef_salary: Real) -> (r: Firm)
        ensures
            r@ == (FirmView {
                funds,
                menu: menu_view(menu@),
                chef_salary,
                advertisement: seq![],
                reputation: Real { bits: 0 },
                cumulative_customers: 0,
                cumulative_revenue: Real { bits: 0 },
                comments: seq![],
                memory: seq![],
                alive: true,
            }),
    {
        let r = Firm {
            funds,
            menu,
            chef_salary,
            advertisement: String::new(),
            reputation: Real { bits: 0 },
            cumulative_customers: 0,
            cumulative_revenue: Real { bits: 0 },
            comments: Vec::new(),
            memory: Vec::new(),
            alive: true,
        };
        proof {
            assert(r@.comments =~= seq![]);
            assert(r@.memory =~= seq![]);
        }
        r
    }

    /// The mean quality of the dishes; zero of an empty menu.
    pub fn avg_dish_score(&self) -> (r: Real)
        ensures
            r == real_mean(menu_scores(self@.menu)),
    {
        let mut values: Vec<Real> = Vec::new();
        let mut i: usize = 0;
        while i < self.menu.len()
            invariant
                i <= self.menu@.len(),
                values@ == menu_scores(self@.menu).take(i as int),
            decreases self.menu@.len() - i,
        {
            values.push(self.menu[i].score());
            i = i + 1;
            proof {
                assert(menu_scores(self@.menu).take(i as int) =~= menu_scores(self@.menu).take(
                    i - 1,
                ).push(menu_scores(self@.menu)[i - 1]));
            }
        }
        proof {
            assert(values@ =~= menu_scores(self@.menu));
        }
        mean_of(values.as_slice())
    }

    /// The mean price of the dishes; zero of an empty menu.
    pub fn avg_price(&self) -> (r: Real)
        ensures
            r == real_mean(menu_prices(self@.menu)),
    {
        let mut values: Vec<Real> = Vec::new();
        let mut i: usize = 0;
        while i < self.menu.len()
            invariant
                i <= self.menu@.len(),
                values@ == menu_prices(self@.menu).take(i as int),
            decreases self.menu@.len() - i,
        {
            values.push(self.menu[i].price);
            i = i + 1;
            proof {
                assert(menu_prices(self@.menu).take(i as int) =~= menu_prices(self@.menu).take(
                    i - 1,
                ).push(menu_prices(self@.menu)[i - 1]));
            }
        }
        proof {
            assert(values@ =~= menu_prices(self@.menu));
        }
        mean_of(values.as_slice())
    }

    /// The mean cost of the dishes; zero of an empty menu.
    pub fn avg_cost(&self) -> (r: Real)
        ensures
            r == real_mean(menu_costs(self@.menu)),
    {
        let mut values: Vec<Real> = Vec::new();
        let mut i: usize = 0;
        while i < self.menu.len()
            invariant
                i <= self.menu@.len(),
                values@ == menu_costs(self@.menu).take(i as int),
            decreases self.menu@.len() - i,
        {
            values.push(self.menu[i].cost);
            i = i + 1;
            proof {
                assert(menu_costs(self@.menu).take(i as int) =~= menu_costs(self@.menu).take(
                    i - 1,
                ).push(menu_costs(self@.menu)[i - 1]));
            }
        }
        proof {
            assert(values@ =~= menu_costs(self@.menu));
        }
        mean_of(values.as_slice())
    }
}

/// The number of a group of customers.
pub type GroupId = u64;

/// A visit that a customer remembers.
#[derive(Clone, Copy, Debug, PartialEq, Eq, Structural)]
pub struct Visit {
    pub day: u64,
    pub firm: u64,
    pub spend: Real,
    /// From zero to five.
    pub satisfaction: Real,
}

/// A customer.
#[derive(Clone, Debug)]
pub struct Customer {
    /// What the customer can spend in a day.
    pub income: Real,
    pub preference: String,
    pub health: String,
    /// The group that the customer belongs to, if any.
    pub group: Option<GroupId>,
    /// The visits so far, the newest last.
    pub visit_memory: Vec<Visit>,
}

/// What a customer is.
#[verifier::ext_equal]
pub struct CustomerView {
    pub income: Real,
    pub preference: Seq<char>,
    pub health: Seq<char>,
    pub group: Option<GroupId>,
    pub visit_memory: Seq<Visit>,
}

impl View for Customer {
    type V = CustomerView;

    open spec fn view(&self) -> CustomerView {
        CustomerView {
            income: self.income,
            preference: self.preference@,
            health: self.health@,
            group: self.group,
            visit_memory: self.visit_memory@,
        }
    }
}

impl Customer {
    /// A customer who belongs to no group and has not visited any restaurant.
    pub fn new(income: Real, preference: String, health: String) -> (r: Customer)
        ensures
            r@ == (CustomerView {
                income,
                preference: preference@,
                health: health@,
                group: None,
                visit_memory: seq![],
            }),
    {
        let r = Customer { income, preference, health, group: None, visit_memory: Vec::new() };
        proof {
            assert(r@.visit_memory =~= seq![]);
        }
        r
    }
}

/// What an agent is.
#[derive(Clone, Copy, Debug, PartialEq, Eq, Structural)]
pub enum AgentKind {
    Firm,
    Customer,
}

/// The first identity of a customer; what lies below is a restaurant.
pub const CUSTOMER_ID_BASE: u64 = 1_000_000;

/// What the day brought each restaurant so far, by identity.
#[derive(Clone, Debug)]
pub struct Market {
    pub day_customers: BTreeMap<u64, u64>,
    pub day_revenue: BTreeMap<u64, Real>,
}

/// What the day brought.
#[verifier::ext_equal]
pub struct MarketView {
    pub day_customers: Map<u64, u64>,
    pub day_revenue: Map<u64, Real>,
}

impl View for Market {
    type V = MarketView;

    open spec fn view(&self) -> MarketView {
        MarketView { day_customers: self.day_customers@, day_revenue: self.day_revenue@ }
    }
}

impl MarketView {
    /// Nothing yet.
    pub open spec fn nothing() -> MarketView {
        MarketView { day_customers: Map::empty(), day_revenue: Map::empty() }
    }

    /// The customers of a restaurant.
    pub open spec fn customers_of(self, firm: u64) -> u64 {
        if self.day_customers.contains_key(firm) {
            self.day_customers[firm]
        } else {
            0
        }
    }

    /// The revenue of a restaurant.
    pub open spec fn revenue_of(self, firm: u64) -> Real {
        if self.day_revenue.contains_key(firm) {
            self.day_revenue[firm]
        } else {
            Real { bits: 0 }
        }
    }
}

impl Default for Market {
    fn default() -> (r: Self)
        ensures
            r@ == MarketView::nothing(),
    {
        Market { day_customers: BTreeMap::new(), day_revenue: BTreeMap::new() }
    }
}

impl Market {
    /// Forgets the day.
    pub fn reset(&mut self)
        ensures
            final(self)@ == MarketView::nothing(),
    {
        self.day_customers.clear();
        self.day_revenue.clear();
    }

    /// The customers of a restaurant.
    pub fn customers_of(&self, firm: u64) -> (n: u64)
        ensures
            n == self@.customers_of(firm),
    {
        broadcast use vstd::std_specs::btree::group_btree_axioms;

        match self.day_customers.get(&firm) {
            Some(n) => *n,
            None => 0,
        }
    }

    /// The revenue of a restaurant.
    pub fn revenue_of(&self, firm: u64) -> (r: Real)
        ensures
            r == self@.revenue_of(firm),
    {
        broadcast use vstd::std_specs::btree::group_btree_axioms;

        match self.day_revenue.get(&firm) {
            Some(r) => *r,
            None => Real { bits: 0 },
        }
    }
}

/// The town.
#[derive(Clone, Debug)]
pub struct MarketWorld {
    /// How many days have begun.
    pub t: u64,
    /// The restaurants, by increasing identity.
    pub firms: Vec<(AgentId, Firm)>,
    /// The customers, by increasing identity.
    pub customers: Vec<(AgentId, Customer)>,
    /// What the day brought so far.
    pub market: Market,
    /// The day, counted from zero.
    pub day: u64,
}

/// What the town is.
#[verifier::ext_equal]
pub struct WorldView {
    pub t: u64,
    pub firms: Seq<(AgentId, FirmView)>,
    pub customers: Seq<(AgentId, CustomerView)>,
    pub market: MarketView,
    pub day: u64,
}

pub open spec fn firms_view(firms: Seq<(AgentId, Firm)>) -> Seq<(AgentId, FirmView)> {
    firms.map_values(|e: (AgentId, Firm)| (e.0, e.1@))
}

pub open spec fn customers_view(customers: Seq<(AgentId, Customer)>) -> Seq<
    (AgentId, CustomerView),
> {
    customers.map_values(|e: (AgentId, Customer)| (e.0, e.1@))
}

impl View for MarketWorld {
    type V = WorldView;

    open spec fn view(&self) -> WorldView {
        WorldView {
            t: self.t,
            firms: firms_view(self.firms@),
            customers: customers_view(self.customers@),
            market: self.market@,
            day: self.day,
        }
    }
}

/// Identities go up.
pub open spec fn increasing(ids: Seq<AgentId>) -> bool {
    forall|i: int, j: int| 0 <= i < j < ids.len() ==> ids[i].0 < ids[j].0
}

/// The identities of agents.
pub open spec fn ids_of<T>(agents: Seq<(AgentId, T)>) -> Seq<AgentId> {
    agents.map_values(|e: (AgentId, T)| e.0)
}

/// The identities of the restaurants that are in business.
pub open spec fn alive_ids(firms: Seq<(AgentId, FirmView)>) -> Seq<AgentId>
    decreases firms.len(),
{
    if firms.len() == 0 {
        seq![]
    } else if firms.last().1.alive {
        alive_ids(firms.drop_last()).push(firms.last().0)
    } else {
        alive_ids(firms.drop_last())
    }
}

/// Where an identity stands.
pub open spec fn place_of(ids: Seq<AgentId>, id: AgentId) -> Option<int>
    decreases ids.len(),
{
    if ids.len() == 0 {
        None
    } else if ids.last() == id {
        Some(ids.len() - 1)
    } else {
        place_of(ids.drop_last(), id)
    }
}

/// What an identity is that of.
pub open spec fn spec_kind_of(id: AgentId) -> AgentKind {
    if id.0 >= CUSTOMER_ID_BASE {
        AgentKind::Customer
    } else {
        AgentKind::Firm
    }
}

impl WorldView {
    /// Restaurants and customers stand by increasing identity.
    pub open spec fn wf(self) -> bool {
        increasing(ids_of(self.firms)) && increasing(ids_of(self.customers))
    }

    /// The identities of restaurants and customers lie on their sides of the boundary.
    pub open spec fn partitioned(self) -> bool {
        &&& forall|i: int| 0 <= i < self.firms.len() ==> spec_kind_of(#[trigger] self.firms[i].0)
            == AgentKind::Firm
        &&& forall|i: int|
            0 <= i < self.customers.len() ==> spec_kind_of(#[trigger] self.customers[i].0)
                == AgentKind::Customer
    }

    /// The day, counted from zero, when `t` days have begun.
    pub open spec fn current_day(self) -> u64 {
        if self.t == 0 {
            0
        } else {
            (self.t - 1) as u64
        }
    }
}

/// An identity stands where `place_of` says, and nowhere else.
pub proof fn lemma_place_of(ids: Seq<AgentId>, id: AgentId)
    requires
        increasing(ids),
    ensures
        match place_of(ids, id) {
            Some(i) => 0 <= i < ids.len() && ids[i] == id,
            None => !ids.contains(id),
        },
        forall|i: int| 0 <= i < ids.len() && ids[i] == id ==> place_of(ids, id) == Some(i),
    decreases ids.len(),
{
    if ids.len() > 0 {
        let rest = ids.drop_last();
        assert forall|i: int, j: int| 0 <= i < j < rest.len() implies rest[i].0 < rest[j].0 by {
            assert(ids[i].0 < ids[j].0);
        }
        lemma_place_of(rest, id);
        assert forall|i: int| 0 <= i < ids.len() && ids[i] == id implies place_of(ids, id) == Some(
            i,
        ) by {
            if i < ids.len() - 1 {
                assert(rest[i] == ids[i]);
                assert(ids[i].0 < ids[ids.len() - 1].0);
            }
        }
    }
}

/// Where an agent stands.
pub fn find_agent<T>(agents: &Vec<(AgentId, T)>, id: AgentId) -> (r: Option<usize>)
    ensures
        match r {
            Some(i) => place_of(ids_of(agents@), id) == Some(i as int) && i < agents@.len()
                && agents@[i as int].0 == id,
            None => place_of(ids_of(agents@), id) is None,
        },
{
    let ghost ids = ids_of(agents@);
    let mut i: usize = agents.len();
    proof {
        assert(ids.take(i as int) =~= ids);
    }
    while i > 0
        invariant
            i <= agents@.len(),
            ids == ids_of(agents@),
            place_of(ids, id) == place_of(ids.take(i as int), id),
        decreases i,
    {
        proof {
            assert(ids.take(i as int).drop_last() =~= ids.take(i - 1));
            assert(ids.take(i as int).last() == agents@[i - 1].0);
        }
        i = i - 1;
        if agents[i].0 == id {
            return Some(i);
        }
    }
    None
}

impl MarketWorld {
    /// How many restaurants there are.
    pub fn n_firms(&self) -> (n: usize)
        ensures
            n == self@.firms.len(),
    {
        self.firms.len()
    }

    /// How many customers there are.
    pub fn n_customers(&self) -> (n: usize)
        ensures
            n == self@.customers.len(),
    {
        self.customers.len()
    }

    /// The day, counted from zero.
    pub fn current_day(&self) -> (d: u64)
        ensures
            d == self@.current_day(),
    {
        if self.t == 0 {
            0
        } else {
            self.t - 1
        }
    }

    /// What an identity is that of.
    pub fn kind_of(id: AgentId) -> (k: AgentKind)
        ensures
            k == spec_kind_of(id),
    {
        if id.0 >= CUSTOMER_ID_BASE {
            AgentKind::Customer
        } else {
            AgentKind::Firm
        }
    }

    /// The identities of the restaurants that are in business, in order.
    pub fn alive_firm_ids(&self) -> (ids: Vec<AgentId>)
        ensures
            ids@ == alive_ids(self@.firms),
    {
        let mut ids: Vec<AgentId> = Vec::new();
        let mut i: usize = 0;
        while i < self.firms.len()
            invariant
                i <= self.firms@.len(),
                ids@ == alive_ids(self@.firms.take(i as int)),
            decreases self.firms@.len() - i,
        {
            proof {
                assert(self@.firms.take(i + 1).drop_last() =~= self@.firms.take(i as int));
            }
            if self.firms[i].1.alive {
                ids.push(self.firms[i].0);
            }
            i = i + 1;
        }
        proof {
            assert(self@.firms.take(self@.firms.len() as int) =~= self@.firms);
        }
        ids
    }

    /// How many restaurants are in business.
    pub fn n_alive_firms(&self) -> (n: usize)
        ensures
            n == alive_ids(self@.firms).len(),
    {
        self.alive_firm_ids().len()
    }

    /// The identities of all agents: the restaurants, then the customers.
    pub fn agent_ids(&self) -> (ids: Vec<AgentId>)
        ensures
            ids@ == ids_of(self@.firms) + ids_of(self@.customers),
    {
        let mut ids: Vec<AgentId> = Vec::new();
        let mut i: usize = 0;
        while i < self.firms.len()
            invariant
                i <= self.firms@.len(),
                ids@ =~= ids_of(self@.firms).take(i as int),
            decreases self.firms@.len() - i,
        {
            ids.push(self.firms[i].0);
            i = i + 1;
        }
        let mut j: usize = 0;
        while j < self.customers.len()
            invariant
                j <= self.customers@.len(),
                ids@ =~= ids_of(self@.firms) + ids_of(self@.customers).take(j as int),
            decreases self.customers@.len() - j,
        {
            ids.push(self.customers[j].0);
            j = j + 1;
        }
        ids
    }
}

/// The identities of all agents go up.
pub proof fn agent_ids_increase(w: WorldView)
    requires
        w.wf(),
        w.partitioned(),
    ensures
        increasing(ids_of(w.firms) + ids_of(w.customers)),
{
    let a = ids_of(w.firms);
    let b = ids_of(w.customers);
    assert forall|i: int, j: int| 0 <= i < j < (a + b).len() implies (a + b)[i].0 < (a + b)[j].0 by {
        if i < a.len() {
            assert(a[i] == w.firms[i].0);
        }
        if j >= a.len() {
            assert(b[j - a.len()] == w.customers[j - a.len()].0);
        }
        if i >= a.len() {
            assert(b[i - a.len()].0 < b[j - a.len()].0);
        } else if j < a.len() {
            assert(a[i].0 < a[j].0);
        }
    }
}

} // verus!
