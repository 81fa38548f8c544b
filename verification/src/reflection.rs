//! The night: what restaurants remember, who gives up, and whether the run goes on.
use crate::binary64::Real;
use crate::chronicle::those_who_give_up_are_gone;
use crate::patronage::{keep_last, last_of};
use crate::text::{decimal, push_decimal};
use crate::world::{
    menu_prices, real_mean, AgentId, Firm, FirmView, MarketView, MarketWorld, WorldView,
};
use crate::writing::{fixed, push_fixed};
use vstd::prelude::*;
use vstd::string::*;

verus! {

/// The end of a day: restaurants remember it, and those out of funds give up. The run stops
/// when one gives up, or on the last day.
pub struct ReflectionMechanism {
    /// How many days the run lasts at most.
    pub days: u64,
}

/// How many days a restaurant remembers.
pub const DAYS_REMEMBERED: usize = 10;

/// What a restaurant remembers of a day.
pub open spec fn memory_entry(f: FirmView, revenue: Real, customers: u64, day: u64) -> Seq<char> {
    "day "@ + decimal(day as nat) + ": "@ + decimal(customers as nat) + " customers, revenue "@
        + fixed(revenue, 0) + ", funds "@ + fixed(f.funds, 0) + ", avg price "@ + fixed(
        real_mean(menu_prices(f.menu)),
        0,
    )
}

/// A restaurant after a day: if it is in business, it remembers the day, and gives up where
/// its funds are below zero.
pub open spec fn reflected(f: FirmView, revenue: Real, customers: u64, day: u64) -> FirmView {
    if f.alive {
        FirmView {
            memory: last_of(
                f.memory.push(memory_entry(f, revenue, customers, day)),
                DAYS_REMEMBERED as int,
            ),
            alive: !f.funds.less(Real { bits: 0 }),
            ..f
        }
    } else {
        f
    }
}

/// All restaurants after a day.
pub open spec fn all_reflected(
    firms: Seq<(AgentId, FirmView)>,
    market: MarketView,
    day: u64,
) -> Seq<(AgentId, FirmView)> {
    firms.map_values(
        |e: (AgentId, FirmView)|
            (e.0, reflected(e.1, market.revenue_of(e.0.0), market.customers_of(e.0.0), day)),
    )
}

/// Some restaurant in business is out of funds.
pub open spec fn someone_gives_up(firms: Seq<(AgentId, FirmView)>) -> bool {
    exists|i: int|
        0 <= i < firms.len() && (#[trigger] firms[i]).1.alive && firms[i].1.funds.less(
            Real { bits: 0 },
        )
}

/// What a restaurant remembers of a day.
fn remember(firm: &Firm, revenue: Real, customers: u64, day: u64) -> (r: String)
    ensures
        r@ == memory_entry(firm@, revenue, customers, day),
{
    let mut s = "day ".to_owned();
    push_decimal(&mut s, day);
    s.append(": ");
    push_decimal(&mut s, customers);
    s.append(" customers, revenue ");
    push_fixed(&mut s, revenue, 0);
    s.append(", funds ");
    push_fixed(&mut s, firm.funds, 0);
    s.append(", avg price ");
    push_fixed(&mut s, firm.avg_price(), 0);
    s
}

/// What the end of a day does to a restaurant; whether it gives up.
pub fn reflect(firm: &mut Firm, revenue: Real, customers: u64, day: u64) -> (gives_up: bool)
    ensures
        final(firm)@ == reflected(old(firm)@, revenue, customers, day),
        gives_up == (old(firm)@.alive && old(firm)@.funds.less(Real { bits: 0 })),
{
    if !firm.alive {
        return false;
    }
    let ghost before = firm@;
    let entry = remember(firm, revenue, customers, day);
    let ghost memory = firm.memory@;
    firm.memory.push(entry);
    keep_last(&mut firm.memory, DAYS_REMEMBERED);
    proof {
        assert(firm@.memory =~= last_of(before.memory.push(entry@), DAYS_REMEMBERED as int));
    }
    if firm.funds.less(Real { bits: 0 }) {
        firm.alive = false;
        return true;
    }
    false
}

impl ReflectionMechanism {
    pub fn new(days: u64) -> (r: Self)
        ensures
            r.days == days,
    {
        ReflectionMechanism { days }
    }

    /// Ends the day; whether the run stops.
    pub fn apply(&self, world: &mut MarketWorld) -> (stop: bool)
        requires
            old(world)@.day < u64::MAX,
        ensures
            final(world)@ == (WorldView {
                firms: all_reflected(old(world)@.firms, old(world)@.market, old(world)@.day),
                ..old(world)@
            }),
            stop == (someone_gives_up(old(world)@.firms) || old(world)@.day + 1 >= self.days),
            stop <==> old(world)@.day >= self.days - 1 || exists|i: int|
                0 <= i < old(world)@.firms.len() && (#[trigger] old(world)@.firms[i]).1.alive
                    && !final(world)@.firms[i].1.alive,
    {
        let ghost start = world@;
        let ghost goal = all_reflected(start.firms, start.market, start.day);
        let day: u64 = world.day;
        let n: usize = world.firms.len();
        let mut gone = false;
        let mut i: usize = 0;
        while i < n
            invariant
                i <= n == world.firms@.len(),
                start.firms.len() == n,
                goal == all_reflected(start.firms, start.market, start.day),
                day == start.day,
                world@ == (WorldView { firms: world@.firms, ..start }),
                forall|k: int| 0 <= k < i ==> #[trigger] world@.firms[k] == goal[k],
                forall|k: int| i <= k < n ==> #[trigger] world@.firms[k] == start.firms[k],
                gone == someone_gives_up(start.firms.take(i as int)),
            decreases n - i,
        {
            let ghost firms = world.firms@;
            let ghost views = world@.firms;
            let id: u64 = world.firms[i].0.0;
            let revenue = world.market.revenue_of(id);
            let customers: u64 = world.market.customers_of(id);
            proof {
                assert(views[i as int] == start.firms[i as int]);
            }
            let gives_up = reflect(&mut world.firms[i].1, revenue, customers, day);
            proof {
                assert forall|k: int| 0 <= k < n && k != i implies #[trigger] world@.firms[k]
                    == views[k] by {
                    assert(world.firms@[k] == firms[k]);
                }
                assert(world@.firms[i as int] == goal[i as int]);
                lemma_gives_up_step(start.firms, i as int);
            }
            if gives_up {
                gone = true;
            }
            i = i + 1;
        }
        proof {
            assert(world@.firms =~= goal);
            assert(start.firms.take(n as int) =~= start.firms);
            those_who_give_up_are_gone(start.firms, start.market, start.day);
        }
        gone || day + 1 >= self.days
    }
}

/// Among the first `i + 1` someone gives up if among the first `i`, or the next.
proof fn lemma_gives_up_step(firms: Seq<(AgentId, FirmView)>, i: int)
    requires
        0 <= i < firms.len(),
    ensures
        someone_gives_up(firms.take(i + 1)) == (someone_gives_up(firms.take(i)) || (
        firms[i].1.alive && firms[i].1.funds.less(Real { bits: 0 }))),
{
    let a = firms.take(i);
    let b = firms.take(i + 1);
    if someone_gives_up(a) {
        let k = choose|k: int|
            0 <= k < a.len() && (#[trigger] a[k]).1.alive && a[k].1.funds.less(Real { bits: 0 });
        assert(b[k] == a[k]);
    }
    if someone_gives_up(b) {
        let k = choose|k: int|
            0 <= k < b.len() && (#[trigger] b[k]).1.alive && b[k].1.funds.less(Real { bits: 0 });
        if k < i {
            assert(a[k] == b[k]);
        }
    }
    if firms[i].1.alive && firms[i].1.funds.less(Real { bits: 0 }) {
        assert(b[i] == firms[i]);
    }
}

} // verus!
