//! Where customers go, alone and in groups.
use crate::accuracy::int_sum;
use crate::apportionment::{
    count_before, leftover, lemma_count_before_ordered, rank, remainder, seats, share, share_sum,
    vote_sum,
};
use crate::choice::{
    all_group_choices, asked_ids, group_choices, group_list, lemma_group_places, members_of,
    members_of_all, own_choices, settled, solo_ids, spread, times_picked, votes_of,
};
use crate::config::CustomerMode;
use crate::prompts::OfferView;
use crate::world::{AgentId, CustomerView};
use vstd::prelude::*;

verus! {

/// All votes together, as integers.
pub open spec fn all_votes(votes: Seq<u32>) -> int {
    int_sum(votes.map_values(|v: u32| v as int))
}

/// The sum of votes is their sum.
proof fn lemma_vote_sum(votes: Seq<u32>)
    ensures
        vote_sum(votes) == all_votes(votes),
    decreases votes.len(),
{
    let f = |v: u32| v as int;
    if votes.len() > 0 {
        lemma_vote_sum(votes.drop_last());
        assert(votes.map_values(f).drop_last() =~= votes.drop_last().map_values(f));
    }
}

/// What one whose share is whole leaves to the others.
proof fn lemma_whole_waits(votes: Seq<u32>, n: nat, keys: Seq<u32>, i: int, k: nat)
    requires
        vote_sum(votes) > 0,
        k <= votes.len(),
        remainder(votes, n, i) == 0,
    ensures
        share_sum(votes, n, k) * vote_sum(votes) + count_before(votes, n, keys, i, k) * (vote_sum(
            votes,
        ) - 1) >= n * vote_sum(votes.take(k as int)),
    decreases k,
{
    let t = vote_sum(votes) as int;
    if k == 0 {
        assert(vote_sum(votes.take(0)) == 0);
        assert(n * 0 == 0);
        assert(0 * t == 0 && 0 * (t - 1) == 0);
    } else {
        let j = (k - 1) as nat;
        lemma_whole_waits(votes, n, keys, i, j);
        assert(votes.take(k as int).drop_last() =~= votes.take(j as int));
        assert(votes.take(k as int).last() == votes[j as int]);
        let v = votes[j as int] as int;
        let q = share(votes, n, j as int) as int;
        let r = remainder(votes, n, j as int) as int;
        vstd::arithmetic::div_mod::lemma_fundamental_div_mod(n * v, t);
        assert(t * q == q * t) by (nonlinear_arith);
        let s = share_sum(votes, n, j) as int;
        let c = count_before(votes, n, keys, i, j) as int;
        let before = vote_sum(votes.take(j as int)) as int;
        assert((s + q) * t == s * t + q * t) by (nonlinear_arith);
        assert((c + 1) * (t - 1) == c * (t - 1) + (t - 1)) by (nonlinear_arith);
        assert(n * (before + v) == n * before + n * v) by (nonlinear_arith);
        assert(n * v == q * t + r);
        assert(r <= t - 1);
    }
}

/// Who gets one more than the whole part of a share has a share that is not whole.
proof fn lemma_extra_has_remainder(votes: Seq<u32>, n: nat, keys: Seq<u32>, i: int)
    requires
        vote_sum(votes) > 0,
        0 <= i < votes.len(),
        rank(votes, n, keys, i) < leftover(votes, n),
    ensures
        remainder(votes, n, i) > 0,
{
    if remainder(votes, n, i) == 0 {
        let t = vote_sum(votes) as int;
        let m = votes.len();
        lemma_whole_waits(votes, n, keys, i, m);
        assert(votes.take(m as int) =~= votes);
        let s = share_sum(votes, n, m) as int;
        let c = rank(votes, n, keys, i) as int;
        let l = leftover(votes, n);
        assert(n * t == (s + l) * t);
        assert((s + l) * t == s * t + l * t) by (nonlinear_arith);
        assert(c * (t - 1) < l * t) by (nonlinear_arith)
            requires 0 <= c < l, t >= 1;
    }
}

/// The seats of a restaurant are in proportion to its votes, to less than one seat: times all
/// votes they are as many as its votes times all seats, to less than all votes. A restaurant
/// that nobody voted for gets none.
pub proof fn seats_are_in_proportion(votes: Seq<u32>, n: nat, keys: Seq<u32>, i: int)
    requires
        0 <= i < votes.len(),
        all_votes(votes) > 0,
    ensures
        n * votes[i] - all_votes(votes) < seats(votes, n, keys)[i] * all_votes(votes) < n * votes[i]
            + all_votes(votes),
        votes[i] == 0 ==> seats(votes, n, keys)[i] == 0,
{
    lemma_vote_sum(votes);
    let t = vote_sum(votes) as int;
    let v = votes[i] as int;
    let q = share(votes, n, i) as int;
    vstd::arithmetic::div_mod::lemma_fundamental_div_mod(n * v, t);
    assert(t * q == q * t) by (nonlinear_arith);
    assert((q + 1) * t == q * t + t) by (nonlinear_arith);
    if rank(votes, n, keys, i) < leftover(votes, n) {
        lemma_extra_has_remainder(votes, n, keys, i);
    }
    if v == 0 {
        assert(n * v == 0) by (nonlinear_arith)
            requires v == 0;
        let s = seats(votes, n, keys)[i] as int;
        assert(s <= 0) by (nonlinear_arith)
            requires s * t < t, t > 0;
    }
}

/// Of two restaurants the first has the better claim to a further seat: its share has the larger
/// remainder; or the remainders are equal and the number that was drawn for it is smaller; or
/// these are equal too and it stands before the other.
pub open spec fn has_better_claim(votes: Seq<u32>, n: nat, keys: Seq<u32>, i: int, j: int) -> bool {
    let a = (n * votes[i]) % all_votes(votes);
    let b = (n * votes[j]) % all_votes(votes);
    ||| a > b
    ||| a == b && keys[i] < keys[j]
    ||| a == b && keys[i] == keys[j] && i < j
}

/// Where the share of a restaurant is rounded up, so is that of every restaurant with a better
/// claim.
pub proof fn better_claims_are_met_first(votes: Seq<u32>, n: nat, keys: Seq<u32>, i: int, j: int)
    requires
        0 <= i < votes.len(),
        0 <= j < votes.len(),
        all_votes(votes) > 0,
        has_better_claim(votes, n, keys, i, j),
        seats(votes, n, keys)[j] * all_votes(votes) > n * votes[j],
    ensures
        seats(votes, n, keys)[i] * all_votes(votes) > n * votes[i],
{
    lemma_vote_sum(votes);
    let t = vote_sum(votes) as int;
    let qi = share(votes, n, i) as int;
    let qj = share(votes, n, j) as int;
    vstd::arithmetic::div_mod::lemma_fundamental_div_mod(n * votes[i] as int, t);
    vstd::arithmetic::div_mod::lemma_fundamental_div_mod(n * votes[j] as int, t);
    assert(t * qi == qi * t && t * qj == qj * t) by (nonlinear_arith);
    assert((qi + 1) * t == qi * t + t) by (nonlinear_arith);
    assert(rank(votes, n, keys, j) < leftover(votes, n));
    lemma_count_before_ordered(votes, n, keys, i, j, votes.len());
}

/// How often an offer was picked is how many picks are of it.
pub proof fn picks_are_votes(picks: Seq<usize>, n: nat, k: int)
    requires
        0 <= k < n,
        picks.len() <= u32::MAX,
    ensures
        votes_of(picks, n).len() == n,
        votes_of(picks, n)[k] == picks.filter(|p: usize| p == k).len(),
{
    lemma_times_counted(picks, k);
}

/// How often an offer was picked.
proof fn lemma_times_counted(picks: Seq<usize>, k: int)
    ensures
        times_picked(picks, k) == picks.filter(|p: usize| p == k).len(),
        times_picked(picks, k) <= picks.len(),
    decreases picks.len(),
{
    reveal(Seq::filter);
    if picks.len() > 0 {
        lemma_times_counted(picks.drop_last(), k);
    }
}

/// Those who belong to no group are those of whom no group is told, and the members of a group
/// those of whom it is, in their order.
pub proof fn groups_hold_their_members(customers: Seq<(AgentId, CustomerView)>, g: u64)
    ensures
        solo_ids(customers) == customers.filter(
            |e: (AgentId, CustomerView)| e.1.group is None,
        ).map_values(|e: (AgentId, CustomerView)| e.0),
        members_of(customers, g) == customers.filter(
            |e: (AgentId, CustomerView)| e.1.group == Some(g),
        ).map_values(|e: (AgentId, CustomerView)| e.0),
    decreases customers.len(),
{
    reveal(Seq::filter);
    let p = |e: (AgentId, CustomerView)| e.1.group is None;
    let q = |e: (AgentId, CustomerView)| e.1.group == Some(g);
    let f = |e: (AgentId, CustomerView)| e.0;
    if customers.len() > 0 {
        groups_hold_their_members(customers.drop_last(), g);
        let a = customers.drop_last().filter(p);
        let b = customers.drop_last().filter(q);
        assert(a.push(customers.last()).map_values(f) =~= a.map_values(f).push(customers.last().0));
        assert(b.push(customers.last()).map_values(f) =~= b.map_values(f).push(customers.last().0));
    }
    assert(solo_ids(customers) =~= customers.filter(p).map_values(f));
    assert(members_of(customers, g) =~= customers.filter(q).map_values(f));
}

/// Customers who decide for themselves go where they picked: each one to the restaurant whose
/// offer the pick is.
pub proof fn individuals_go_where_they_picked(
    customers: Seq<(AgentId, CustomerView)>,
    offers: Seq<OfferView>,
    picks: Seq<usize>,
    keys: Seq<Seq<u32>>,
    j: int,
)
    requires
        offers.len() > 0,
        0 <= j < customers.len(),
    ensures
        settled(customers, CustomerMode::Individual, offers, picks, keys).len() == customers.len(),
        settled(customers, CustomerMode::Individual, offers, picks, keys)[j] == (
            customers[j].0.0,
            offers[picks[j] as int].firm,
        ),
        asked_ids(customers, CustomerMode::Individual)[j] == customers[j].0,
{
}

/// In the group mode those who belong to no group are asked first and go where they picked.
pub proof fn loners_go_where_they_picked(
    customers: Seq<(AgentId, CustomerView)>,
    offers: Seq<OfferView>,
    picks: Seq<usize>,
    keys: Seq<Seq<u32>>,
    j: int,
)
    requires
        offers.len() > 0,
        0 <= j < solo_ids(customers).len() <= picks.len(),
    ensures
        asked_ids(customers, CustomerMode::Group)[j] == solo_ids(customers)[j],
        settled(customers, CustomerMode::Group, offers, picks, keys)[j] == (
            solo_ids(customers)[j].0,
            offers[picks[j] as int].firm,
        ),
{
}

/// Groups decide one after the other, each by the picks of its own members and by the numbers
/// drawn for it.
pub proof fn groups_decide_for_themselves(
    customers: Seq<(AgentId, CustomerView)>,
    groups: Seq<u64>,
    g: u64,
    offers: Seq<OfferView>,
    picks: Seq<usize>,
    own: Seq<usize>,
    keys: Seq<Seq<u32>>,
    drawn: Seq<u32>,
)
    requires
        own.len() == members_of(customers, g).len(),
    ensures
        members_of_all(customers, groups.push(g)) == members_of_all(customers, groups) + members_of(
            customers,
            g,
        ),
        all_group_choices(customers, groups.push(g), offers, picks + own, keys.push(drawn))
            == all_group_choices(customers, groups, offers, picks, keys) + group_choices(
            members_of(customers, g),
            offers,
            own,
            drawn,
        ),
        members_of_all(customers, seq![]).len() == 0,
        all_group_choices(customers, seq![], offers, picks, keys).len() == 0,
{
    assert(groups.push(g).drop_last() =~= groups);
    assert(keys.push(drawn).drop_last() =~= keys);
    assert((picks + own).take(picks.len() as int) =~= picks);
    assert((picks + own).skip(picks.len() as int) =~= own);
}

/// In the group mode the groups follow those who belong to none, by increasing number.
pub proof fn groups_follow_loners(
    customers: Seq<(AgentId, CustomerView)>,
    offers: Seq<OfferView>,
    picks: Seq<usize>,
    own: Seq<usize>,
    keys: Seq<Seq<u32>>,
)
    requires
        offers.len() > 0,
        picks.len() == solo_ids(customers).len(),
    ensures
        asked_ids(customers, CustomerMode::Group) == solo_ids(customers) + members_of_all(
            customers,
            group_list(customers),
        ),
        settled(customers, CustomerMode::Group, offers, picks + own, keys) == own_choices(
            solo_ids(customers),
            offers,
            picks,
        ) + all_group_choices(customers, group_list(customers), offers, own, keys),
{
    assert((picks + own).take(picks.len() as int) =~= picks);
    assert((picks + own).skip(picks.len() as int) =~= own);
}

/// The members of a group go to the offers in order: the offer of a later member is not an
/// earlier offer. With `groups_go_where_they_voted` this is where each one goes.
pub proof fn members_fill_the_offers_in_order(
    members: Seq<AgentId>,
    offers: Seq<OfferView>,
    picks: Seq<usize>,
    keys: Seq<u32>,
) -> (places: Seq<int>)
    requires
        picks.len() == members.len() <= u32::MAX,
        forall|i: int| 0 <= i < picks.len() ==> #[trigger] picks[i] < offers.len(),
    ensures
        places.len() == members.len(),
        group_choices(members, offers, picks, keys).len() == members.len(),
        forall|i: int|
            0 <= i < members.len() ==> 0 <= #[trigger] places[i] < offers.len() && group_choices(
                members,
                offers,
                picks,
                keys,
            )[i] == (members[i].0, offers[places[i]].firm),
        forall|i: int, j: int|
            0 <= i < j < members.len() ==> #[trigger] places[i] <= #[trigger] places[j],
{
    let s = seats(votes_of(picks, offers.len()), members.len(), keys);
    lemma_group_places(picks, offers.len(), keys);
    lemma_spread_in_order(s);
    spread(s)
}

/// Places go up.
proof fn lemma_spread_in_order(s: Seq<nat>)
    ensures
        forall|i: int| 0 <= i < spread(s).len() ==> 0 <= #[trigger] spread(s)[i] < s.len(),
        forall|i: int, j: int|
            0 <= i < j < spread(s).len() ==> #[trigger] spread(s)[i] <= #[trigger] spread(s)[j],
    decreases s.len(),
{
    if s.len() > 0 {
        let rest = spread(s.drop_last());
        lemma_spread_in_order(s.drop_last());
        assert forall|i: int, j: int| 0 <= i < j < spread(s).len() implies #[trigger] spread(s)[i]
            <= #[trigger] spread(s)[j] by {
            if j < rest.len() {
                assert(rest[i] <= rest[j]);
            } else if i < rest.len() {
                assert(rest[i] < s.len() - 1);
            }
        }
    }
}

} // verus!
