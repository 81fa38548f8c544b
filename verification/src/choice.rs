//! How customers choose a restaurant, alone or in groups.
use crate::apportionment::{
    apportion_seats, counts_view, seat_sum, seats, seats_add_up, seats_follow_votes, vote_sum,
};
use crate::config::{CustomerMode, LlmSettings};
use crate::mechanisms::{snapshots_view, FirmOfferSnapshot};
use crate::prompts::{
    answer_fields, choice_is_an_offer, choice_of, choice_prompt, customer_choice_prompt,
    offers_view, parse_customer_choice, FirmOffer, OfferView,
};
use crate::world::{
    customers_view, find_agent, ids_of, place_of, AgentId, Customer, CustomerView, MarketWorld,
};
use vstd::prelude::*;

verus! {

/// A customer and the restaurant that they go to.
pub type Choice = (u64, u64);

/// The customers' decisions: each one chooses among the restaurants in business. In the group
/// mode the members of a group are spread over the restaurants in proportion to what they
/// would choose.
pub struct CustomerChoiceMechanism {
    /// What the customers' questions are asked with.
    pub settings: LlmSettings,
    pub customer_mode: CustomerMode,
}

/// The offer of the highest quality; the first of these.
pub open spec fn best_offer(offers: Seq<OfferView>) -> nat
    decreases offers.len(),
{
    if offers.len() <= 1 {
        0
    } else {
        let b = best_offer(offers.drop_last());
        if offers[b as int].avg_score.less(offers.last().avg_score) {
            (offers.len() - 1) as nat
        } else {
            b
        }
    }
}

/// What a customer picks: the offer that the answer names, else the best one.
pub open spec fn picked(choice: Option<nat>, offers: Seq<OfferView>) -> nat {
    match choice {
        Some(k) => k,
        None => best_offer(offers),
    }
}

/// What a customer picks whose choice was read or could not be read.
pub fn pick_or_best(choice: Option<usize>, offers: &Vec<FirmOfferSnapshot>) -> (r: usize)
    ensures
        r == picked(
            match choice {
                Some(k) => Some(k as nat),
                None => None,
            },
            snapshots_view(offers@),
        ),
{
    let ghost all = snapshots_view(offers@);
    if let Some(k) = choice {
        return k;
    }
    let n: usize = offers.len();
    let mut best: usize = 0;
    let mut i: usize = 1;
    proof {
        if n > 0 {
            assert(all.take(1).len() == 1);
        }
    }
    while i < n
        invariant
            1 <= i,
            n == offers@.len(),
            n > 0 ==> i <= n,
            all == snapshots_view(offers@),
            n > 0 ==> best < i,
            n > 0 ==> best == best_offer(all.take(i as int)),
            n == 0 ==> best == 0,
        decreases n - i,
    {
        proof {
            assert(all.take(i + 1).drop_last() =~= all.take(i as int));
            assert(all.take(i + 1).last() == all[i as int]);
            assert(all.take(i + 1)[best as int] == all[best as int]);
        }
        if offers[best].avg_score.less(offers[i].avg_score) {
            best = i;
        }
        i = i + 1;
    }
    proof {
        assert(all.take(n as int) =~= all);
    }
    best
}

/// The best offer is an offer; none is of higher quality, and those before it are of lower
/// quality.
pub proof fn best_offer_is_best(offers: Seq<OfferView>)
    requires
        offers.len() > 0,
        forall|i: int| 0 <= i < offers.len() ==> !(#[trigger] offers[i]).avg_score.is_nan(),
    ensures
        best_offer(offers) < offers.len(),
        forall|i: int|
            0 <= i < offers.len() ==> (#[trigger] offers[i]).avg_score.at_most(
                offers[best_offer(offers) as int].avg_score,
            ),
        forall|i: int|
            0 <= i < best_offer(offers) ==> (#[trigger] offers[i]).avg_score.less(
                offers[best_offer(offers) as int].avg_score,
            ),
    decreases offers.len(),
{
    if offers.len() > 1 {
        let rest = offers.drop_last();
        assert forall|i: int| 0 <= i < rest.len() implies !(#[trigger] rest[i]).avg_score.is_nan() by {
            assert(rest[i] == offers[i]);
        }
        best_offer_is_best(rest);
        let b = best_offer(rest) as int;
        assert(offers[b] == rest[b]);
        assert forall|i: int| 0 <= i < offers.len() implies (#[trigger] offers[i]).avg_score.at_most(
            offers[best_offer(offers) as int].avg_score,
        ) by {
            if i < offers.len() - 1 {
                assert(rest[i] == offers[i]);
            }
        }
        assert forall|i: int| 0 <= i < best_offer(offers) implies (#[trigger] offers[i]).avg_score.less(
            offers[best_offer(offers) as int].avg_score,
        ) by {
            assert(rest[i] == offers[i]);
        }
    }
}

/// The best offer is an offer.
proof fn lemma_best_offer(offers: Seq<OfferView>)
    requires
        offers.len() > 0,
    ensures
        best_offer(offers) < offers.len(),
    decreases offers.len(),
{
    if offers.len() > 1 {
        lemma_best_offer(offers.drop_last());
    }
}

/// What a customer picks is an offer, whatever the answer was.
pub proof fn pick_is_an_offer(text: Seq<char>, offers: Seq<OfferView>)
    requires
        offers.len() > 0,
    ensures
        picked(choice_of(answer_fields(text), text, offers.len()), offers) < offers.len(),
{
    choice_is_an_offer(answer_fields(text), text, offers.len());
    lemma_best_offer(offers);
}

/// The customers who belong to no group.
pub open spec fn solo_ids(customers: Seq<(AgentId, CustomerView)>) -> Seq<AgentId>
    decreases customers.len(),
{
    if customers.len() == 0 {
        seq![]
    } else if customers.last().1.group is None {
        solo_ids(customers.drop_last()).push(customers.last().0)
    } else {
        solo_ids(customers.drop_last())
    }
}

/// The members of a group.
pub open spec fn members_of(customers: Seq<(AgentId, CustomerView)>, g: u64) -> Seq<AgentId>
    decreases customers.len(),
{
    if customers.len() == 0 {
        seq![]
    } else if customers.last().1.group == Some(g) {
        members_of(customers.drop_last(), g).push(customers.last().0)
    } else {
        members_of(customers.drop_last(), g)
    }
}

/// A number put in its place among increasing numbers, if it is not there.
pub open spec fn with_number(s: Seq<u64>, g: u64) -> Seq<u64>
    decreases s.len(),
{
    if s.len() == 0 {
        seq![g]
    } else if s.last() == g {
        s
    } else if s.last() < g {
        s.push(g)
    } else {
        with_number(s.drop_last(), g).push(s.last())
    }
}

/// The numbers of the groups, increasing.
pub open spec fn group_list(customers: Seq<(AgentId, CustomerView)>) -> Seq<u64>
    decreases customers.len(),
{
    if customers.len() == 0 {
        seq![]
    } else {
        match customers.last().1.group {
            Some(g) => with_number(group_list(customers.drop_last()), g),
            None => group_list(customers.drop_last()),
        }
    }
}

/// The members of some groups, group by group.
pub open spec fn members_of_all(
    customers: Seq<(AgentId, CustomerView)>,
    groups: Seq<u64>,
) -> Seq<AgentId>
    decreases groups.len(),
{
    if groups.len() == 0 {
        seq![]
    } else {
        members_of_all(customers, groups.drop_last()) + members_of(customers, groups.last())
    }
}

/// The customers in the order in which they are asked: all by identity; or, in the group
/// mode, those who belong to no group, then group by group.
pub open spec fn asked_ids(customers: Seq<(AgentId, CustomerView)>, mode: CustomerMode) -> Seq<
    AgentId,
> {
    match mode {
        CustomerMode::Individual => ids_of(customers),
        CustomerMode::Group => solo_ids(customers) + members_of_all(
            customers,
            group_list(customers),
        ),
    }
}

/// How often an offer was picked.
pub open spec fn times_picked(picks: Seq<usize>, offer: int) -> nat
    decreases picks.len(),
{
    if picks.len() == 0 {
        0
    } else {
        times_picked(picks.drop_last(), offer) + (if picks.last() == offer {
            1nat
        } else {
            0nat
        })
    }
}

/// The votes for each of `n` offers.
pub open spec fn votes_of(picks: Seq<usize>, n: nat) -> Seq<u32> {
    Seq::new(n, |k: int| times_picked(picks, k) as u32)
}

/// The places of the offers, each as often as it has seats.
pub open spec fn spread(s: Seq<nat>) -> Seq<int>
    decreases s.len(),
{
    if s.len() == 0 {
        seq![]
    } else {
        spread(s.drop_last()) + Seq::new(s.last(), |k: int| s.len() - 1)
    }
}

/// Where the members of a group go: in order, to the offers in order, as many to each as it
/// has seats.
pub open spec fn group_choices(
    members: Seq<AgentId>,
    offers: Seq<OfferView>,
    picks: Seq<usize>,
    keys: Seq<u32>,
) -> Seq<Choice> {
    let places = spread(seats(votes_of(picks, offers.len()), members.len(), keys));
    Seq::new(members.len(), |i: int| (members[i].0, offers[places[i]].firm))
}

/// Where customers go who decide for themselves.
pub open spec fn own_choices(ids: Seq<AgentId>, offers: Seq<OfferView>, picks: Seq<usize>) -> Seq<
    Choice,
> {
    Seq::new(ids.len(), |i: int| (ids[i].0, offers[picks[i] as int].firm))
}

/// Where the members of some groups go, group by group. `picks` are theirs, in that order.
pub open spec fn all_group_choices(
    customers: Seq<(AgentId, CustomerView)>,
    groups: Seq<u64>,
    offers: Seq<OfferView>,
    picks: Seq<usize>,
    keys: Seq<Seq<u32>>,
) -> Seq<Choice>
    decreases groups.len(),
{
    if groups.len() == 0 {
        seq![]
    } else {
        let members = members_of(customers, groups.last());
        let k = picks.len() - members.len();
        all_group_choices(customers, groups.drop_last(), offers, picks.take(k), keys.drop_last())
            + group_choices(members, offers, picks.skip(k), keys.last())
    }
}

/// Where all customers go. `picks` are those of the customers asked, in that order; `keys`
/// were drawn for each group.
pub open spec fn settled(
    customers: Seq<(AgentId, CustomerView)>,
    mode: CustomerMode,
    offers: Seq<OfferView>,
    picks: Seq<usize>,
    keys: Seq<Seq<u32>>,
) -> Seq<Choice> {
    if offers.len() == 0 {
        seq![]
    } else {
        match mode {
            CustomerMode::Individual => own_choices(ids_of(customers), offers, picks),
            CustomerMode::Group => {
                let solo = solo_ids(customers);
                own_choices(solo, offers, picks.take(solo.len() as int)) + all_group_choices(
                    customers,
                    group_list(customers),
                    offers,
                    picks.skip(solo.len() as int),
                    keys,
                )
            },
        }
    }
}

/// No offer was picked more often than there are picks.
proof fn lemma_times_picked(picks: Seq<usize>, offer: int)
    ensures
        times_picked(picks, offer) <= picks.len(),
    decreases picks.len(),
{
    if picks.len() > 0 {
        lemma_times_picked(picks.drop_last(), offer);
    }
}

/// One more vote for one offer.
proof fn lemma_vote_added(votes: Seq<u32>, p: int)
    requires
        0 <= p < votes.len(),
        votes[p] < u32::MAX,
    ensures
        vote_sum(votes.update(p, (votes[p] + 1) as u32)) == vote_sum(votes) + 1,
    decreases votes.len(),
{
    let more = votes.update(p, (votes[p] + 1) as u32);
    if p == votes.len() - 1 {
        assert(more.drop_last() =~= votes.drop_last());
    } else {
        lemma_vote_added(votes.drop_last(), p);
        assert(more.drop_last() =~= votes.drop_last().update(p, (votes[p] + 1) as u32));
    }
}

/// No votes.
proof fn lemma_no_votes(votes: Seq<u32>)
    requires
        forall|k: int| 0 <= k < votes.len() ==> #[trigger] votes[k] == 0,
    ensures
        vote_sum(votes) == 0,
    decreases votes.len(),
{
    if votes.len() > 0 {
        assert(votes[votes.len() - 1] == 0);
        assert forall|k: int| 0 <= k < votes.drop_last().len() implies #[trigger] votes.drop_last()[k]
            == 0 by {
            assert(votes.drop_last()[k] == votes[k]);
        }
        lemma_no_votes(votes.drop_last());
    }
}

/// Every pick is a vote.
proof fn lemma_all_votes(picks: Seq<usize>, n: nat)
    requires
        picks.len() <= u32::MAX,
        forall|i: int| 0 <= i < picks.len() ==> #[trigger] picks[i] < n,
    ensures
        vote_sum(votes_of(picks, n)) == picks.len(),
    decreases picks.len(),
{
    if picks.len() == 0 {
        lemma_no_votes(votes_of(picks, n));
    } else {
        let rest = picks.drop_last();
        let p = picks.last() as int;
        assert(picks[picks.len() - 1] == p);
        assert forall|i: int| 0 <= i < rest.len() implies #[trigger] rest[i] < n by {
            assert(rest[i] == picks[i]);
        }
        lemma_all_votes(rest, n);
        assert forall|k: int| 0 <= k < n implies times_picked(rest, k) < u32::MAX by {
            lemma_times_picked(rest, k);
        }
        let votes = votes_of(rest, n);
        lemma_vote_added(votes, p);
        assert(votes_of(picks, n) =~= votes.update(p, (votes[p] + 1) as u32));
    }
}

/// As many places as seats.
proof fn lemma_spread(s: Seq<nat>)
    ensures
        spread(s).len() == seat_sum(s),
        forall|i: int| 0 <= i < spread(s).len() ==> 0 <= #[trigger] spread(s)[i] < s.len(),
    decreases s.len(),
{
    if s.len() > 0 {
        lemma_spread(s.drop_last());
    }
}

/// The places of the members of a group.
pub proof fn lemma_group_places(picks: Seq<usize>, n: nat, keys: Seq<u32>)
    requires
        picks.len() <= u32::MAX,
        forall|i: int| 0 <= i < picks.len() ==> #[trigger] picks[i] < n,
    ensures
        ({
            let places = spread(seats(votes_of(picks, n), picks.len(), keys));
            &&& places.len() == picks.len()
            &&& forall|i: int| 0 <= i < places.len() ==> 0 <= #[trigger] places[i] < n
        }),
{
    let votes = votes_of(picks, n);
    lemma_all_votes(picks, n);
    lemma_spread(seats(votes, picks.len(), keys));
    if picks.len() > 0 {
        seats_add_up(votes, picks.len(), keys);
    } else {
        lemma_no_seats(seats(votes, picks.len(), keys));
    }
}

/// No seats.
proof fn lemma_no_seats(s: Seq<nat>)
    requires
        forall|i: int| 0 <= i < s.len() ==> #[trigger] s[i] == 0,
    ensures
        seat_sum(s) == 0,
    decreases s.len(),
{
    if s.len() > 0 {
        assert(s[s.len() - 1] == 0);
        assert forall|i: int| 0 <= i < s.drop_last().len() implies #[trigger] s.drop_last()[i] == 0 by {
            assert(s.drop_last()[i] == s[i]);
        }
        lemma_no_seats(s.drop_last());
    }
}

/// Where the members of a group go who picked what they picked.
pub fn settle_group(
    members: &Vec<AgentId>,
    offers: &Vec<FirmOfferSnapshot>,
    picks: &[usize],
    keys: &[u32],
) -> (r: Vec<Choice>)
    requires
        picks@.len() == members@.len() <= u32::MAX,
        forall|i: int| 0 <= i < picks@.len() ==> #[trigger] picks@[i] < offers@.len(),
        keys@.len() == offers@.len(),
    ensures
        r@ == group_choices(members@, snapshots_view(offers@), picks@, keys@),
{
    let n: usize = offers.len();
    let mut votes: Vec<u32> = Vec::new();
    let mut k: usize = 0;
    while k < n
        invariant
            k <= n,
            votes@.len() == k,
            forall|j: int| 0 <= j < k ==> #[trigger] votes@[j] == 0,
        decreases n - k,
    {
        votes.push(0);
        k = k + 1;
    }
    let mut i: usize = 0;
    proof {
        assert(votes@ =~= votes_of(picks@.take(0), n as nat));
    }
    while i < picks.len()
        invariant
            i <= picks@.len() <= u32::MAX,
            n == offers@.len(),
            forall|j: int| 0 <= j < picks@.len() ==> #[trigger] picks@[j] < offers@.len(),
            votes@ == votes_of(picks@.take(i as int), n as nat),
        decreases picks@.len() - i,
    {
        let p: usize = picks[i];
        let ghost done = picks@.take(i as int);
        proof {
            assert forall|j: int| 0 <= j < n implies times_picked(done, j) < u32::MAX by {
                lemma_times_picked(done, j);
            }
            assert(picks@.take(i + 1).drop_last() =~= done);
            assert(picks@.take(i + 1).last() == p);
        }
        let v: u32 = votes[p];
        votes.set(p, v + 1);
        proof {
            assert(votes@ =~= votes_of(picks@.take(i + 1), n as nat));
        }
        i = i + 1;
    }
    proof {
        assert(picks@.take(picks@.len() as int) =~= picks@);
        lemma_all_votes(picks@, n as nat);
        lemma_group_places(picks@, n as nat, keys@);
    }
    let counts = apportion_seats(votes.as_slice(), members.len(), keys);
    let ghost s = counts_view(counts@);
    let ghost places = spread(s);
    let ghost all = snapshots_view(offers@);
    let mut r: Vec<Choice> = Vec::new();
    k = 0;
    proof {
        assert(s.take(0).len() == 0);
        assert(s.take(n as int) =~= s);
    }
    while k < n
        invariant
            k <= n == offers@.len() == counts@.len(),
            s == counts_view(counts@),
            places == spread(s),
            all == snapshots_view(offers@),
            places.len() == members@.len(),
            s.take(n as int) == s,
            r@.len() == spread(s.take(k as int)).len(),
            forall|j: int|
                0 <= j < r@.len() ==> #[trigger] r@[j] == (
                    members@[j].0,
                    all[spread(s.take(k as int))[j]].firm,
                ),
        decreases n - k,
    {
        let ghost before = spread(s.take(k as int));
        let ghost after = spread(s.take(k + 1));
        proof {
            assert(s.take(k + 1).drop_last() =~= s.take(k as int));
            assert(s.take(k + 1).last() == s[k as int]);
            lemma_spread_grows(s, k + 1);
        }
        let mut c: usize = 0;
        while c < counts[k]
            invariant
                k < n == offers@.len() == counts@.len(),
                s == counts_view(counts@),
                all == snapshots_view(offers@),
                c <= counts@[k as int],
                after == before + Seq::new(s[k as int], |x: int| k as int),
                after.len() <= members@.len(),
                r@.len() == before.len() + c,
                forall|j: int|
                    0 <= j < r@.len() ==> #[trigger] r@[j] == (members@[j].0, all[after[j]].firm),
            decreases counts@[k as int] - c,
        {
            let m: usize = r.len();
            r.push((members[m].0, offers[k].firm));
            c = c + 1;
        }
        k = k + 1;
    }
    proof {
        assert(r@ =~= group_choices(members@, all, picks@, keys@));
    }
    r
}

/// The places of the first offers are no more than those of all.
proof fn lemma_spread_grows(s: Seq<nat>, k: int)
    requires
        0 <= k <= s.len(),
    ensures
        spread(s.take(k)).len() <= spread(s).len(),
    decreases s.len(),
{
    if k < s.len() {
        lemma_spread_grows(s.drop_last(), k);
        assert(s.drop_last().take(k) =~= s.take(k));
    } else {
        assert(s.take(k) =~= s);
    }
}

/// A number put in its place among increasing numbers, if it is not there.
pub(crate) fn put_number(s: &mut Vec<u64>, g: u64)
    ensures
        final(s)@ == with_number(old(s)@, g),
{
    let ghost all = s@;
    let mut i: usize = s.len();
    proof {
        assert(all.take(i as int) =~= all);
        assert(with_number(all, g) =~= with_number(all.take(i as int), g) + all.skip(i as int));
    }
    while i > 0 && s[i - 1] > g
        invariant
            i <= s@.len(),
            s@ == all,
            with_number(all, g) == with_number(all.take(i as int), g) + all.skip(i as int),
        decreases i,
    {
        proof {
            assert(all.take(i as int).drop_last() =~= all.take(i - 1));
            assert(all.take(i as int).last() == all[i - 1]);
            assert(with_number(all.take(i as int), g) + all.skip(i as int) =~= with_number(
                all.take(i - 1),
                g,
            ) + all.skip(i - 1));
        }
        i = i - 1;
    }
    proof {
        if i > 0 {
            assert(all.take(i as int).last() == all[i - 1]);
        }
    }
    if i == 0 || s[i - 1] < g {
        s.insert(i, g);
        proof {
            assert(s@ =~= with_number(all, g));
        }
    } else {
        proof {
            assert(all =~= with_number(all, g));
        }
    }
}

/// The members of a group.
fn members(customers: &Vec<(AgentId, Customer)>, g: u64) -> (r: Vec<AgentId>)
    ensures
        r@ == members_of(customers_view(customers@), g),
{
    let ghost all = customers_view(customers@);
    let mut r: Vec<AgentId> = Vec::new();
    let mut i: usize = 0;
    while i < customers.len()
        invariant
            i <= customers@.len(),
            all == customers_view(customers@),
            r@ == members_of(all.take(i as int), g),
        decreases customers@.len() - i,
    {
        proof {
            assert(all.take(i + 1).drop_last() =~= all.take(i as int));
            assert(all.take(i + 1).last() == all[i as int]);
        }
        if let Some(h) = customers[i].1.group {
            if h == g {
                r.push(customers[i].0);
            }
        }
        i = i + 1;
    }
    proof {
        assert(all.take(all.len() as int) =~= all);
    }
    r
}

/// The customers who belong to no group.
fn solo(customers: &Vec<(AgentId, Customer)>) -> (r: Vec<AgentId>)
    ensures
        r@ == solo_ids(customers_view(customers@)),
{
    let ghost all = customers_view(customers@);
    let mut r: Vec<AgentId> = Vec::new();
    let mut i: usize = 0;
    while i < customers.len()
        invariant
            i <= customers@.len(),
            all == customers_view(customers@),
            r@ == solo_ids(all.take(i as int)),
        decreases customers@.len() - i,
    {
        proof {
            assert(all.take(i + 1).drop_last() =~= all.take(i as int));
            assert(all.take(i + 1).last() == all[i as int]);
        }
        if customers[i].1.group.is_none() {
            r.push(customers[i].0);
        }
        i = i + 1;
    }
    proof {
        assert(all.take(all.len() as int) =~= all);
    }
    r
}

/// No group has more members than there are customers, and neither have those who belong to
/// none.
proof fn lemma_members_within(customers: Seq<(AgentId, CustomerView)>, g: u64)
    ensures
        members_of(customers, g).len() <= customers.len(),
        solo_ids(customers).len() <= customers.len(),
    decreases customers.len(),
{
    if customers.len() > 0 {
        lemma_members_within(customers.drop_last(), g);
    }
}

/// Customers who decide for themselves.
fn settle_own(ids: &Vec<AgentId>, offers: &Vec<FirmOfferSnapshot>, picks: &Vec<usize>) -> (r: Vec<
    Choice,
>)
    requires
        ids@.len() <= picks@.len(),
        forall|i: int| 0 <= i < picks@.len() ==> #[trigger] picks@[i] < offers@.len(),
    ensures
        r@ == own_choices(ids@, snapshots_view(offers@), picks@.take(ids@.len() as int)),
{
    let ghost all = snapshots_view(offers@);
    let mut r: Vec<Choice> = Vec::new();
    let mut i: usize = 0;
    while i < ids.len()
        invariant
            i <= ids@.len() <= picks@.len(),
            forall|k: int| 0 <= k < picks@.len() ==> #[trigger] picks@[k] < offers@.len(),
            all == snapshots_view(offers@),
            r@.len() == i,
            forall|k: int|
                0 <= k < i ==> #[trigger] r@[k] == (ids@[k].0, all[picks@[k] as int].firm),
        decreases ids@.len() - i,
    {
        r.push((ids[i].0, offers[picks[i]].firm));
        i = i + 1;
    }
    proof {
        assert(r@ =~= own_choices(ids@, all, picks@.take(ids@.len() as int)));
    }
    r
}

/// Where the members of some groups go, when those of one more group are settled.
proof fn lemma_next_group(
    customers: Seq<(AgentId, CustomerView)>,
    groups: Seq<u64>,
    offers: Seq<OfferView>,
    picks: Seq<usize>,
    keys: Seq<Seq<u32>>,
    k: int,
    from: int,
)
    requires
        0 <= k < groups.len() == keys.len(),
        0 <= from,
        from + members_of(customers, groups[k]).len() <= picks.len(),
    ensures
        ({
            let members = members_of(customers, groups[k]);
            let to = from + members.len();
            all_group_choices(
                customers,
                groups.take(k + 1),
                offers,
                picks.take(to),
                keys.take(k + 1),
            ) == all_group_choices(
                customers,
                groups.take(k),
                offers,
                picks.take(from),
                keys.take(k),
            ) + group_choices(members, offers, picks.subrange(from, to), keys[k])
        }),
{
    let to = from + members_of(customers, groups[k]).len();
    let seen = picks.take(to);
    assert(groups.take(k + 1).drop_last() =~= groups.take(k));
    assert(groups.take(k + 1).last() == groups[k]);
    assert(seen.take(from) =~= picks.take(from));
    assert(seen.skip(from) =~= picks.subrange(from, to));
    assert(keys.take(k + 1).drop_last() =~= keys.take(k));
    assert(keys.take(k + 1).last() == keys[k]);
}

/// Where the members of some groups go, group by group.
fn settle_groups(
    customers: &Vec<(AgentId, Customer)>,
    groups: &Vec<u64>,
    offers: &Vec<FirmOfferSnapshot>,
    picks: &Vec<usize>,
    keys: &Vec<Vec<u32>>,
) -> (r: Vec<Choice>)
    requires
        customers@.len() <= u32::MAX,
        picks@.len() == members_of_all(customers_view(customers@), groups@).len(),
        forall|i: int| 0 <= i < picks@.len() ==> #[trigger] picks@[i] < offers@.len(),
        keys@.len() == groups@.len(),
        forall|i: int| 0 <= i < keys@.len() ==> (#[trigger] keys@[i])@.len() == offers@.len(),
    ensures
        r@ == all_group_choices(
            customers_view(customers@),
            groups@,
            snapshots_view(offers@),
            picks@,
            keys_view(keys@),
        ),
{
    let ghost all = customers_view(customers@);
    let ghost shown = snapshots_view(offers@);
    let ghost drawn = keys_view(keys@);
    let total: usize = picks.len();
    let mut r: Vec<Choice> = Vec::new();
    let mut from: usize = 0;
    let mut k: usize = 0;
    while k < groups.len()
        invariant
            k <= groups@.len() == keys@.len(),
            all == customers_view(customers@),
            all.len() <= u32::MAX,
            shown == snapshots_view(offers@),
            drawn == keys_view(keys@),
            forall|i: int| 0 <= i < picks@.len() ==> #[trigger] picks@[i] < offers@.len(),
            forall|i: int| 0 <= i < keys@.len() ==> (#[trigger] keys@[i])@.len() == offers@.len(),
            picks@.len() == members_of_all(all, groups@).len(),
            from == members_of_all(all, groups@.take(k as int)).len(),
            from <= picks@.len() == total,
            r@ == all_group_choices(
                all,
                groups@.take(k as int),
                shown,
                picks@.take(from as int),
                drawn.take(k as int),
            ),
        decreases groups@.len() - k,
    {
        let group = members(customers, groups[k]);
        proof {
            lemma_members_grow(all, groups@, k + 1);
            lemma_members_within(all, groups@[k as int]);
            lemma_members_next(all, groups@, k as int);
            lemma_next_group(all, groups@, shown, picks@, drawn, k as int, from as int);
            assert(drawn[k as int] == keys@[k as int]@);
        }
        let to: usize = from + group.len();
        let own = part(picks, from, to);
        let mut more = settle_group(&group, offers, own.as_slice(), keys[k].as_slice());
        r.append(&mut more);
        from = to;
        k = k + 1;
    }
    proof {
        assert(groups@.take(groups@.len() as int) =~= groups@);
        assert(picks@.take(picks@.len() as int) =~= picks@);
        assert(drawn.take(drawn.len() as int) =~= drawn);
    }
    r
}

/// The members of the first groups and of one more.
proof fn lemma_members_next(customers: Seq<(AgentId, CustomerView)>, groups: Seq<u64>, k: int)
    requires
        0 <= k < groups.len(),
    ensures
        members_of_all(customers, groups.take(k + 1)) == members_of_all(customers, groups.take(k))
            + members_of(customers, groups[k]),
{
    assert(groups.take(k + 1).drop_last() =~= groups.take(k));
    assert(groups.take(k + 1).last() == groups[k]);
}

impl CustomerChoiceMechanism {
    pub fn new(settings: LlmSettings, customer_mode: CustomerMode) -> (r: Self)
        ensures
            r.settings == settings,
            r.customer_mode == customer_mode,
    {
        CustomerChoiceMechanism { settings, customer_mode }
    }

    /// The numbers of the groups, increasing; none where customers decide for themselves.
    pub fn groups(&self, world: &MarketWorld) -> (r: Vec<u64>)
        ensures
            self.customer_mode == CustomerMode::Individual ==> r@.len() == 0,
            self.customer_mode == CustomerMode::Group ==> r@ == group_list(world@.customers),
    {
        let ghost all = world@.customers;
        let mut r: Vec<u64> = Vec::new();
        match self.customer_mode {
            CustomerMode::Individual => {},
            CustomerMode::Group => {
                let mut i: usize = 0;
                while i < world.customers.len()
                    invariant
                        i <= world.customers@.len(),
                        all == customers_view(world.customers@),
                        r@ == group_list(all.take(i as int)),
                    decreases world.customers@.len() - i,
                {
                    proof {
                        assert(all.take(i + 1).drop_last() =~= all.take(i as int));
                        assert(all.take(i + 1).last() == all[i as int]);
                    }
                    if let Some(g) = world.customers[i].1.group {
                        put_number(&mut r, g);
                    }
                    i = i + 1;
                }
                proof {
                    assert(all.take(all.len() as int) =~= all);
                }
            },
        }
        r
    }

    /// The customers in the order in which they are asked.
    pub fn asked(&self, world: &MarketWorld) -> (r: Vec<AgentId>)
        ensures
            r@ == asked_ids(world@.customers, self.customer_mode),
    {
        match self.customer_mode {
            CustomerMode::Individual => {
                let mut r: Vec<AgentId> = Vec::new();
                let mut i: usize = 0;
                while i < world.customers.len()
                    invariant
                        i <= world.customers@.len(),
                        r@ =~= ids_of(world@.customers).take(i as int),
                    decreases world.customers@.len() - i,
                {
                    r.push(world.customers[i].0);
                    i = i + 1;
                }
                r
            },
            CustomerMode::Group => {
                let groups = self.groups(world);
                let mut r = solo(&world.customers);
                let ghost alone = r@;
                let ghost all = world@.customers;
                let mut k: usize = 0;
                proof {
                    assert(alone + members_of_all(all, groups@.take(0)) =~= alone);
                }
                while k < groups.len()
                    invariant
                        k <= groups@.len(),
                        all == customers_view(world.customers@),
                        r@ == alone + members_of_all(all, groups@.take(k as int)),
                    decreases groups@.len() - k,
                {
                    let mut more = members(&world.customers, groups[k]);
                    proof {
                        assert(groups@.take(k + 1).drop_last() =~= groups@.take(k as int));
                        assert(r@ + more@ =~= alone + members_of_all(all, groups@.take(k + 1)));
                    }
                    r.append(&mut more);
                    k = k + 1;
                }
                proof {
                    assert(groups@.take(groups@.len() as int) =~= groups@);
                }
                r
            },
        }
    }

    /// What a customer is asked; `None` if there is no such customer.
    pub fn question(
        &self,
        world: &MarketWorld,
        offers: &Vec<FirmOfferSnapshot>,
        id: AgentId,
    ) -> (r: Option<String>)
        ensures
            match place_of(ids_of(world@.customers), id) {
                Some(i) => r matches Some(s) && s@ == choice_prompt(
                    world@.customers[i].1,
                    world@.day,
                    snapshots_view(offers@),
                    self.customer_mode == CustomerMode::Group,
                ),
                None => r is None,
            },
    {
        proof {
            assert(ids_of(world@.customers) =~= ids_of(world.customers@));
        }
        let mut shown: Vec<FirmOffer> = Vec::new();
        let mut i: usize = 0;
        while i < offers.len()
            invariant
                i <= offers@.len(),
                shown@.len() == i,
                forall|k: int| 0 <= k < i ==> #[trigger] shown@[k]@ == offers@[k]@,
            decreases offers@.len() - i,
        {
            shown.push(offers[i].as_offer());
            i = i + 1;
        }
        proof {
            assert(offers_view(shown@) =~= snapshots_view(offers@));
        }
        let deliberates = match self.customer_mode {
            CustomerMode::Individual => false,
            CustomerMode::Group => true,
        };
        match find_agent(&world.customers, id) {
            Some(k) => Some(
                customer_choice_prompt(
                    &world.customers[k].1,
                    world.day,
                    shown.as_slice(),
                    deliberates,
                ),
            ),
            None => None,
        }
    }

    /// What a customer picks by their answer: the offer that it names, else the best one.
    pub fn pick(&self, text: &str, offers: &Vec<FirmOfferSnapshot>) -> (r: usize)
        ensures
            r == picked(
                choice_of(answer_fields(text@), text@, offers@.len()),
                snapshots_view(offers@),
            ),
            offers@.len() > 0 ==> r < offers@.len(),
    {
        proof {
            if offers@.len() > 0 {
                pick_is_an_offer(text@, snapshots_view(offers@));
            }
        }
        pick_or_best(parse_customer_choice(text, offers.len()), offers)
    }

    /// Where all customers go. `picks` are those of the customers asked, in that order; `keys`
    /// holds a number drawn for each offer, group by group.
    pub fn settle(
        &self,
        world: &MarketWorld,
        offers: &Vec<FirmOfferSnapshot>,
        picks: &Vec<usize>,
        keys: &Vec<Vec<u32>>,
    ) -> (r: Vec<Choice>)
        requires
            world@.customers.len() <= u32::MAX,
            offers@.len() > 0 ==> picks@.len() == asked_ids(
                world@.customers,
                self.customer_mode,
            ).len(),
            forall|i: int| 0 <= i < picks@.len() ==> #[trigger] picks@[i] < offers@.len(),
            self.customer_mode == CustomerMode::Group ==> keys@.len() == group_list(
                world@.customers,
            ).len(),
            forall|i: int| 0 <= i < keys@.len() ==> (#[trigger] keys@[i])@.len() == offers@.len(),
        ensures
            r@ == settled(
                world@.customers,
                self.customer_mode,
                snapshots_view(offers@),
                picks@,
                keys_view(keys@),
            ),
    {
        if offers.len() == 0 {
            return Vec::new();
        }
        match self.customer_mode {
            CustomerMode::Individual => {
                proof {
                    assert(picks@.take(picks@.len() as int) =~= picks@);
                }
                settle_own(&self.asked(world), offers, picks)
            },
            CustomerMode::Group => {
                let groups = self.groups(world);
                let alone = solo(&world.customers);
                let mut r = settle_own(&alone, offers, picks);
                let theirs = part(picks, alone.len(), picks.len());
                proof {
                    assert(theirs@ =~= picks@.skip(alone@.len() as int));
                }
                let mut more = settle_groups(&world.customers, &groups, offers, &theirs, keys);
                r.append(&mut more);
                r
            },
        }
    }
}

/// The numbers drawn for the groups.
pub open spec fn keys_view(keys: Seq<Vec<u32>>) -> Seq<Seq<u32>> {
    keys.map_values(|k: Vec<u32>| k@)
}

/// The members of the first groups are no more than those of all.
proof fn lemma_members_grow(customers: Seq<(AgentId, CustomerView)>, groups: Seq<u64>, k: int)
    requires
        0 <= k <= groups.len(),
    ensures
        members_of_all(customers, groups.take(k)).len() <= members_of_all(customers, groups).len(),
    decreases groups.len(),
{
    if k < groups.len() {
        lemma_members_grow(customers, groups.drop_last(), k);
        assert(groups.drop_last().take(k) =~= groups.take(k));
    } else {
        assert(groups.take(k) =~= groups);
    }
}

/// A part of a list.
fn part(v: &Vec<usize>, from: usize, to: usize) -> (r: Vec<usize>)
    requires
        from <= to <= v@.len(),
    ensures
        r@ == v@.subrange(from as int, to as int),
{
    let mut r: Vec<usize> = Vec::new();
    let mut i: usize = from;
    while i < to
        invariant
            from <= i <= to <= v@.len(),
            r@ =~= v@.subrange(from as int, i as int),
        decreases to - i,
    {
        r.push(v[i]);
        i = i + 1;
    }
    r
}

/// Numbers go up.
pub open spec fn rising(s: Seq<u64>) -> bool {
    forall|i: int, j: int| 0 <= i < j < s.len() ==> s[i] < s[j]
}

/// A number put among increasing numbers leaves them increasing, and is there; the others are
/// those that were there.
pub proof fn lemma_with_number(s: Seq<u64>, g: u64)
    requires
        rising(s),
    ensures
        rising(with_number(s, g)),
        with_number(s, g).contains(g),
        forall|h: u64| with_number(s, g).contains(h) <==> (h == g || s.contains(h)),
    decreases s.len(),
{
    let r = with_number(s, g);
    if s.len() == 0 {
        assert(r[0] == g);
    } else if s.last() == g {
        assert(r[s.len() - 1] == g);
    } else if s.last() < g {
        assert(r[s.len() as int] == g);
        assert forall|h: u64| r.contains(h) <==> (h == g || s.contains(h)) by {
            if s.contains(h) {
                let i = choose|i: int| 0 <= i < s.len() && s[i] == h;
                assert(r[i] == h);
            }
        }
    } else {
        let rest = s.drop_last();
        lemma_with_number(rest, g);
        let q = with_number(rest, g);
        assert(r =~= q.push(s.last()));
        assert forall|h: u64| r.contains(h) <==> (h == g || s.contains(h)) by {
            if q.contains(h) {
                let i = choose|i: int| 0 <= i < q.len() && q[i] == h;
                assert(r[i] == h);
            }
            if r.contains(h) {
                let i = choose|i: int| 0 <= i < r.len() && r[i] == h;
                if i < q.len() {
                    assert(q[i] == h);
                }
            }
            if h == s.last() {
                assert(r[q.len() as int] == h);
            }
            if rest.contains(h) {
                let i = choose|i: int| 0 <= i < rest.len() && rest[i] == h;
                assert(s[i] == h);
            }
            if s.contains(h) {
                let i = choose|i: int| 0 <= i < s.len() && s[i] == h;
                if i < rest.len() {
                    assert(rest[i] == h);
                }
            }
        }
        assert forall|i: int| 0 <= i < q.len() implies q[i] < s.last() by {
            assert(q.contains(q[i]));
            if q[i] != g {
                assert(rest.contains(q[i]));
                let k = choose|k: int| 0 <= k < rest.len() && rest[k] == q[i];
                assert(s[k] < s[s.len() - 1]);
            }
        }
        assert forall|i: int, j: int| 0 <= i < j < r.len() implies r[i] < r[j] by {
            assert(r[i] == q[i]);
        }
    }
}

/// Every group is listed once, by increasing number, and no other number is listed.
pub proof fn groups_are_listed(customers: Seq<(AgentId, CustomerView)>)
    ensures
        rising(group_list(customers)),
        forall|g: u64|
            group_list(customers).contains(g) <==> #[trigger] members_of(customers, g).len() > 0,
    decreases customers.len(),
{
    if customers.len() > 0 {
        let rest = customers.drop_last();
        groups_are_listed(rest);
        match customers.last().1.group {
            Some(h) => {
                lemma_with_number(group_list(rest), h);
                assert forall|g: u64|
                    group_list(customers).contains(g) <==> #[trigger] members_of(
                        customers,
                        g,
                    ).len() > 0 by {
                    assert(group_list(rest).contains(g) <==> members_of(rest, g).len() > 0);
                }
            },
            None => {
                assert forall|g: u64|
                    group_list(customers).contains(g) <==> #[trigger] members_of(
                        customers,
                        g,
                    ).len() > 0 by {
                    assert(group_list(rest).contains(g) <==> members_of(rest, g).len() > 0);
                }
            },
        }
    }
}

/// One more customer makes one more member of their group, and of no other.
proof fn lemma_member_added(customers: Seq<(AgentId, CustomerView)>, groups: Seq<u64>)
    requires
        customers.len() > 0,
        rising(groups),
    ensures
        ({
            let (id, c) = customers.last();
            let before = members_of_all(customers.drop_last(), groups).to_multiset();
            let after = members_of_all(customers, groups).to_multiset();
            if c.group is Some && groups.contains(c.group->0) {
                after == before.insert(id)
            } else {
                after == before
            }
        }),
    decreases groups.len(),
{
    broadcast use vstd::seq_lib::group_to_multiset_ensures;

    let (id, c) = customers.last();
    let rest = customers.drop_last();
    if groups.len() > 0 {
        let g = groups.last();
        let fewer = groups.drop_last();
        assert forall|i: int, j: int| 0 <= i < j < fewer.len() implies fewer[i] < fewer[j] by {
            assert(groups[i] < groups[j]);
        }
        lemma_member_added(customers, fewer);
        vstd::seq_lib::lemma_multiset_commutative(
            members_of_all(customers, fewer),
            members_of(customers, g),
        );
        vstd::seq_lib::lemma_multiset_commutative(members_of_all(rest, fewer), members_of(rest, g));
        if c.group is Some {
            let h = c.group->0;
            if fewer.contains(h) {
                let i = choose|i: int| 0 <= i < fewer.len() && fewer[i] == h;
                assert(groups[i] < groups[groups.len() - 1]);
                assert(groups.contains(h)) by {
                    assert(groups[i] == h);
                }
            } else if h == g {
                assert(groups[groups.len() - 1] == h);
                assert(groups.contains(h));
            } else if groups.contains(h) {
                let i = choose|i: int| 0 <= i < groups.len() && groups[i] == h;
                assert(fewer[i] == h);
            }
            if h == g {
                assert(members_of(customers, g) == members_of(rest, g).push(id));
            }
        }
        let a = members_of_all(rest, fewer).to_multiset();
        let b = members_of(rest, g).to_multiset();
        assert(a.insert(id).add(b) =~= a.add(b).insert(id));
        assert(a.add(b.insert(id)) =~= a.add(b).insert(id));
    }
}

/// A group without members adds none.
proof fn lemma_empty_group(customers: Seq<(AgentId, CustomerView)>, groups: Seq<u64>, g: u64)
    requires
        rising(groups),
        groups.contains(g) || members_of(customers, g).len() == 0,
    ensures
        members_of_all(customers, with_number(groups, g)) == members_of_all(customers, groups),
    decreases groups.len(),
{
    let more = with_number(groups, g);
    if groups.len() == 0 {
        assert(more.drop_last() =~= groups);
        assert(members_of_all(customers, more) =~= members_of_all(customers, groups));
    } else if groups.last() == g {
    } else if groups.last() < g {
        if groups.contains(g) {
            let i = choose|i: int| 0 <= i < groups.len() && groups[i] == g;
            assert(i < groups.len() - 1 ==> groups[i] < groups[groups.len() - 1]);
        }
        assert(more.drop_last() =~= groups);
        assert(members_of_all(customers, more) =~= members_of_all(customers, groups));
    } else {
        let fewer = groups.drop_last();
        assert forall|i: int, j: int| 0 <= i < j < fewer.len() implies fewer[i] < fewer[j] by {
            assert(groups[i] < groups[j]);
        }
        if groups.contains(g) {
            let i = choose|i: int| 0 <= i < groups.len() && groups[i] == g;
            assert(fewer[i] == g);
        }
        lemma_empty_group(customers, fewer, g);
        assert(more.drop_last() =~= with_number(fewer, g));
    }
}

/// Every customer is asked exactly once.
pub proof fn everyone_is_asked_once(customers: Seq<(AgentId, CustomerView)>, mode: CustomerMode)
    ensures
        asked_ids(customers, mode).to_multiset() == ids_of(customers).to_multiset(),
    decreases customers.len(),
{
    broadcast use vstd::seq_lib::group_to_multiset_ensures;

    if mode == CustomerMode::Group {
        if customers.len() == 0 {
            assert(asked_ids(customers, mode) =~= ids_of(customers));
        } else {
            let rest = customers.drop_last();
            let (id, c) = customers.last();
            everyone_is_asked_once(rest, mode);
            assert(ids_of(customers) =~= ids_of(rest).push(id));
            groups_are_listed(rest);
            let groups = group_list(rest);
            let now = group_list(customers);
            match c.group {
                Some(g) => {
                    assert(groups.contains(g) <==> members_of(rest, g).len() > 0);
                    lemma_with_number(groups, g);
                    lemma_empty_group(rest, groups, g);
                },
                None => {},
            }
            lemma_member_added(customers, now);
            vstd::seq_lib::lemma_multiset_commutative(
                solo_ids(customers),
                members_of_all(customers, now),
            );
            vstd::seq_lib::lemma_multiset_commutative(
                solo_ids(rest),
                members_of_all(rest, groups),
            );
            let a = solo_ids(rest).to_multiset();
            let b = members_of_all(rest, groups).to_multiset();
            assert(a.insert(id).add(b) =~= a.add(b).insert(id));
            assert(a.add(b.insert(id)) =~= a.add(b).insert(id));
        }
    }
}

/// The picks and the drawn numbers are those that the customers and the offers call for.
pub open spec fn answers_fit(
    customers: Seq<(AgentId, CustomerView)>,
    mode: CustomerMode,
    n_offers: nat,
    picks: Seq<usize>,
) -> bool {
    &&& customers.len() <= u32::MAX
    &&& picks.len() == asked_ids(customers, mode).len()
    &&& forall|i: int| 0 <= i < picks.len() ==> #[trigger] picks[i] < n_offers
}

/// Some offer is that of a restaurant.
pub open spec fn is_offered(offers: Seq<OfferView>, firm: u64) -> bool {
    exists|k: int| 0 <= k < offers.len() && (#[trigger] offers[k]).firm == firm
}

/// Every customer goes to exactly one restaurant, and to one that made an offer: the choices
/// are made by those who were asked, in that order.
pub proof fn everyone_goes_to_an_offer(
    customers: Seq<(AgentId, CustomerView)>,
    mode: CustomerMode,
    offers: Seq<OfferView>,
    picks: Seq<usize>,
    keys: Seq<Seq<u32>>,
)
    requires
        offers.len() > 0,
        answers_fit(customers, mode, offers.len(), picks),
    ensures
        ({
            let r = settled(customers, mode, offers, picks, keys);
            &&& r.len() == asked_ids(customers, mode).len()
            &&& forall|j: int|
                0 <= j < r.len() ==> (#[trigger] r[j]).0 == asked_ids(customers, mode)[j].0
                    && is_offered(offers, r[j].1)
        }),
{
    let r = settled(customers, mode, offers, picks, keys);
    let ids = asked_ids(customers, mode);
    match mode {
        CustomerMode::Individual => {
            assert forall|j: int| 0 <= j < r.len() implies (#[trigger] r[j]).0 == ids[j].0
                && is_offered(offers, r[j].1) by {
                assert(offers[picks[j] as int].firm == r[j].1);
            }
        },
        CustomerMode::Group => {
            let solo = solo_ids(customers);
            let groups = group_list(customers);
            let a = solo.len() as int;
            let own = own_choices(solo, offers, picks.take(a));
            let theirs = picks.skip(a);
            assert forall|i: int| 0 <= i < theirs.len() implies #[trigger] theirs[i] < offers.len() by {
                assert(theirs[i] == picks[i + a]);
            }
            lemma_groups_go(customers, groups, offers, theirs, keys);
            assert forall|j: int| 0 <= j < r.len() implies (#[trigger] r[j]).0 == ids[j].0
                && is_offered(offers, r[j].1) by {
                if j < a {
                    assert(r[j] == own[j]);
                    assert(offers[picks.take(a)[j] as int].firm == r[j].1);
                } else {
                    let all = all_group_choices(customers, groups, offers, theirs, keys);
                    assert(r[j] == all[j - a]);
                }
            }
        },
    }
}

/// The members of groups go to offers, in order.
proof fn lemma_groups_go(
    customers: Seq<(AgentId, CustomerView)>,
    groups: Seq<u64>,
    offers: Seq<OfferView>,
    picks: Seq<usize>,
    keys: Seq<Seq<u32>>,
)
    requires
        customers.len() <= u32::MAX,
        picks.len() == members_of_all(customers, groups).len(),
        forall|i: int| 0 <= i < picks.len() ==> #[trigger] picks[i] < offers.len(),
    ensures
        ({
            let r = all_group_choices(customers, groups, offers, picks, keys);
            let ids = members_of_all(customers, groups);
            &&& r.len() == ids.len()
            &&& forall|j: int|
                0 <= j < r.len() ==> (#[trigger] r[j]).0 == ids[j].0 && is_offered(offers, r[j].1)
        }),
    decreases groups.len(),
{
    if groups.len() > 0 {
        let members = members_of(customers, groups.last());
        let k = picks.len() - members.len();
        let own = picks.skip(k);
        let rest = picks.take(k);
        lemma_members_within(customers, groups.last());
        assert forall|i: int| 0 <= i < rest.len() implies #[trigger] rest[i] < offers.len() by {
            assert(rest[i] == picks[i]);
        }
        assert forall|i: int| 0 <= i < own.len() implies #[trigger] own[i] < offers.len() by {
            assert(own[i] == picks[i + k]);
        }
        lemma_groups_go(customers, groups.drop_last(), offers, rest, keys.drop_last());
        lemma_group_places(own, offers.len(), keys.last());
        let r = all_group_choices(customers, groups, offers, picks, keys);
        let first = all_group_choices(
            customers,
            groups.drop_last(),
            offers,
            rest,
            keys.drop_last(),
        );
        let ids = members_of_all(customers, groups);
        let places = spread(seats(votes_of(own, offers.len()), members.len(), keys.last()));
        assert forall|j: int| 0 <= j < r.len() implies (#[trigger] r[j]).0 == ids[j].0
            && is_offered(offers, r[j].1) by {
            if j < k {
                assert(r[j] == first[j]);
            } else {
                assert(0 <= places[j - k] < offers.len());
                assert(offers[places[j - k]].firm == r[j].1);
            }
        }
    }
}

/// How many choices are for a restaurant.
pub open spec fn chosen(choices: Seq<Choice>, firm: u64) -> nat
    decreases choices.len(),
{
    if choices.len() == 0 {
        0
    } else {
        chosen(choices.drop_last(), firm) + (if choices.last().1 == firm {
            1nat
        } else {
            0nat
        })
    }
}

/// How often a place is among places.
spec fn times_among(places: Seq<int>, k: int) -> nat
    decreases places.len(),
{
    if places.len() == 0 {
        0
    } else {
        times_among(places.drop_last(), k) + (if places.last() == k {
            1nat
        } else {
            0nat
        })
    }
}

/// Places put together.
proof fn lemma_times_among_joined(a: Seq<int>, b: Seq<int>, k: int)
    ensures
        times_among(a + b, k) == times_among(a, k) + times_among(b, k),
    decreases b.len(),
{
    if b.len() == 0 {
        assert(a + b =~= a);
    } else {
        lemma_times_among_joined(a, b.drop_last(), k);
        assert((a + b).drop_last() =~= a + b.drop_last());
    }
}

/// One place over and over.
proof fn lemma_times_among_repeated(n: nat, place: int, k: int)
    ensures
        times_among(Seq::new(n, |x: int| place), k) == if place == k {
            n
        } else {
            0
        },
    decreases n,
{
    let s = Seq::new(n, |x: int| place);
    if n > 0 {
        lemma_times_among_repeated((n - 1) as nat, place, k);
        assert(s.drop_last() =~= Seq::new((n - 1) as nat, |x: int| place));
    }
}

/// Every offer is among the places as often as it has seats.
proof fn lemma_spread_counts(s: Seq<nat>, k: int)
    ensures
        times_among(spread(s), k) == if 0 <= k < s.len() {
            s[k]
        } else {
            0
        },
    decreases s.len(),
{
    if s.len() > 0 {
        let last = Seq::new(s.last(), |x: int| s.len() - 1);
        lemma_spread_counts(s.drop_last(), k);
        lemma_times_among_joined(spread(s.drop_last()), last, k);
        lemma_times_among_repeated(s.last(), s.len() - 1, k);
        assert(last =~= Seq::new(s.last(), |x: int| s.len() - 1));
    }
}

/// Choices for an offer are the places that are its own.
proof fn lemma_chosen_places(
    members: Seq<AgentId>,
    offers: Seq<OfferView>,
    places: Seq<int>,
    k: int,
    n: nat,
)
    requires
        n <= places.len(),
        n <= members.len(),
        0 <= k < offers.len(),
        forall|i: int| 0 <= i < places.len() ==> 0 <= #[trigger] places[i] < offers.len(),
        forall|i: int, j: int|
            0 <= i < j < offers.len() ==> (#[trigger] offers[i]).firm != (#[trigger] offers[j]).firm,
    ensures
        chosen(
            Seq::new(n, |i: int| (members[i].0, offers[places[i]].firm)),
            offers[k].firm,
        ) == times_among(places.take(n as int), k),
    decreases n,
{
    let all = Seq::new(n, |i: int| (members[i].0, offers[places[i]].firm));
    if n > 0 {
        let m = (n - 1) as nat;
        lemma_chosen_places(members, offers, places, k, m);
        assert(all.drop_last() =~= Seq::new(m, |i: int| (members[i].0, offers[places[i]].firm)));
        assert(places.take(n as int).drop_last() =~= places.take(m as int));
        let p = places[n - 1];
        assert(places.take(n as int).last() == p);
        if p < k {
            assert(offers[p].firm != offers[k].firm);
        } else if k < p {
            assert(offers[k].firm != offers[p].firm);
        }
    }
}

/// As many members of a group go to a restaurant as picked it.
pub proof fn groups_go_where_they_voted(
    members: Seq<AgentId>,
    offers: Seq<OfferView>,
    picks: Seq<usize>,
    keys: Seq<u32>,
    k: int,
)
    requires
        picks.len() == members.len() <= u32::MAX,
        forall|i: int| 0 <= i < picks.len() ==> #[trigger] picks[i] < offers.len(),
        forall|i: int, j: int|
            0 <= i < j < offers.len() ==> (#[trigger] offers[i]).firm != (#[trigger] offers[j]).firm,
        0 <= k < offers.len(),
    ensures
        chosen(group_choices(members, offers, picks, keys), offers[k].firm) == times_picked(
            picks,
            k,
        ),
{
    let votes = votes_of(picks, offers.len());
    let s = seats(votes, members.len(), keys);
    let places = spread(s);
    lemma_all_votes(picks, offers.len());
    lemma_group_places(picks, offers.len(), keys);
    lemma_chosen_places(members, offers, places, k, members.len());
    assert(places.take(members.len() as int) =~= places);
    lemma_spread_counts(s, k);
    seats_follow_votes(votes, keys, k);
    lemma_times_picked(picks, k);
}

} // verus!
