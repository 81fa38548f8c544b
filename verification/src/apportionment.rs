//! How the members of a group are spread over the restaurants that they voted for.
use vstd::prelude::*;

verus! {

/// All votes.
pub open spec fn vote_sum(votes: Seq<u32>) -> nat
    decreases votes.len(),
{
    if votes.len() == 0 {
        0
    } else {
        vote_sum(votes.drop_last()) + votes.last() as nat
    }
}

/// The whole part of a proportional share of `n`.
pub open spec fn share(votes: Seq<u32>, n: nat, i: int) -> nat {
    (n * votes[i] as nat) / vote_sum(votes)
}

/// What the whole part leaves over, as a multiple of one by the number of votes.
pub open spec fn remainder(votes: Seq<u32>, n: nat, i: int) -> nat {
    (n * votes[i] as nat) % vote_sum(votes)
}

/// The whole parts of the first `k` shares.
pub open spec fn share_sum(votes: Seq<u32>, n: nat, k: nat) -> nat
    decreases k,
{
    if k == 0 {
        0
    } else {
        share_sum(votes, n, (k - 1) as nat) + share(votes, n, k - 1)
    }
}

/// Restaurant `j` is served before `i`: its remainder is larger; or they are equal and it
/// drew a smaller key; or these are equal too and it comes first.
pub open spec fn served_before(votes: Seq<u32>, n: nat, keys: Seq<u32>, j: int, i: int) -> bool {
    let a = remainder(votes, n, j);
    let b = remainder(votes, n, i);
    a > b || (a == b && (keys[j] < keys[i] || (keys[j] == keys[i] && j < i)))
}

/// How many of the first `k` restaurants are served before `i`.
pub open spec fn count_before(votes: Seq<u32>, n: nat, keys: Seq<u32>, i: int, k: nat) -> nat
    decreases k,
{
    if k == 0 {
        0
    } else {
        count_before(votes, n, keys, i, (k - 1) as nat) + (if served_before(
            votes,
            n,
            keys,
            k - 1,
            i,
        ) {
            1nat
        } else {
            0nat
        })
    }
}

/// How many restaurants are served before `i`.
pub open spec fn rank(votes: Seq<u32>, n: nat, keys: Seq<u32>, i: int) -> nat {
    count_before(votes, n, keys, i, votes.len())
}

/// How many of `n` the whole parts leave over.
pub open spec fn leftover(votes: Seq<u32>, n: nat) -> int {
    n - share_sum(votes, n, votes.len())
}

/// The method of the largest remainder: everyone gets the whole part of their share, and what
/// is left over goes one by one to those who are served first. Without votes nobody gets
/// anything.
pub open spec fn seats(votes: Seq<u32>, n: nat, keys: Seq<u32>) -> Seq<nat> {
    Seq::new(
        votes.len(),
        |i: int|
            if vote_sum(votes) == 0 {
                0
            } else if rank(votes, n, keys, i) < leftover(votes, n) {
                share(votes, n, i) + 1
            } else {
                share(votes, n, i)
            },
    )
}

/// The sum of numbers of seats.
pub open spec fn seat_sum(s: Seq<nat>) -> nat
    decreases s.len(),
{
    if s.len() == 0 {
        0
    } else {
        seat_sum(s.drop_last()) + s.last()
    }
}

/// The votes of the first are a part of all.
proof fn lemma_vote_sum_grows(votes: Seq<u32>, k: int)
    requires
        0 <= k <= votes.len(),
    ensures
        vote_sum(votes.take(k)) <= vote_sum(votes),
    decreases votes.len(),
{
    if k < votes.len() {
        lemma_vote_sum_grows(votes.drop_last(), k);
        assert(votes.drop_last().take(k) =~= votes.take(k));
    } else {
        assert(votes.take(k) =~= votes);
    }
}

/// The whole parts of some shares are no more than these shares.
proof fn lemma_share_sum_bound(votes: Seq<u32>, n: nat, k: nat)
    requires
        k <= votes.len(),
        vote_sum(votes) > 0,
    ensures
        share_sum(votes, n, k) * vote_sum(votes) <= n * vote_sum(votes.take(k as int)),
        n * vote_sum(votes.take(k as int)) <= share_sum(votes, n, k) * vote_sum(votes) + k * (
        vote_sum(votes) - 1),
    decreases k,
{
    let t = vote_sum(votes);
    if k > 0 {
        lemma_share_sum_bound(votes, n, (k - 1) as nat);
        let v = votes[k - 1] as nat;
        let before = vote_sum(votes.take(k - 1));
        assert(votes.take(k as int).drop_last() =~= votes.take(k - 1));
        assert(vote_sum(votes.take(k as int)) == before + v);
        vstd::arithmetic::div_mod::lemma_fundamental_div_mod((n * v) as int, t as int);
        let q = share(votes, n, k - 1);
        let r = remainder(votes, n, k - 1);
        let s = share_sum(votes, n, (k - 1) as nat);
        assert(n * v == t * q + r && 0 <= r <= t - 1);
        assert((s + q) * t == s * t + q * t) by (nonlinear_arith);
        assert(n * (before + v) == n * before + n * v) by (nonlinear_arith);
        assert(q * t == t * q) by (nonlinear_arith);
        assert(k * (t - 1) == (k - 1) * (t - 1) + (t - 1)) by (nonlinear_arith);
    } else {
        assert(votes.take(0).len() == 0);
        assert(n * 0 == 0);
        assert(0 * t == 0);
    }
}

/// What is left over is neither negative nor as much as there are restaurants.
pub proof fn lemma_leftover(votes: Seq<u32>, n: nat)
    requires
        vote_sum(votes) > 0,
    ensures
        0 <= leftover(votes, n) < votes.len(),
{
    let t = vote_sum(votes);
    let s = share_sum(votes, n, votes.len());
    lemma_share_sum_bound(votes, n, votes.len());
    assert(votes.take(votes.len() as int) =~= votes);
    assert(s <= n) by (nonlinear_arith)
        requires s * t <= n * t, t > 0;
    let m = votes.len();
    assert(m > 0);
    assert(n - s < m) by (nonlinear_arith)
        requires n * t <= s * t + m * (t - 1), t > 0, m > 0;
}

/// Being served first is an order.
proof fn lemma_served_order(votes: Seq<u32>, n: nat, keys: Seq<u32>, a: int, b: int, c: int)
    ensures
        a != b ==> served_before(votes, n, keys, a, b) != served_before(votes, n, keys, b, a),
        served_before(votes, n, keys, a, b) && served_before(votes, n, keys, b, c)
            ==> served_before(votes, n, keys, a, c),
        !served_before(votes, n, keys, a, a),
{
}

/// Who is served before another has fewer before them.
pub proof fn lemma_count_before_ordered(
    votes: Seq<u32>,
    n: nat,
    keys: Seq<u32>,
    a: int,
    b: int,
    k: nat,
)
    requires
        served_before(votes, n, keys, a, b),
    ensures
        count_before(votes, n, keys, a, k) <= count_before(votes, n, keys, b, k),
        0 <= a < k ==> count_before(votes, n, keys, a, k) < count_before(votes, n, keys, b, k),
        count_before(votes, n, keys, a, k) <= k,
        0 <= a < k ==> count_before(votes, n, keys, a, k) < k,
    decreases k,
{
    if k > 0 {
        lemma_count_before_ordered(votes, n, keys, a, b, (k - 1) as nat);
        lemma_served_order(votes, n, keys, k - 1, a, b);
    }
}

/// No more are served before one than there are others.
proof fn lemma_count_before_bound(votes: Seq<u32>, n: nat, keys: Seq<u32>, i: int, k: nat)
    ensures
        count_before(votes, n, keys, i, k) <= k,
        0 <= i < k ==> count_before(votes, n, keys, i, k) < k,
    decreases k,
{
    if k > 0 {
        lemma_count_before_bound(votes, n, keys, i, (k - 1) as nat);
    }
}

/// How many of the first `k` restaurants have a rank below `limit`.
spec fn served(votes: Seq<u32>, n: nat, keys: Seq<u32>, limit: int, k: nat) -> Set<int> {
    Set::new(|i: int| 0 <= i < k && rank(votes, n, keys, i) < limit)
}

/// As many restaurants have a rank below a limit as the limit says.
proof fn lemma_served_count(votes: Seq<u32>, n: nat, keys: Seq<u32>, limit: nat)
    requires
        limit <= votes.len(),
    ensures
        served(votes, n, keys, limit as int, votes.len()).finite(),
        served(votes, n, keys, limit as int, votes.len()).len() == limit,
{
    let m = votes.len() as int;
    let f = |i: int| rank(votes, n, keys, i) as int;
    let all = vstd::set_lib::set_int_range(0, m);
    vstd::set_lib::lemma_int_range(0, m);
    assert forall|i: int, j: int| all.contains(i) && all.contains(j) && f(i) == f(j) implies i
        == j by {
        if i != j {
            lemma_served_order(votes, n, keys, i, j, i);
            if served_before(votes, n, keys, i, j) {
                lemma_count_before_ordered(votes, n, keys, i, j, m as nat);
            } else {
                lemma_count_before_ordered(votes, n, keys, j, i, m as nat);
            }
        }
    }
    let image = all.map(f);
    assert(vstd::relations::injective_on(f, all));
    vstd::set_lib::lemma_map_size(all, image, f);
    assert(image.subset_of(all)) by {
        assert forall|y: int| image.contains(y) implies all.contains(y) by {
            let i = choose|i: int| all.contains(i) && f(i) == y;
            lemma_count_before_bound(votes, n, keys, i, m as nat);
        }
    }
    vstd::set_lib::lemma_subset_equality(image, all);
    let low = vstd::set_lib::set_int_range(0, limit as int);
    vstd::set_lib::lemma_int_range(0, limit as int);
    let first = served(votes, n, keys, limit as int, m as nat);
    assert(first.subset_of(all));
    vstd::set_lib::lemma_set_subset_finite(all, first);
    assert(vstd::relations::injective_on(f, first));
    assert(first.map(f) =~= low) by {
        assert forall|y: int| low.contains(y) implies first.map(f).contains(y) by {
            assert(image.contains(y));
            let i = choose|i: int| all.contains(i) && f(i) == y;
            assert(first.contains(i));
        }
    }
    vstd::set_lib::lemma_map_size(first, low, f);
}

/// The seats of the first `k` restaurants are their whole parts and one for each that is
/// served.
proof fn lemma_seat_sum(votes: Seq<u32>, n: nat, keys: Seq<u32>, k: nat)
    requires
        k <= votes.len(),
        vote_sum(votes) > 0,
    ensures
        served(votes, n, keys, leftover(votes, n), k).finite(),
        seat_sum(seats(votes, n, keys).take(k as int)) == share_sum(votes, n, k) + served(
            votes,
            n,
            keys,
            leftover(votes, n),
            k,
        ).len(),
    decreases k,
{
    let limit = leftover(votes, n);
    let all = seats(votes, n, keys);
    let now = served(votes, n, keys, limit, k);
    if k > 0 {
        lemma_seat_sum(votes, n, keys, (k - 1) as nat);
        let before = served(votes, n, keys, limit, (k - 1) as nat);
        assert(all.take(k as int).drop_last() =~= all.take(k - 1));
        if rank(votes, n, keys, k - 1) < limit {
            assert(now =~= before.insert(k - 1));
        } else {
            assert(now =~= before);
        }
    } else {
        assert(now =~= Set::empty());
    }
}

/// Every member of a group gets a seat, if anyone voted.
pub proof fn seats_add_up(votes: Seq<u32>, n: nat, keys: Seq<u32>)
    requires
        vote_sum(votes) > 0,
    ensures
        seat_sum(seats(votes, n, keys)) == n,
{
    let m = votes.len();
    lemma_leftover(votes, n);
    lemma_served_count(votes, n, keys, leftover(votes, n) as nat);
    lemma_seat_sum(votes, n, keys, m);
    assert(seats(votes, n, keys).take(m as int) =~= seats(votes, n, keys));
}

/// Of two restaurants the one with the larger remainder is not the one that gets less than
/// the whole part of its share and one, while the other gets that.
pub proof fn larger_remainder_is_served_first(
    votes: Seq<u32>,
    n: nat,
    keys: Seq<u32>,
    i: int,
    j: int,
)
    requires
        0 <= i < votes.len(),
        0 <= j < votes.len(),
        vote_sum(votes) > 0,
        remainder(votes, n, i) > remainder(votes, n, j),
        seats(votes, n, keys)[j] == share(votes, n, j) + 1,
    ensures
        seats(votes, n, keys)[i] == share(votes, n, i) + 1,
{
    lemma_count_before_ordered(votes, n, keys, i, j, votes.len());
}

/// Where there are as many seats as votes, everyone sits where they voted.
pub proof fn seats_follow_votes(votes: Seq<u32>, keys: Seq<u32>, i: int)
    requires
        0 <= i < votes.len(),
    ensures
        seats(votes, vote_sum(votes), keys)[i] == votes[i],
{
    let t = vote_sum(votes);
    if t > 0 {
        lemma_whole_shares(votes, votes.len());
        assert(votes.take(votes.len() as int) =~= votes);
        vstd::arithmetic::div_mod::lemma_div_multiples_vanish(votes[i] as int, t as int);
    } else {
        lemma_vote_within_sum(votes, i);
    }
}

/// Shares of as many seats as votes are whole.
proof fn lemma_whole_shares(votes: Seq<u32>, k: nat)
    requires
        k <= votes.len(),
        vote_sum(votes) > 0,
    ensures
        share_sum(votes, vote_sum(votes), k) == vote_sum(votes.take(k as int)),
    decreases k,
{
    let t = vote_sum(votes);
    if k > 0 {
        lemma_whole_shares(votes, (k - 1) as nat);
        assert(votes.take(k as int).drop_last() =~= votes.take(k - 1));
        vstd::arithmetic::div_mod::lemma_div_multiples_vanish(votes[k - 1] as int, t as int);
    }
}

/// No vote is more than all.
proof fn lemma_vote_within_sum(votes: Seq<u32>, i: int)
    requires
        0 <= i < votes.len(),
    ensures
        votes[i] <= vote_sum(votes),
    decreases votes.len(),
{
    if i < votes.len() - 1 {
        lemma_vote_within_sum(votes.drop_last(), i);
    }
}

/// A group that agrees goes to one restaurant together.
pub proof fn unanimous_group_stays_together(votes: Seq<u32>, n: nat, keys: Seq<u32>, i: int)
    requires
        0 <= i < votes.len(),
        votes[i] > 0,
        votes[i] == vote_sum(votes),
    ensures
        seats(votes, n, keys)[i] == n,
        forall|j: int| 0 <= j < votes.len() && j != i ==> #[trigger] seats(votes, n, keys)[j] == 0,
{
    let t = vote_sum(votes);
    lemma_leftover(votes, n);
    vstd::arithmetic::div_mod::lemma_div_multiples_vanish(n as int, t as int);
    assert(t * n == n * t) by (nonlinear_arith);
    assert(share(votes, n, i) == n);
    lemma_share_within_sum(votes, n, votes.len(), i);
    assert forall|j: int| 0 <= j < votes.len() && j != i implies #[trigger] seats(
        votes,
        n,
        keys,
    )[j] == 0 by {
        lemma_two_votes_within_sum(votes, i, j);
        assert(n * 0 == 0);
        assert(0nat / t == 0) by (nonlinear_arith)
            requires t > 0;
    }
}

/// A share is a part of the sum.
proof fn lemma_share_within_sum(votes: Seq<u32>, n: nat, k: nat, i: int)
    requires
        0 <= i < k,
    ensures
        share(votes, n, i) <= share_sum(votes, n, k),
    decreases k,
{
    if i < k - 1 {
        lemma_share_within_sum(votes, n, (k - 1) as nat, i);
    }
}

/// Two restaurants' votes are no more than all.
proof fn lemma_two_votes_within_sum(votes: Seq<u32>, i: int, j: int)
    requires
        0 <= i < votes.len(),
        0 <= j < votes.len(),
        i != j,
    ensures
        votes[i] + votes[j] <= vote_sum(votes),
    decreases votes.len(),
{
    if i == votes.len() - 1 {
        lemma_vote_within_sum(votes.drop_last(), j);
    } else if j == votes.len() - 1 {
        lemma_vote_within_sum(votes.drop_last(), i);
    } else {
        lemma_two_votes_within_sum(votes.drop_last(), i, j);
    }
}

/// The seats of a list of numbers.
pub open spec fn counts_view(s: Seq<usize>) -> Seq<nat> {
    s.map_values(|k: usize| k as nat)
}

/// Spreads `n` members over restaurants in proportion to their votes, by the method of the
/// largest remainder. Among equal remainders the smaller of the drawn `keys` comes first.
pub fn apportion_seats(votes: &[u32], n: usize, keys: &[u32]) -> (r: Vec<usize>)
    requires
        vote_sum(votes@) <= u32::MAX,
        keys@.len() == votes@.len(),
    ensures
        counts_view(r@) == seats(votes@, n as nat, keys@),
{
    let m: usize = votes.len();
    let mut total: u128 = 0;
    let mut i: usize = 0;
    while i < m
        invariant
            i <= m == votes@.len(),
            vote_sum(votes@) <= u32::MAX,
            total == vote_sum(votes@.take(i as int)),
        decreases m - i,
    {
        proof {
            lemma_vote_sum_grows(votes@, i + 1);
            assert(votes@.take(i + 1).drop_last() =~= votes@.take(i as int));
        }
        total = total + votes[i] as u128;
        i = i + 1;
    }
    proof {
        assert(votes@.take(m as int) =~= votes@);
    }
    let mut r: Vec<usize> = Vec::new();
    if total == 0 {
        i = 0;
        while i < m
            invariant
                i <= m == votes@.len(),
                r@.len() == i,
                forall|k: int| 0 <= k < i ==> #[trigger] r@[k] == 0,
            decreases m - i,
        {
            r.push(0);
            i = i + 1;
        }
        proof {
            assert(counts_view(r@) =~= seats(votes@, n as nat, keys@));
        }
        return r;
    }
    proof {
        lemma_leftover(votes@, n as nat);
    }
    let mut remainders: Vec<u128> = Vec::new();
    let mut assigned: usize = 0;
    i = 0;
    while i < m
        invariant
            i <= m == votes@.len(),
            0 < total == vote_sum(votes@) <= u32::MAX,
            remainders@.len() == i,
            forall|k: int|
                0 <= k < i ==> #[trigger] remainders@[k] == remainder(votes@, n as nat, k),
            r@.len() == i,
            forall|k: int| 0 <= k < i ==> #[trigger] r@[k] == share(votes@, n as nat, k),
            assigned == share_sum(votes@, n as nat, i as nat),
            share_sum(votes@, n as nat, m as nat) <= n,
        decreases m - i,
    {
        proof {
            lemma_share_sum_grows(votes@, n as nat, (i + 1) as nat, m as nat);
            assert(n * votes@[i as int] <= 0x1_0000_0000_0000_0000 * 0x1_0000_0000)
                by (nonlinear_arith)
                requires n <= 0x1_0000_0000_0000_0000, votes@[i as int] <= 0x1_0000_0000;
        }
        let product: u128 = n as u128 * votes[i] as u128;
        r.push((product / total) as usize);
        remainders.push(product % total);
        assigned = assigned + (product / total) as usize;
        i = i + 1;
    }
    let rest: usize = n - assigned;
    i = 0;
    while i < m
        invariant
            i <= m == votes@.len() == keys@.len(),
            total == vote_sum(votes@) > 0,
            r@.len() == m == remainders@.len(),
            forall|k: int|
                0 <= k < m ==> #[trigger] remainders@[k] == remainder(votes@, n as nat, k),
            forall|k: int|
                0 <= k < i ==> #[trigger] r@[k] as nat == seats(votes@, n as nat, keys@)[k],
            forall|k: int| i <= k < m ==> #[trigger] r@[k] == share(votes@, n as nat, k),
            rest == leftover(votes@, n as nat),
        decreases m - i,
    {
        let mut before: usize = 0;
        let mut j: usize = 0;
        while j < m
            invariant
                i < m,
                j <= m == votes@.len() == keys@.len(),
                m == remainders@.len(),
                forall|k: int|
                    0 <= k < m ==> #[trigger] remainders@[k] == remainder(votes@, n as nat, k),
                before == count_before(votes@, n as nat, keys@, i as int, j as nat),
                before <= j,
            decreases m - j,
        {
            let a: u128 = remainders[j];
            let b: u128 = remainders[i];
            if a > b || (a == b && (keys[j] < keys[i] || (keys[j] == keys[i] && j < i))) {
                before = before + 1;
            }
            j = j + 1;
        }
        if before < rest {
            let k: usize = r[i];
            proof {
                lemma_share_within_sum(votes@, n as nat, m as nat, i as int);
            }
            r.set(i, k + 1);
        }
        i = i + 1;
    }
    proof {
        assert(counts_view(r@) =~= seats(votes@, n as nat, keys@));
    }
    r
}

/// More whole parts are no smaller a sum.
proof fn lemma_share_sum_grows(votes: Seq<u32>, n: nat, j: nat, k: nat)
    requires
        j <= k,
    ensures
        share_sum(votes, n, j) <= share_sum(votes, n, k),
    decreases k,
{
    if j < k {
        lemma_share_sum_grows(votes, n, j, (k - 1) as nat);
    }
}

} // verus!
