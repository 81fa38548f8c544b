//! Customers who deliberate in a group, or look to the price, do not go by reputations.
use crate::binary64::Real;
use crate::hashing::fnv;
use crate::prompts::{choice_prompt, deliberation_is_marked, OfferView, DELIBERATION_MARK};
use crate::reading::{
    customers_read_their_offers, customers_read_their_preference, lemma_budget_read,
    lemma_line_end_behind, lemma_offers_behind, lines_apart, lines_of,
};
use crate::reproduce_mock::{
    cheapest_choice, choice, digits_after, field, is_number_char, lemma_line_end, line_at, line_end,
    looks_to_price, lowest_price, number_run, offer_in, offers_from, offers_near, preference,
    price_sensitive, split_number, Offered,
};
use crate::text::{digit_run, find, find_from, is_white_space, occurs_at, trimmed_start};
use crate::world::CustomerView;
use vstd::prelude::*;
use vstd::string::*;
use vstd::utf8::encode_utf8;

verus! {

/// Offers that differ in nothing a price or a taste goes by.
pub open spec fn alike(a: Seq<Offered>, b: Seq<Offered>) -> bool {
    a.len() == b.len() && forall|i: int|
        0 <= i < a.len() ==> (#[trigger] a[i]).index == b[i].index && a[i].price == b[i].price
}

proof fn lemma_alike_prices(a: Seq<Offered>, b: Seq<Offered>, price: Real, n: nat)
    requires
        alike(a, b),
        n <= a.len(),
    ensures
        lowest_price(a, n) == lowest_price(b, n),
        offers_near(a, price, n) == offers_near(b, price, n),
    decreases n,
{
    if n > 0 {
        lemma_alike_prices(a, b, price, (n - 1) as nat);
        assert(a[n - 1].index == b[n - 1].index);
    }
}

/// Customers who deliberate in a group, or look to the price, go by what they read of themselves
/// and of the prices: of two questions of which they read the same but for quality and
/// reputation, they decide the same.
pub proof fn decisions_rest_on_prices_and_taste(s: Seq<char>, t: Seq<char>)
    requires
        alike(offers_from(s, 0), offers_from(t, 0)),
        preference(s) == preference(t),
        field(s, "Daily budget: "@) == field(t, "Daily budget: "@),
        digits_after(s, "Daily budget: "@) == digits_after(t, "Daily budget: "@),
        looks_to_price(s) || find(s, DELIBERATION_MARK@) is Some && find(
            t,
            DELIBERATION_MARK@,
        ) is Some,
    ensures
        choice(s) == choice(t),
{
    let a = offers_from(s, 0);
    let b = offers_from(t, 0);
    lemma_alike_prices(a, b, lowest_price(a, a.len()), a.len());
    assert(price_sensitive(s) == price_sensitive(t));
    assert(split_number(s) == split_number(t));
    assert(cheapest_choice(a, s) == cheapest_choice(b, t));
    if a.len() > 0 {
        let k = fnv(encode_utf8(preference(s))) as int
            % a.len() as int;
        assert(0 <= k < a.len());
        assert(a[k].index == b[k].index);
    }
}

/// A customer asked in a group chooses the same whatever the reputations of the restaurants,
/// their advertisements and the comments on them.
pub proof fn groups_do_not_follow_the_crowd(
    customer: CustomerView,
    day: u64,
    offers: Seq<OfferView>,
    others: Seq<OfferView>,
)
    requires
        lines_of(customer),
        customer.preference.len() > 0 ==> customer.preference.last() != '\r',
        lines_apart(offers),
        lines_apart(others),
        offers.len() == others.len() <= usize::MAX,
        forall|i: int|
            0 <= i < offers.len() ==> (#[trigger] offers[i]).avg_price == others[i].avg_price,
    ensures
        choice(choice_prompt(customer, day, offers, true)) == choice(
            choice_prompt(customer, day, others, true),
        ),
{
    let s = choice_prompt(customer, day, offers, true);
    let t = choice_prompt(customer, day, others, true);
    customers_read_their_offers(customer, day, offers, true);
    customers_read_their_offers(customer, day, others, true);
    customers_read_their_preference(customer, day, offers, true);
    customers_read_their_preference(customer, day, others, true);
    lemma_budget_read(customer, day, offers, true);
    lemma_budget_read(customer, day, others, true);
    deliberation_is_marked(customer, day, offers);
    deliberation_is_marked(customer, day, others);
    assert forall|i: int| 0 <= i < offers.len() implies (#[trigger] offers_from(s, 0)[i]).index
        == offers_from(t, 0)[i].index && offers_from(s, 0)[i].price
        == offers_from(t, 0)[i].price by {
        assert(offers[i].avg_price == others[i].avg_price);
    }
    decisions_rest_on_prices_and_taste(s, t);
}

/// What stands before the number of a reputation.
pub const REPUTATION_MARK: &'static str = "reputation ";

/// A text ends with another one.
pub open spec fn ends_with(s: Seq<char>, t: Seq<char>) -> bool {
    s.len() >= t.len() && s.skip(s.len() - t.len()) == t
}

/// A text of characters of a number only.
pub open spec fn number_word(w: Seq<char>) -> bool {
    forall|i: int| 0 <= i < w.len() ==> is_number_char(#[trigger] w[i])
}

/// The end of a text in which a reputation is to follow.
proof fn lemma_tail(lead: Seq<char>)
    requires
        ends_with(lead, REPUTATION_MARK@),
    ensures
        lead.len() >= 11,
        lead[lead.len() - 1] == ' ',
        lead[lead.len() - 2] == 'n',
        lead[lead.len() - 3] == 'o',
        lead[lead.len() - 11] == 'r',
        forall|j: int| lead.len() - 11 <= j < lead.len() ==> #[trigger] lead[j] != '\n',
{
    reveal_strlit("reputation ");
    let n = lead.len() - 11;
    let r = REPUTATION_MARK@;
    assert forall|j: int| n <= j < lead.len() implies #[trigger] lead[j] == r[j - n] by {
        assert(lead.skip(n)[j - n] == lead[j]);
    }
    assert(lead[n] == r[0]);
    assert(lead[n + 8] == r[8]);
    assert(lead[n + 9] == r[9]);
    assert(lead[n + 10] == r[10]);
}

/// A marker that cannot stand across the place where a reputation follows.
spec fn seamless(m: Seq<char>) -> bool {
    &&& m.len() > 0
    &&& !is_number_char(m[0])
    &&& forall|l: int|
        0 < l < m.len() && #[trigger] m[l - 1] == ' ' ==> l >= 2 && (m[l - 2] != 'n' || l >= 3
            && m[l - 3] != 'o')
}

/// Where a marker stands in a text with a reputation in it.
proof fn lemma_occurs_split(lead: Seq<char>, w: Seq<char>, b: Seq<char>, m: Seq<char>, i: int)
    requires
        ends_with(lead, REPUTATION_MARK@),
        number_word(w),
        seamless(m),
    ensures
        occurs_at(lead + w + b, m, i) <==> occurs_at(lead, m, i) || occurs_at(
            b,
            m,
            i - lead.len() - w.len(),
        ),
{
    let s = lead + w + b;
    let n = lead.len() as int;
    let k = n + w.len();
    lemma_tail(lead);
    if 0 <= i && i + m.len() <= s.len() {
        let cut = s.subrange(i, i + m.len());
        if i + m.len() <= n {
            assert(cut =~= lead.subrange(i, i + m.len()));
        } else if i >= k {
            assert(cut =~= b.subrange(i - k, i - k + m.len()));
        } else if i >= n {
            assert(cut[0] == w[i - n]);
            assert(is_number_char(w[i - n]));
        } else {
            let l = n - i;
            assert(cut[l - 1] == lead[n - 1]);
            if l >= 2 {
                assert(cut[l - 2] == lead[n - 2]);
            }
            if l >= 3 {
                assert(cut[l - 3] == lead[n - 3]);
            }
            assert(cut == m ==> m[l - 1] == ' ');
        }
    }
}

/// The first place where a marker stands is the first one.
proof fn lemma_first(s: Seq<char>, m: Seq<char>, i: int)
    requires
        0 <= i,
    ensures
        match find_from(s, m, i) {
            Some(k) => i <= k && occurs_at(s, m, k) && forall|j: int|
                i <= j < k ==> !#[trigger] occurs_at(s, m, j),
            None => forall|j: int| i <= j ==> !#[trigger] occurs_at(s, m, j),
        },
    decreases s.len() + 1 - i,
{
    if i <= s.len() && !occurs_at(s, m, i) {
        lemma_first(s, m, i + 1);
    }
}

/// Where a marker first stands in a text with a reputation in it.
proof fn lemma_find_split(lead: Seq<char>, w: Seq<char>, b: Seq<char>, m: Seq<char>)
    requires
        ends_with(lead, REPUTATION_MARK@),
        number_word(w),
        seamless(m),
    ensures
        find(lead + w + b, m) == (match find(lead, m) {
            Some(i) => Some(i),
            None => match find(b, m) {
                Some(j) => Some(lead.len() + w.len() + j),
                None => None,
            },
        }),
        find(lead, m) matches Some(i) ==> 0 <= i && occurs_at(lead, m, i),
        find(b, m) matches Some(j) ==> 0 <= j && occurs_at(b, m, j),
{
    let s = lead + w + b;
    let k = lead.len() + w.len();
    lemma_first(s, m, 0);
    lemma_first(lead, m, 0);
    lemma_first(b, m, 0);
    assert forall|i: int| #[trigger] occurs_at(s, m, i) <==> occurs_at(lead, m, i) || occurs_at(
        b,
        m,
        i - k,
    ) by {
        lemma_occurs_split(lead, w, b, m, i);
    }
    match find(lead, m) {
        Some(i) => {
            assert(occurs_at(s, m, i));
        },
        None => {
            if let Some(j) = find(b, m) {
                assert(occurs_at(b, m, k + j - k));
                assert(occurs_at(s, m, k + j));
            }
        },
    }
}

/// A run that starts before a reputation ends before it.
proof fn lemma_runs_ahead(lead: Seq<char>, x: Seq<char>, i: int)
    requires
        0 <= i < lead.len(),
        !is_number_char(lead.last()),
    ensures
        number_run(lead + x, i) == number_run(lead, i),
        digit_run(lead + x, i) == digit_run(lead, i),
        i <= number_run(lead, i) < lead.len(),
        i <= digit_run(lead, i) < lead.len(),
    decreases lead.len() - i,
{
    assert((lead + x)[i] == lead[i]);
    if i < lead.len() - 1 {
        lemma_runs_ahead(lead, x, i + 1);
    }
}

/// A run is as long when something is put before it.
proof fn lemma_runs_behind(a: Seq<char>, b: Seq<char>, i: int)
    requires
        0 <= i <= b.len(),
    ensures
        number_run(a + b, a.len() + i) == a.len() + number_run(b, i),
        digit_run(a + b, a.len() + i) == a.len() + digit_run(b, i),
        i <= number_run(b, i) <= b.len(),
        i <= digit_run(b, i) <= b.len(),
    decreases b.len() - i,
{
    if i < b.len() {
        assert((a + b)[a.len() + i] == b[i]);
        lemma_runs_behind(a, b, i + 1);
    }
}

/// What is read behind a marker does not change with a reputation.
proof fn lemma_field_kept(
    lead: Seq<char>,
    w: Seq<char>,
    v: Seq<char>,
    b: Seq<char>,
    m: Seq<char>,
)
    requires
        ends_with(lead, REPUTATION_MARK@),
        number_word(w),
        number_word(v),
        seamless(m),
        m.len() >= 2,
        m[m.len() - 2] != 'n',
    ensures
        field(lead + w + b, m) == field(lead + v + b, m),
        digits_after(lead + w + b, m) == digits_after(lead + v + b, m),
{
    lemma_field_read(lead, w, b, m);
    lemma_field_read(lead, v, b, m);
}

/// What is read behind a marker is read before a reputation or behind it.
proof fn lemma_field_read(lead: Seq<char>, w: Seq<char>, b: Seq<char>, m: Seq<char>)
    requires
        ends_with(lead, REPUTATION_MARK@),
        number_word(w),
        seamless(m),
        m.len() >= 2,
        m[m.len() - 2] != 'n',
    ensures
        field(lead + w + b, m) == (if find(lead, m) is Some {
            field(lead, m)
        } else {
            field(b, m)
        }),
        digits_after(lead + w + b, m) == (if find(lead, m) is Some {
            digits_after(lead, m)
        } else {
            digits_after(b, m)
        }),
{
    let s = lead + w + b;
    let n = lead.len() as int;
    lemma_tail(lead);
    lemma_find_split(lead, w, b, m);
    match find(lead, m) {
        Some(i) => {
            let p = i + m.len();
            assert(p < n) by {
                if p == n {
                    assert(lead.subrange(i, p)[m.len() - 2] == lead[n - 2]);
                }
            }
            assert(s =~= lead + (w + b));
            lemma_runs_ahead(lead, w + b, p);
            assert(s.subrange(p, number_run(s, p)) =~= lead.subrange(p, number_run(lead, p)));
            assert(s.subrange(p, digit_run(s, p)) =~= lead.subrange(p, digit_run(lead, p)));
        },
        None => {
            if let Some(j) = find(b, m) {
                let k = n + w.len();
                let p = j + m.len();
                lemma_runs_behind(lead + w, b, p);
                assert(s.subrange(k + p, number_run(s, k + p)) =~= b.subrange(
                    p,
                    number_run(b, p),
                ));
                assert(s.subrange(k + p, digit_run(s, k + p)) =~= b.subrange(p, digit_run(b, p)));
            }
        },
    }
}

/// What follows stands on the line on which the preference is told.
pub open spec fn on_preference_line(lead: Seq<char>) -> bool {
    match find(lead, "Preference: "@) {
        Some(i) => forall|j: int|
            i + "Preference: "@.len() <= j < lead.len() ==> #[trigger] lead[j] != '\n',
        None => false,
    }
}

/// A line that ends in the first part of a text ends there in the whole.
proof fn lemma_line_end_ahead(lead: Seq<char>, x: Seq<char>, i: int, e: int)
    requires
        0 <= i <= e < lead.len(),
        lead[e] == '\n',
    ensures
        line_end(lead + x, i) == line_end(lead, i),
        i <= line_end(lead, i) <= e,
        lead[line_end(lead, i)] == '\n',
        line_at(lead + x, i) == line_at(lead, i),
    decreases e - i,
{
    let s = lead + x;
    assert(s[i] == lead[i]);
    if lead[i] != '\n' {
        lemma_line_end_ahead(lead, x, i + 1, e);
    }
    let f = line_end(lead, i);
    assert(i < f ==> s[f - 1] == lead[f - 1]);
    assert(line_at(s, i) =~= line_at(lead, i));
}

/// A line is the same when something is put before it.
proof fn lemma_line_behind(a: Seq<char>, t: Seq<char>, i: int)
    requires
        0 <= i <= t.len(),
    ensures
        line_at(a + t, a.len() + i) == line_at(t, i),
{
    let e = line_end(t, i);
    lemma_line_end(t, i);
    lemma_line_end_behind(a, t, i);
    if i < e < t.len() {
        assert((a + t)[a.len() + e - 1] == t[e - 1]);
    }
    assert(line_at(a + t, a.len() + i) =~= line_at(t, i));
}

/// The preference that is read is read before a reputation or behind it.
proof fn lemma_preference_read(lead: Seq<char>, w: Seq<char>, b: Seq<char>)
    requires
        ends_with(lead, REPUTATION_MARK@),
        number_word(w),
        !on_preference_line(lead),
    ensures
        preference(lead + w + b) == (if find(lead, "Preference: "@) is Some {
            preference(lead)
        } else {
            preference(b)
        }),
{
    let s = lead + w + b;
    let m = "Preference: "@;
    reveal_strlit("Preference: ");
    lemma_find_split(lead, w, b, m);
    match find(lead, m) {
        Some(i) => {
            let p = i + m.len();
            let e = choose|j: int| p <= j < lead.len() && #[trigger] lead[j] == '\n';
            assert(s =~= lead + (w + b));
            lemma_line_end_ahead(lead, w + b, p, e);
        },
        None => {
            if let Some(j) = find(b, m) {
                assert((lead + w).len() + (j + m.len()) == lead.len() + w.len() + j + m.len());
                lemma_line_behind(lead + w, b, j + m.len());
            }
        },
    }
}

/// White space at the start goes whatever follows, if something else follows it.
proof fn lemma_trimmed_ahead(l: Seq<char>, x: Seq<char>, k: int)
    requires
        0 <= k < l.len(),
        !is_white_space(l[k]),
    ensures
        trimmed_start(l + x) == trimmed_start(l) + x,
        l.len() - k <= trimmed_start(l).len() <= l.len(),
        trimmed_start(l) == l.skip(l.len() - trimmed_start(l).len()),
    decreases l.len(),
{
    assert((l + x)[0] == l[0]);
    if is_white_space(l[0]) {
        assert((l + x).drop_first() =~= l.drop_first() + x);
        lemma_trimmed_ahead(l.drop_first(), x, k - 1);
        let n = trimmed_start(l).len();
        assert(l.drop_first().skip(l.len() - 1 - n) =~= l.skip(l.len() - n));
    } else {
        assert(l.skip(0) =~= l);
    }
}

/// Of a line that tells of an offer, what is read but for the reputation does not change with
/// it.
spec fn same_offer(a: Option<Offered>, b: Option<Offered>) -> bool {
    match (a, b) {
        (Some(x), Some(y)) => x.index == y.index && x.price == y.price,
        (None, None) => true,
        _ => false,
    }
}

proof fn lemma_offer_kept(l: Seq<char>, w: Seq<char>, v: Seq<char>, c: Seq<char>)
    requires
        ends_with(l, REPUTATION_MARK@),
        number_word(w),
        number_word(v),
    ensures
        same_offer(offer_in(l + w + c), offer_in(l + v + c)),
{
    let mark = "- Option "@;
    let n = l.len();
    reveal_strlit("- Option ");
    reveal_strlit("avg price ");
    lemma_tail(l);
    assert(!is_white_space('r'));
    lemma_trimmed_ahead(l, w + c, n - 11);
    lemma_trimmed_ahead(l, v + c, n - 11);
    assert(l + w + c =~= l + (w + c));
    assert(l + v + c =~= l + (v + c));
    let t = trimmed_start(l);
    let k = n - t.len();
    assert(t.len() >= 11);
    assert forall|j: int| 0 <= j < t.len() implies #[trigger] t[j] == l[j + k] by {
        assert(l.skip(k)[j] == l[j + k]);
    }
    assert((t + (w + c)).subrange(0, 9) =~= t.subrange(0, 9));
    assert((t + (v + c)).subrange(0, 9) =~= t.subrange(0, 9));
    if occurs_at(t, mark, 0) {
        assert forall|j: int| 0 <= j < 9 implies #[trigger] t[j] == mark[j] by {
            assert(t.subrange(0, 9)[j] == t[j]);
        }
        assert(t.len() >= 20) by {
            if t.len() < 20 {
                let j = t.len() - 11;
                assert(t[j] == l[n - 11]);
                assert(t[j] == mark[j]);
            }
        }
        let q = t.skip(9);
        assert(ends_with(q, REPUTATION_MARK@)) by {
            assert(q.skip(q.len() - 11) =~= l.skip(n - 11));
            reveal_strlit("reputation ");
        }
        assert((t + (w + c)).skip(9) =~= q + w + c);
        assert((t + (v + c)).skip(9) =~= q + v + c);
        lemma_tail(q);
        assert(q + w + c =~= q + (w + c));
        assert(q + v + c =~= q + (v + c));
        lemma_runs_ahead(q, w + c, 0);
        lemma_runs_ahead(q, v + c, 0);
        let e = digit_run(q, 0);
        assert((q + w + c).subrange(0, e) =~= q.subrange(0, e));
        assert((q + v + c).subrange(0, e) =~= q.subrange(0, e));
        lemma_field_kept(q, w, v, c, "avg price "@);
    }
}

/// Lines from one on that starts before a reputation tell of offers that are alike.
proof fn lemma_offers_kept(lead: Seq<char>, w: Seq<char>, v: Seq<char>, b: Seq<char>, i: int)
    requires
        ends_with(lead, REPUTATION_MARK@),
        number_word(w),
        number_word(v),
        0 <= i <= lead.len() - 11,
    ensures
        alike(offers_from(lead + w + b, i), offers_from(lead + v + b, i)),
    decreases lead.len() - i,
{
    let s = lead + w + b;
    let t = lead + v + b;
    let n = lead.len();
    lemma_tail(lead);
    assert(s =~= lead + (w + b));
    assert(t =~= lead + (v + b));
    lemma_line_end(s, i);
    lemma_line_end(t, i);
    if exists|j: int| i <= j < n && #[trigger] lead[j] == '\n' {
        let e = choose|j: int| i <= j < n && #[trigger] lead[j] == '\n';
        lemma_line_end_ahead(lead, w + b, i, e);
        lemma_line_end_ahead(lead, v + b, i, e);
        let f = line_end(lead, i);
        assert(f < n - 11);
        lemma_offers_kept(lead, w, v, b, f + 1);
        lemma_alike_joined(
            told_by(line_at(s, i)),
            told_by(line_at(t, i)),
            offers_from(s, f + 1),
            offers_from(t, f + 1),
        );
    } else {
        let l = lead.skip(i);
        let c = line_at(b, 0);
        let e = line_end(b, 0);
        lemma_line_end(b, 0);
        lemma_last_line(lead, w, b, i);
        lemma_last_line(lead, v, b, i);
        assert(ends_with(l, REPUTATION_MARK@)) by {
            reveal_strlit("reputation ");
            assert(l.skip(l.len() - 11) =~= lead.skip(n - 11));
        }
        lemma_offer_kept(l, w, v, c);
        lemma_offers_behind(lead + w, b, e + 1);
        lemma_offers_behind(lead + v, b, e + 1);
        assert((lead + w).len() + (e + 1) == n + w.len() + e + 1);
        assert((lead + v).len() + (e + 1) == n + v.len() + e + 1);
        lemma_alike_joined(
            told_by(l + w + c),
            told_by(l + v + c),
            offers_from(b, e + 1),
            offers_from(b, e + 1),
        );
    }
}

/// The offer that a line tells of, or none.
spec fn told_by(line: Seq<char>) -> Seq<Offered> {
    match offer_in(line) {
        Some(o) => seq![o],
        None => seq![],
    }
}

/// Offers that are alike, put together.
proof fn lemma_alike_joined(a: Seq<Offered>, b: Seq<Offered>, c: Seq<Offered>, d: Seq<Offered>)
    requires
        alike(a, b),
        alike(c, d),
    ensures
        alike(a + c, b + d),
{
    assert forall|i: int| 0 <= i < (a + c).len() implies (#[trigger] (a + c)[i]).index == (b
        + d)[i].index && (a + c)[i].price == (b + d)[i].price by {
        if i < a.len() {
            assert(a[i].index == b[i].index);
        } else {
            assert(c[i - a.len()].index == d[i - a.len()].index);
        }
    }
}

/// The line on which a reputation stands.
proof fn lemma_last_line(lead: Seq<char>, w: Seq<char>, b: Seq<char>, i: int)
    requires
        ends_with(lead, REPUTATION_MARK@),
        number_word(w),
        0 <= i <= lead.len() - 11,
        forall|j: int| i <= j < lead.len() ==> #[trigger] lead[j] != '\n',
    ensures
        line_end(lead + w + b, i) == lead.len() + w.len() + line_end(b, 0),
        line_at(lead + w + b, i) == lead.skip(i) + w + line_at(b, 0),
{
    let a = lead + w;
    let s = a + b;
    let e = line_end(b, 0);
    lemma_tail(lead);
    lemma_line_end(b, 0);
    assert forall|j: int| i <= j < a.len() implies #[trigger] a[j] != '\n' by {
        if j < lead.len() {
            assert(a[j] == lead[j]);
        } else {
            assert(a[j] == w[j - lead.len()]);
        }
    }
    lemma_line_goes_on(a, b, i);
    lemma_line_end_behind(a, b, 0);
    let f = a.len() + e;
    if e > 0 {
        assert(s[f - 1] == b[e - 1]);
    } else if w.len() > 0 {
        assert(s[f - 1] == w[w.len() - 1]);
        assert(is_number_char(w[w.len() - 1]));
    } else {
        assert(s[f - 1] == lead[lead.len() - 1]);
    }
    assert(line_at(s, i) =~= lead.skip(i) + w + line_at(b, 0));
}

/// A line goes on where no line feed stands.
proof fn lemma_line_goes_on(a: Seq<char>, b: Seq<char>, i: int)
    requires
        0 <= i <= a.len(),
        forall|j: int| i <= j < a.len() ==> #[trigger] a[j] != '\n',
    ensures
        line_end(a + b, i) == line_end(a + b, a.len() as int),
    decreases a.len() - i,
{
    if i < a.len() {
        assert((a + b)[i] == a[i]);
        lemma_line_goes_on(a, b, i + 1);
    }
}

/// One reputation makes no difference.
#[verifier::rlimit(60)]
proof fn lemma_one_reputation(lead: Seq<char>, w: Seq<char>, v: Seq<char>, b: Seq<char>)
    requires
        ends_with(lead, REPUTATION_MARK@),
        number_word(w),
        number_word(v),
        !on_preference_line(lead),
        ({
            let s = lead + w + b;
            looks_to_price(s) || find(s, DELIBERATION_MARK@) is Some
        }),
    ensures
        choice(lead + w + b) == choice(lead + v + b),
        looks_to_price(lead + v + b) || find(lead + v + b, DELIBERATION_MARK@) is Some,
{
    let s = lead + w + b;
    let t = lead + v + b;
    lemma_tail(lead);
    reveal_strlit("group deliberates together");
    reveal_strlit("Daily budget: ");
    assert(seamless(DELIBERATION_MARK@));
    lemma_find_split(lead, w, b, DELIBERATION_MARK@);
    lemma_find_split(lead, v, b, DELIBERATION_MARK@);
    lemma_field_kept(lead, w, v, b, "Daily budget: "@);
    lemma_preference_read(lead, w, b);
    lemma_preference_read(lead, v, b);
    lemma_offers_kept(lead, w, v, b, 0);
    assert(looks_to_price(s) == looks_to_price(t));
    decisions_rest_on_prices_and_taste(s, t);
}

/// Texts and words in turn, the first `n` of each.
pub open spec fn woven(parts: Seq<Seq<char>>, words: Seq<Seq<char>>, n: int) -> Seq<char>
    decreases n,
{
    if n <= 0 {
        seq![]
    } else {
        woven(parts, words, n - 1) + parts[n - 1] + words[n - 1]
    }
}

/// What follows the first `n` texts and words.
spec fn woven_from(parts: Seq<Seq<char>>, words: Seq<Seq<char>>, end: Seq<char>, n: int) -> Seq<char>
    decreases parts.len() - n,
{
    if n < 0 || n >= parts.len() {
        end
    } else {
        parts[n] + words[n] + woven_from(parts, words, end, n + 1)
    }
}

/// A text is its first parts and what follows them.
proof fn lemma_woven(parts: Seq<Seq<char>>, words: Seq<Seq<char>>, end: Seq<char>, n: int)
    requires
        0 <= n <= parts.len(),
    ensures
        woven(parts, words, parts.len() as int) + end == woven(parts, words, n) + woven_from(
            parts,
            words,
            end,
            n,
        ),
    decreases parts.len() - n,
{
    if n < parts.len() {
        lemma_woven(parts, words, end, n + 1);
        let a = woven(parts, words, n);
        let b = woven_from(parts, words, end, n + 1);
        assert(a + parts[n] + words[n] + b =~= a + (parts[n] + words[n] + b));
    }
}

/// The customer of a question who does not go by reputations chooses the same in another one,
/// and does not go by reputations there.
#[verifier::opaque]
spec fn unmoved(s: Seq<char>, t: Seq<char>) -> bool {
    looks_to_price(s) || find(s, DELIBERATION_MARK@) is Some ==> {
        &&& choice(s) == choice(t)
        &&& looks_to_price(t) || find(t, DELIBERATION_MARK@) is Some
    }
}

/// One more question that makes no difference.
proof fn lemma_unmoved(s: Seq<char>, t: Seq<char>, u: Seq<char>)
    requires
        unmoved(s, t),
        unmoved(t, u),
    ensures
        unmoved(s, u),
{
    reveal(unmoved);
}

/// One reputation makes no difference.
proof fn lemma_one_unmoved(lead: Seq<char>, w: Seq<char>, v: Seq<char>, b: Seq<char>)
    requires
        ends_with(lead, REPUTATION_MARK@),
        number_word(w),
        number_word(v),
        !on_preference_line(lead),
    ensures
        unmoved(lead + w + b, lead + v + b),
{
    reveal(unmoved);
    let s = lead + w + b;
    if looks_to_price(s) || find(s, DELIBERATION_MARK@) is Some {
        lemma_one_reputation(lead, w, v, b);
    }
}

/// Reputations from one on make no difference.
proof fn lemma_later_reputations(
    parts: Seq<Seq<char>>,
    words: Seq<Seq<char>>,
    others: Seq<Seq<char>>,
    end: Seq<char>,
    n: int,
)
    requires
        parts.len() == words.len() == others.len(),
        forall|k: int| 0 <= k < parts.len() ==> ends_with(#[trigger] parts[k], REPUTATION_MARK@),
        forall|k: int| 0 <= k < words.len() ==> number_word(#[trigger] words[k]),
        forall|k: int| 0 <= k < others.len() ==> number_word(#[trigger] others[k]),
        forall|k: int|
            0 <= k < parts.len() ==> !on_preference_line(
                woven(parts, words, k) + #[trigger] parts[k],
            ),
        0 <= n <= parts.len(),
    ensures
        unmoved(
            woven(parts, words, parts.len() as int) + end,
            woven(parts, words, n) + woven_from(parts, others, end, n),
        ),
    decreases parts.len() - n,
{
    let s = woven(parts, words, parts.len() as int) + end;
    if n < parts.len() {
        lemma_later_reputations(parts, words, others, end, n + 1);
        let a = woven(parts, words, n);
        let b = woven_from(parts, others, end, n + 1);
        let lead = a + parts[n];
        lemma_ends_too(a, parts[n]);
        assert(!on_preference_line(lead));
        lemma_one_unmoved(lead, words[n], others[n], b);
        assert(a + (parts[n] + others[n] + b) =~= lead + others[n] + b);
        lemma_unmoved(s, lead + words[n] + b, lead + others[n] + b);
    } else {
        reveal(unmoved);
    }
}

/// A text ends as its last part does.
proof fn lemma_ends_too(a: Seq<char>, part: Seq<char>)
    requires
        ends_with(part, REPUTATION_MARK@),
    ensures
        ends_with(a + part, REPUTATION_MARK@),
{
    let m = REPUTATION_MARK@.len();
    assert((a + part).skip((a + part).len() - m) =~= part.skip(part.len() - m));
}

/// A customer who deliberates in a group does not go by reputations, nor does one who looks to
/// the price: of two questions that differ in nothing but the numbers that follow the word
/// "reputation", they decide the same. The questions are made of the same `parts`, each of which
/// a number follows, and of the same `end`. No such number stands on the line on which the
/// preference is told, which is read to its end.
pub proof fn deliberation_ignores_popularity(
    parts: Seq<Seq<char>>,
    words: Seq<Seq<char>>,
    others: Seq<Seq<char>>,
    end: Seq<char>,
)
    requires
        parts.len() == words.len() == others.len(),
        forall|k: int| 0 <= k < parts.len() ==> ends_with(#[trigger] parts[k], REPUTATION_MARK@),
        forall|k: int| 0 <= k < words.len() ==> number_word(#[trigger] words[k]),
        forall|k: int| 0 <= k < others.len() ==> number_word(#[trigger] others[k]),
        forall|k: int|
            0 <= k < parts.len() ==> !on_preference_line(
                woven(parts, words, k) + #[trigger] parts[k],
            ),
        ({
            let s = woven(parts, words, parts.len() as int) + end;
            looks_to_price(s) || find(s, DELIBERATION_MARK@) is Some
        }),
    ensures
        choice(woven(parts, words, parts.len() as int) + end) == choice(
            woven(parts, others, parts.len() as int) + end,
        ),
{
    lemma_later_reputations(parts, words, others, end, 0);
    lemma_woven(parts, others, end, 0);
    reveal(unmoved);
}

} // verus!
