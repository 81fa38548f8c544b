//! What questions tell, and how numbers are written.
use crate::binary64::Real;
use crate::digits::{lemma_ten_to_pos, ten_to};
use crate::estimates::size;
use crate::prompts::{
    advertisement_part, all_offer_lines, choice_prompt, comment_lines, customer_part,
    deliberation_part, last_visit_part, memory_lines, memory_part, offer_lines, restaurant_part,
    rival_line, rival_lines, rivals_part, strategy_prompt, BriefingView, OfferView, RivalInfo,
};
use crate::readback::{lemma_decimal, lemma_padded};
use crate::rounding::units;
use crate::text::{decimal, digit_char, digit_value, is_digit, number};
use crate::world::{menu_prices, menu_scores, real_mean, CustomerView, FirmView};
use crate::writing::{fixed, half_even, padded};
use vstd::arithmetic::power2::*;
use vstd::prelude::*;
use vstd::string::*;

verus! {

/// A text tells something: it stands somewhere in it.
pub open spec fn told(s: Seq<char>, part: Seq<char>) -> bool {
    exists|i: int| 0 <= i <= s.len() - part.len() && #[trigger] s.subrange(i, i + part.len()) == part
}

/// What is told stays told when something is put behind it.
proof fn lemma_told_before(a: Seq<char>, b: Seq<char>, part: Seq<char>)
    requires
        told(a, part),
    ensures
        told(a + b, part),
{
    let i = choose|i: int|
        0 <= i <= a.len() - part.len() && #[trigger] a.subrange(i, i + part.len()) == part;
    assert((a + b).subrange(i, i + part.len()) =~= part);
}

/// What is told stays told when something is put before it.
proof fn lemma_told_behind(a: Seq<char>, b: Seq<char>, part: Seq<char>)
    requires
        told(b, part),
    ensures
        told(a + b, part),
{
    let i = choose|i: int|
        0 <= i <= b.len() - part.len() && #[trigger] b.subrange(i, i + part.len()) == part;
    assert((a + b).subrange(a.len() + i, a.len() + i + part.len()) =~= part);
}

/// A text tells all of itself.
proof fn lemma_told_whole(s: Seq<char>)
    ensures
        told(s, s),
{
    let i: int = 0;
    assert(s.subrange(i, i + s.len()) =~= s);
}

/// Two pieces that follow each other are told together.
proof fn lemma_told_pair(a: Seq<char>, b: Seq<char>, c: Seq<char>)
    ensures
        told(a + b + c, b + c),
{
    let s = a + b + c;
    assert(s.subrange(a.len() as int, (a.len() + (b + c).len()) as int) =~= b + c);
}

/// A manager is told the day, the funds, the mean price, the salary of the chef, the mean
/// quality, the reputation and the takings of the day before, each under its own heading.
#[verifier::rlimit(40)]
pub proof fn managers_are_told_of_their_restaurant(firm: FirmView, day: u64, brief: BriefingView)
    ensures
        told(strategy_prompt(firm, day, brief), "\n- Average price: "@ + fixed(
            real_mean(menu_prices(firm.menu)),
            0,
        )),
        told(strategy_prompt(firm, day, brief), "\n- Chef salary: "@ + fixed(firm.chef_salary, 0)),
        told(strategy_prompt(firm, day, brief), "\n- Average dish quality score: "@ + fixed(
            real_mean(menu_scores(firm.menu)),
            3,
        )),
        told(strategy_prompt(firm, day, brief), "\n- Reputation: "@ + fixed(firm.reputation, 2)),
        told(strategy_prompt(firm, day, brief), "\n- Yesterday: "@ + decimal(
            brief.own_customers as nat,
        )),
        told(strategy_prompt(firm, day, brief), " customers, revenue "@ + fixed(
            brief.own_revenue,
            0,
        )),
        told(strategy_prompt(firm, day, brief), "\n## Your restaurant\n- Funds: "@ + fixed(
            firm.funds,
            0,
        )),
{
    let s0 = "You are the manager of a restaurant competing for customers in a virtual town. Each day you may adjust your prices, the salary you pay your chef (which raises dish quality), and your advertisement. Your goal is to maximize cumulative revenue while staying solvent.\n\n## Day "@
        + decimal(day as nat);
    let s1 = s0 + "\n## Your restaurant\n- Funds: "@ + fixed(firm.funds, 0);
    let s2 = s1 + "\n- Average price: "@ + fixed(real_mean(menu_prices(firm.menu)), 0);
    let s3 = s2 + "\n- Chef salary: "@ + fixed(firm.chef_salary, 0);
    let s4 = s3 + "\n- Average dish quality score: "@ + fixed(real_mean(menu_scores(firm.menu)), 3);
    let s5 = s4 + "\n- Reputation: "@ + fixed(firm.reputation, 2);
    let s6 = s5 + "\n- Yesterday: "@ + decimal(brief.own_customers as nat);
    let s7 = s6 + " customers, revenue "@ + fixed(brief.own_revenue, 0);
    assert(restaurant_part(firm, day, brief) == s7 + "\n"@);
    lemma_told_pair(s0, "\n## Your restaurant\n- Funds: "@, fixed(firm.funds, 0));
    lemma_told_pair(s1, "\n- Average price: "@, fixed(real_mean(menu_prices(firm.menu)), 0));
    lemma_told_pair(s2, "\n- Chef salary: "@, fixed(firm.chef_salary, 0));
    lemma_told_pair(
        s3,
        "\n- Average dish quality score: "@,
        fixed(real_mean(menu_scores(firm.menu)), 3),
    );
    lemma_told_pair(s4, "\n- Reputation: "@, fixed(firm.reputation, 2));
    lemma_told_pair(s5, "\n- Yesterday: "@, decimal(brief.own_customers as nat));
    lemma_told_pair(s6, " customers, revenue "@, fixed(brief.own_revenue, 0));
    assert forall|a: Seq<char>, b: Seq<char>, part: Seq<char>| told(a, part) implies #[trigger] told(
        a + b,
        part,
    ) by {
        lemma_told_before(a, b, part);
    }
}

/// A manager is told of each rival by a line with its number from one on, its customers, its
/// revenue, its mean price and its mean quality.
pub proof fn managers_are_told_of_each_rival(
    firm: FirmView,
    day: u64,
    brief: BriefingView,
    i: int,
)
    requires
        0 <= i < brief.rivals.len(),
    ensures
        ({
            let r = brief.rivals[i];
            told(strategy_prompt(firm, day, brief), "- Rival "@ + decimal((i + 1) as nat) + ": "@
                + decimal(r.day_customers as nat) + " customers, revenue "@ + fixed(r.day_revenue, 0)
                + ", avg price "@ + fixed(r.avg_price, 0) + ", avg quality "@ + fixed(r.avg_score, 3)
                + "\n"@)
        }),
{
    let line = rival_line(i, brief.rivals[i]);
    let n = brief.rivals.len();
    lemma_rival_told(brief.rivals, n, i);
    lemma_told_behind("\n## Rivals (yesterday)\n"@, rival_lines(brief.rivals, n), line);
    lemma_told_behind(restaurant_part(firm, day, brief), rivals_part(brief.rivals), line);
    assert forall|a: Seq<char>, b: Seq<char>, part: Seq<char>| told(a, part) implies #[trigger] told(
        a + b,
        part,
    ) by {
        lemma_told_before(a, b, part);
    }
}

/// The line on a rival is among the lines.
proof fn lemma_rival_told(rivals: Seq<RivalInfo>, n: nat, i: int)
    requires
        0 <= i < n <= rivals.len(),
    ensures
        told(rival_lines(rivals, n), rival_line(i, rivals[i])),
    decreases n,
{
    let before = rival_lines(rivals, (n - 1) as nat);
    let line = rival_line(n - 1, rivals[n - 1]);
    if i == n - 1 {
        lemma_told_whole(line);
        lemma_told_behind(before, line, line);
    } else {
        lemma_rival_told(rivals, (n - 1) as nat, i);
        lemma_told_before(before, line, rival_line(i, rivals[i]));
    }
}

/// A manager is told everything that the restaurant remembers, each on a line of its own.
pub proof fn managers_are_told_what_is_remembered(
    firm: FirmView,
    day: u64,
    brief: BriefingView,
    i: int,
)
    requires
        0 <= i < firm.memory.len(),
    ensures
        told(strategy_prompt(firm, day, brief), "- "@ + firm.memory[i] + "\n"@),
{
    let line = "- "@ + firm.memory[i] + "\n"@;
    let n = firm.memory.len();
    lemma_memory_told(firm.memory, n, i);
    lemma_told_behind("\n## Your reflections\n"@, memory_lines(firm.memory, n), line);
    lemma_told_behind(
        restaurant_part(firm, day, brief) + rivals_part(brief.rivals),
        memory_part(firm.memory),
        line,
    );
    assert forall|a: Seq<char>, b: Seq<char>, part: Seq<char>| told(a, part) implies #[trigger] told(
        a + b,
        part,
    ) by {
        lemma_told_before(a, b, part);
    }
}

/// The line on what is remembered is among the lines.
proof fn lemma_memory_told(memory: Seq<Seq<char>>, n: nat, i: int)
    requires
        0 <= i < n <= memory.len(),
    ensures
        told(memory_lines(memory, n), "- "@ + memory[i] + "\n"@),
    decreases n,
{
    let before = memory_lines(memory, (n - 1) as nat);
    let line = "- "@ + memory[n - 1] + "\n"@;
    if i == n - 1 {
        lemma_told_whole(line);
        lemma_told_behind(before, line, line);
    } else {
        lemma_memory_told(memory, (n - 1) as nat, i);
        lemma_told_before(before, line, "- "@ + memory[i] + "\n"@);
    }
}

/// A customer is told of each offer by a line with its number from zero on, its mean price, its
/// quality and its reputation, its advertisement if it has one, and then its comments.
pub proof fn customers_are_told_of_each_offer(
    customer: CustomerView,
    day: u64,
    offers: Seq<OfferView>,
    group_deliberation: bool,
    i: int,
)
    requires
        0 <= i < offers.len(),
    ensures
        ({
            let o = offers[i];
            let ad = if o.advertisement.len() == 0 {
                seq![]
            } else {
                ", ad: \""@ + o.advertisement + "\""@
            };
            told(choice_prompt(customer, day, offers, group_deliberation), "- Option "@ + decimal(
                i as nat,
            ) + ": avg price "@ + fixed(o.avg_price, 0) + ", quality "@ + fixed(o.avg_score, 3)
                + ", reputation "@ + fixed(o.reputation, 2) + ad + "\n"@)
        }),
        forall|k: int|
            0 <= k < offers[i].recent_comments.len() ==> told(
                choice_prompt(customer, day, offers, group_deliberation),
                "    comment: \""@ + (#[trigger] offers[i].recent_comments[k]) + "\"\n"@,
            ),
{
    let o = offers[i];
    let n = offers.len();
    let lines = offer_lines(i, o);
    let said = comment_lines(o.recent_comments, o.recent_comments.len());
    let line = "- Option "@ + decimal(i as nat) + ": avg price "@ + fixed(o.avg_price, 0)
        + ", quality "@ + fixed(o.avg_score, 3) + ", reputation "@ + fixed(o.reputation, 2)
        + advertisement_part(o.advertisement) + "\n"@;
    lemma_told_whole(line);
    lemma_told_before(line, said, line);
    assert(lines == line + said);
    lemma_offer_told(customer, day, offers, group_deliberation, i, line);
    assert forall|k: int| 0 <= k < o.recent_comments.len() implies told(
        choice_prompt(customer, day, offers, group_deliberation),
        "    comment: \""@ + (#[trigger] o.recent_comments[k]) + "\"\n"@,
    ) by {
        let c = "    comment: \""@ + o.recent_comments[k] + "\"\n"@;
        lemma_comment_told(o.recent_comments, o.recent_comments.len(), k);
        lemma_told_behind(line, said, c);
        lemma_offer_told(customer, day, offers, group_deliberation, i, c);
    }
}

/// What the lines on an offer tell is told to the customer.
proof fn lemma_offer_told(
    customer: CustomerView,
    day: u64,
    offers: Seq<OfferView>,
    group_deliberation: bool,
    i: int,
    part: Seq<char>,
)
    requires
        0 <= i < offers.len(),
        told(offer_lines(i, offers[i]), part),
    ensures
        told(choice_prompt(customer, day, offers, group_deliberation), part),
{
    let n = offers.len();
    lemma_among_offers(offers, n, i, part);
    lemma_told_behind(
        customer_part(customer, day, group_deliberation) + "\n## Restaurants\n"@,
        all_offer_lines(offers, n),
        part,
    );
    assert forall|a: Seq<char>, b: Seq<char>, p: Seq<char>| told(a, p) implies #[trigger] told(
        a + b,
        p,
    ) by {
        lemma_told_before(a, b, p);
    }
}

/// What the lines on an offer tell is told by all lines.
proof fn lemma_among_offers(offers: Seq<OfferView>, n: nat, i: int, part: Seq<char>)
    requires
        0 <= i < n <= offers.len(),
        told(offer_lines(i, offers[i]), part),
    ensures
        told(all_offer_lines(offers, n), part),
    decreases n,
{
    let before = all_offer_lines(offers, (n - 1) as nat);
    let lines = offer_lines(n - 1, offers[n - 1]);
    if i == n - 1 {
        lemma_told_behind(before, lines, part);
    } else {
        lemma_among_offers(offers, (n - 1) as nat, i, part);
        lemma_told_before(before, lines, part);
    }
}

/// The line on a comment is among the lines.
proof fn lemma_comment_told(comments: Seq<Seq<char>>, n: nat, k: int)
    requires
        0 <= k < n <= comments.len(),
    ensures
        told(comment_lines(comments, n), "    comment: \""@ + comments[k] + "\"\n"@),
    decreases n,
{
    let before = comment_lines(comments, (n - 1) as nat);
    let line = "    comment: \""@ + comments[n - 1] + "\"\n"@;
    if k == n - 1 {
        lemma_told_whole(line);
        lemma_told_behind(before, line, line);
    } else {
        lemma_comment_told(comments, (n - 1) as nat, k);
        lemma_told_before(before, line, "    comment: \""@ + comments[k] + "\"\n"@);
    }
}

/// A customer is told the budget, the preference, the state of health, and the last visit, if
/// there was one.
#[verifier::rlimit(40)]
pub proof fn customers_are_told_of_themselves(
    customer: CustomerView,
    day: u64,
    offers: Seq<OfferView>,
    group_deliberation: bool,
)
    ensures
        ({
            let s = choice_prompt(customer, day, offers, group_deliberation);
            &&& told(s, "## Day "@ + decimal(day as nat))
            &&& told(s, "\n## You\n- Daily budget: "@ + fixed(customer.income, 0))
            &&& told(s, "\n- Preference: "@ + customer.preference)
            &&& told(s, "\n- Health / diet: "@ + customer.health)
            &&& customer.visit_memory.len() > 0 ==> ({
                let v = customer.visit_memory[customer.visit_memory.len() - 1];
                told(s, "- Last visit: restaurant "@ + decimal(v.firm as nat) + " (spent "@ + fixed(
                    v.spend,
                    0,
                ) + ", satisfaction "@ + fixed(v.satisfaction, 1) + "/5)\n"@)
            })
        }),
{
    let s0 = "You are a customer in a virtual town deciding which restaurant to visit for dinner today. Pick the single restaurant that best fits your taste, budget and the available information.\n\n"@
        + deliberation_part(group_deliberation);
    let s1 = s0 + "## Day "@ + decimal(day as nat);
    let s2 = s1 + "\n## You\n- Daily budget: "@ + fixed(customer.income, 0);
    let s3 = s2 + "\n- Preference: "@ + customer.preference;
    let s4 = s3 + "\n- Health / diet: "@ + customer.health;
    let visit = last_visit_part(customer.visit_memory);
    assert(customer_part(customer, day, group_deliberation) == s4 + "\n"@ + visit);
    lemma_told_pair(s0, "## Day "@, decimal(day as nat));
    lemma_told_pair(s1, "\n## You\n- Daily budget: "@, fixed(customer.income, 0));
    lemma_told_pair(s2, "\n- Preference: "@, customer.preference);
    lemma_told_pair(s3, "\n- Health / diet: "@, customer.health);
    lemma_told_whole(visit);
    lemma_told_behind(s4 + "\n"@, visit, visit);
    assert forall|a: Seq<char>, b: Seq<char>, part: Seq<char>| told(a, part) implies #[trigger] told(
        a + b,
        part,
    ) by {
        lemma_told_before(a, b, part);
    }
}

/// The integer nearest to a quotient: none is nearer, and of two that are as near it is the even
/// one.
pub proof fn halves_go_to_even(p: nat, q: nat)
    requires
        q > 0,
    ensures
        2 * size(half_even(p, q) * q - p) <= q,
        2 * size(half_even(p, q) * q - p) == q ==> half_even(p, q) % 2 == 0,
{
    reveal(size);
    let n = (p / q) as int;
    vstd::arithmetic::div_mod::lemma_fundamental_div_mod(p as int, q as int);
    assert(q * n == n * q && (n + 1) * q == n * q + q) by (nonlinear_arith);
}

/// The digits of a number, filled up with zeros.
pub proof fn lemma_padded_number(n: nat, width: nat)
    requires
        n < ten_to(width),
    ensures
        padded(n, width).len() == width,
        number(padded(n, width)) == n,
    decreases width,
{
    if width > 0 {
        lemma_padded_number(n / 10, (width - 1) as nat);
        assert(padded(n, width).drop_last() =~= padded(n / 10, (width - 1) as nat));
        assert(padded(n, width).last() == digit_char(n % 10));
        assert(digit_value(digit_char(n % 10)) == n % 10);
    }
}

/// A number that is not negative is written with so many digits behind the point: what stands
/// before it and behind it is, as a number without the point, nearest to the number times the
/// power of ten.
pub proof fn written_numbers_are_nearest(x: Real, places: nat) -> (ab: (Seq<char>, Seq<char>))
    requires
        x.is_finite(),
        !x.negative(),
        places > 0,
    ensures
        fixed(x, places) == ab.0 + seq!['.'] + ab.1,
        ab.1.len() == places,
        ab.0.len() > 0,
        forall|i: int| 0 <= i < ab.0.len() ==> is_digit(#[trigger] ab.0[i]),
        forall|i: int| 0 <= i < ab.1.len() ==> is_digit(#[trigger] ab.1[i]),
        2 * size(
            (number(ab.0) * ten_to(places) + number(ab.1)) * pow2(1074) - x.value() * ten_to(places),
        ) <= pow2(1074),
{
    reveal_strlit("");
    let t = ten_to(places);
    let u = pow2(1074);
    let m = units(x.magnitude());
    let n = half_even(m * t, u);
    lemma_ten_to_pos(places);
    lemma_pow2_pos(1074);
    let a = decimal(n / t);
    let b = padded(n % t, places);
    lemma_decimal(n / t);
    lemma_padded_number(n % t, places);
    lemma_padded(n % t, places);
    halves_go_to_even(m * t, u);
    vstd::arithmetic::div_mod::lemma_fundamental_div_mod(n as int, t as int);
    assert(t * (n / t) == (n / t) * t) by (nonlinear_arith);
    assert(fixed(x, places) =~= a + seq!['.'] + b);
    (a, b)
}

/// Without digits behind the point a number that is not negative is written as a nearest
/// integer.
pub proof fn whole_numbers_are_nearest(x: Real)
    requires
        x.is_finite(),
        !x.negative(),
    ensures
        forall|i: int| 0 <= i < fixed(x, 0).len() ==> is_digit(#[trigger] fixed(x, 0)[i]),
        2 * size(number(fixed(x, 0)) * pow2(1074) - x.value()) <= pow2(1074),
{
    reveal_strlit("");
    let u = pow2(1074);
    let m = units(x.magnitude());
    lemma_pow2_pos(1074);
    assert(ten_to(0) == 1);
    assert(m * 1 == m);
    let n = half_even(m, u);
    lemma_decimal(n);
    halves_go_to_even(m, u);
    assert(fixed(x, 0) =~= decimal(n));
}

} // verus!
