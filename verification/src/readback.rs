//! What scripted managers and customers read from a question is what was put into it.
use crate::binary64::{spec_real, Real};
use crate::bounds::{lemma_plus_ordered, lemma_real_ordered, lemma_times_ordered};
use crate::digits::ten_to;
use crate::numerals::spec_parse_real;
use crate::prompts::{
    all_offer_lines, choice_prompt, customer_part, deliberation_part, last_visit_part, memory_part,
    restaurant_part, rivals_part, strategy_prompt, BriefingView, OfferView, CHOICE_MARK, FIRM_MARK,
};
use crate::reproduce_mock::{
    digits_after, field, is_number_char, number_run, own_customers, price_sensitive, raised,
    told_salary, BUDGET_THRESHOLD,
};
use crate::rounding::{nearest, units};
use crate::text::{
    decimal, digit_char, digit_run, digit_value, find_from, is_digit, lowered, number, occurs_at,
};
use crate::world::{menu_prices, menu_scores, real_mean, CustomerView, FirmView};
use crate::writing::{fixed, fixed_magnitude, half_even, padded};
use vstd::arithmetic::power2::*;
use vstd::prelude::*;
use vstd::string::*;

verus! {

/// No `a` in a text has a `b` at a distance behind it, nor is it that close to the end.
pub open spec fn clear_of(s: Seq<char>, a: char, b: char, distance: int) -> bool {
    forall|i: int|
        0 <= i < s.len() && #[trigger] s[i] == a ==> i + distance < s.len() && s[i + distance] != b
}

/// No `a` in a text.
pub open spec fn without(s: Seq<char>, a: char) -> bool {
    forall|i: int| 0 <= i < s.len() ==> #[trigger] s[i] != a
}

/// Two clear texts make a clear one.
pub proof fn lemma_clear(s: Seq<char>, t: Seq<char>, a: char, b: char, distance: int)
    requires
        clear_of(s, a, b, distance),
        clear_of(t, a, b, distance),
        distance >= 0,
    ensures
        clear_of(s + t, a, b, distance),
{
    assert forall|i: int| 0 <= i < (s + t).len() && #[trigger] (s + t)[i] == a implies i + distance
        < (s + t).len() && (s + t)[i + distance] != b by {
        if i < s.len() {
            assert(s[i] == a);
        } else {
            assert(t[i - s.len()] == a);
        }
    }
}

/// A marker that nothing before it can be taken for is found where it stands.
pub proof fn lemma_find_behind(
    before: Seq<char>,
    marker: Seq<char>,
    after: Seq<char>,
    distance: int,
    from: int,
)
    requires
        0 < distance < marker.len(),
        clear_of(before, marker[0], marker[distance], distance),
        0 <= from <= before.len(),
    ensures
        find_from(before + marker + after, marker, from) == Some(before.len() as int),
    decreases before.len() - from,
{
    let s = before + marker + after;
    let n = before.len() as int;
    if from == n {
        assert(s.subrange(n, n + marker.len()) =~= marker);
    } else {
        if occurs_at(s, marker, from) {
            let here = s.subrange(from, from + marker.len());
            assert(here[0] == before[from]);
            assert(here[distance] == s[from + distance]);
            assert(before[from + distance] == s[from + distance]);
        }
        lemma_find_behind(before, marker, after, distance, from + 1);
    }
}

/// The digits of a number.
pub proof fn lemma_decimal(n: nat)
    ensures
        decimal(n).len() > 0,
        forall|i: int| 0 <= i < decimal(n).len() ==> is_digit(#[trigger] decimal(n)[i]),
        number(decimal(n)) == n,
    decreases n,
{
    assert(is_digit(digit_char(n % 10)) && digit_value(digit_char(n % 10)) == n % 10);
    if n >= 10 {
        lemma_decimal(n / 10);
        assert(decimal(n).drop_last() =~= decimal(n / 10));
        assert(decimal(n).last() == digit_char(n % 10));
    } else {
        assert(decimal(n).last() == digit_char(n));
        assert(number(decimal(n).drop_last()) == 0);
    }
}

/// Padded digits are digits.
pub proof fn lemma_padded(n: nat, width: nat)
    ensures
        forall|i: int| 0 <= i < padded(n, width).len() ==> is_digit(#[trigger] padded(n, width)[i]),
    decreases width,
{
    if width > 0 {
        assert(is_digit(digit_char(n % 10)));
        lemma_padded(n / 10, (width - 1) as nat);
        let rest = padded(n / 10, (width - 1) as nat);
        assert forall|i: int| 0 <= i < padded(n, width).len() implies is_digit(
            #[trigger] padded(n, width)[i],
        ) by {
            if i < rest.len() {
                assert(padded(n, width)[i] == rest[i]);
            }
        }
    }
}

/// A written number holds none of some characters.
pub proof fn lemma_fixed_without(x: Real, places: nat, a: char)
    requires
        a == 'Y' || a == 'C' || a == 'D' || a == 'P' || a == 'q' || a == 'r' || a == '\n',
    ensures
        without(fixed(x, places), a),
{
    reveal_strlit("NaN");
    reveal_strlit("inf");
    reveal_strlit("-");
    reveal_strlit("");
    let u = units(x.magnitude());
    let n = half_even(u * ten_to(places), pow2(1074));
    lemma_decimal(n);
    lemma_decimal(n / ten_to(places));
    lemma_padded(n % ten_to(places), places);
    if x.is_finite() {
        let m = fixed_magnitude(u, places);
        assert(without(m, a)) by {
            assert forall|i: int| 0 <= i < m.len() implies #[trigger] m[i] != a by {
                if places == 0 {
                    assert(is_digit(decimal(n)[i]));
                } else {
                    let whole = decimal(n / ten_to(places)).push('.');
                    if i < whole.len() - 1 {
                        assert(is_digit(decimal(n / ten_to(places))[i]));
                        assert(m[i] == whole[i]);
                    } else if i == whole.len() - 1 {
                        assert(m[i] == '.');
                    } else {
                        assert(is_digit(padded(n % ten_to(places), places)[i - whole.len()]));
                    }
                }
            }
        }
    }
}

/// Where digits end before something else.
pub proof fn lemma_run_of_digits(s: Seq<char>, from: int, to: int, i: int)
    requires
        0 <= from <= i <= to <= s.len(),
        forall|k: int| from <= k < to ==> is_digit(#[trigger] s[k]),
        to < s.len() ==> !is_digit(s[to]),
    ensures
        digit_run(s, i) == to,
    decreases to - i,
{
    if i < to {
        lemma_run_of_digits(s, from, to, i + 1);
    }
}

/// Where the characters of a number end before something else.
proof fn lemma_run_of_number(s: Seq<char>, from: int, to: int, i: int)
    requires
        0 <= from <= i <= to <= s.len(),
        forall|k: int| from <= k < to ==> is_number_char(#[trigger] s[k]),
        to < s.len() ==> !is_number_char(s[to]),
    ensures
        number_run(s, i) == to,
    decreases to - i,
{
    if i < to {
        lemma_run_of_number(s, from, to, i + 1);
    }
}

/// What is told of a restaurant before its salary.
spec fn before_salary(firm: FirmView, day: u64) -> Seq<char> {
    "You are the manager of a restaurant competing for customers in a virtual town. Each day you may adjust your prices, the salary you pay your chef (which raises dish quality), and your advertisement. Your goal is to maximize cumulative revenue while staying solvent.\n\n## Day "@
        + decimal(day as nat) + "\n## Your restaurant\n- Funds: "@ + fixed(firm.funds, 0)
        + "\n- Average price: "@ + fixed(real_mean(menu_prices(firm.menu)), 0)
}

/// What is told of a restaurant before its customers.
spec fn before_customers(firm: FirmView, day: u64) -> Seq<char> {
    before_salary(firm, day) + "\n- Chef salary: "@ + fixed(firm.chef_salary, 0)
        + "\n- Average dish quality score: "@ + fixed(real_mean(menu_scores(firm.menu)), 3)
        + "\n- Reputation: "@ + fixed(firm.reputation, 2)
}

/// What comes before the salary is taken for neither marker.
proof fn lemma_before_salary_clear(firm: FirmView, day: u64)
    ensures
        clear_of(before_salary(firm, day), 'Y', 'e', 1),
        clear_of(before_salary(firm, day), 'C', 'h', 1),
{
    let a =
        "You are the manager of a restaurant competing for customers in a virtual town. Each day you may adjust your prices, the salary you pay your chef (which raises dish quality), and your advertisement. Your goal is to maximize cumulative revenue while staying solvent.\n\n## Day "@;
    reveal_strlit(
        "You are the manager of a restaurant competing for customers in a virtual town. Each day you may adjust your prices, the salary you pay your chef (which raises dish quality), and your advertisement. Your goal is to maximize cumulative revenue while staying solvent.\n\n## Day ",
    );
    assert(clear_of(a, 'Y', 'e', 1) && clear_of(a, 'C', 'h', 1));
    lemma_before_salary_rest(firm, day, a);
}

proof fn lemma_before_salary_rest(firm: FirmView, day: u64, a: Seq<char>)
    requires
        clear_of(a, 'Y', 'e', 1),
        clear_of(a, 'C', 'h', 1),
    ensures
        ({
            let s = a + decimal(day as nat) + "\n## Your restaurant\n- Funds: "@ + fixed(
                firm.funds,
                0,
            ) + "\n- Average price: "@ + fixed(real_mean(menu_prices(firm.menu)), 0);
            clear_of(s, 'Y', 'e', 1) && clear_of(s, 'C', 'h', 1)
        }),
{
    reveal_strlit("\n## Your restaurant\n- Funds: ");
    reveal_strlit("\n- Average price: ");
    let b = decimal(day as nat);
    let c = "\n## Your restaurant\n- Funds: "@;
    let d = fixed(firm.funds, 0);
    let e = "\n- Average price: "@;
    let f = fixed(real_mean(menu_prices(firm.menu)), 0);
    lemma_decimal(day as nat);
    lemma_fixed_without(firm.funds, 0, 'Y');
    lemma_fixed_without(firm.funds, 0, 'C');
    lemma_fixed_without(real_mean(menu_prices(firm.menu)), 0, 'Y');
    lemma_fixed_without(real_mean(menu_prices(firm.menu)), 0, 'C');
    lemma_clear(a, b, 'Y', 'e', 1);
    lemma_clear(a + b, c, 'Y', 'e', 1);
    lemma_clear(a + b + c, d, 'Y', 'e', 1);
    lemma_clear(a + b + c + d, e, 'Y', 'e', 1);
    lemma_clear(a + b + c + d + e, f, 'Y', 'e', 1);
    lemma_clear(a, b, 'C', 'h', 1);
    lemma_clear(a + b, c, 'C', 'h', 1);
    lemma_clear(a + b + c, d, 'C', 'h', 1);
    lemma_clear(a + b + c + d, e, 'C', 'h', 1);
    lemma_clear(a + b + c + d + e, f, 'C', 'h', 1);
}

/// What comes before the customers is not taken for their marker.
proof fn lemma_before_customers_clear(firm: FirmView, day: u64)
    ensures
        clear_of(before_customers(firm, day), 'Y', 'e', 1),
{
    reveal_strlit("\n- Chef salary: ");
    reveal_strlit("\n- Average dish quality score: ");
    reveal_strlit("\n- Reputation: ");
    let x = before_salary(firm, day);
    let y = "\n- Chef salary: "@;
    let a = fixed(firm.chef_salary, 0);
    let b = "\n- Average dish quality score: "@;
    let c = fixed(real_mean(menu_scores(firm.menu)), 3);
    let d = "\n- Reputation: "@;
    let e = fixed(firm.reputation, 2);
    lemma_before_salary_clear(firm, day);
    lemma_fixed_without(firm.chef_salary, 0, 'Y');
    lemma_fixed_without(real_mean(menu_scores(firm.menu)), 3, 'Y');
    lemma_fixed_without(firm.reputation, 2, 'Y');
    lemma_clear(x, y, 'Y', 'e', 1);
    lemma_clear(x + y, a, 'Y', 'e', 1);
    lemma_clear(x + y + a, b, 'Y', 'e', 1);
    lemma_clear(x + y + a + b, c, 'Y', 'e', 1);
    lemma_clear(x + y + a + b + c, d, 'Y', 'e', 1);
    lemma_clear(x + y + a + b + c + d, e, 'Y', 'e', 1);
}

/// A text starts with another one.
spec fn starts(s: Seq<char>, p: Seq<char>) -> bool {
    p.len() <= s.len() && s.take(p.len() as int) == p
}

/// What a text starts with, it starts with when more is added.
proof fn lemma_starts(s: Seq<char>, p: Seq<char>, t: Seq<char>)
    requires
        starts(s, p),
    ensures
        starts(s + t, p),
{
    assert((s + t).take(p.len() as int) =~= s.take(p.len() as int));
}

/// What is read behind a marker in a text that starts with something that cannot be taken for
/// it, the marker, and characters that end where the text goes on.
proof fn lemma_read_digits(
    s: Seq<char>,
    head: Seq<char>,
    marker: Seq<char>,
    digits: Seq<char>,
    stop: char,
    distance: int,
)
    requires
        0 < distance < marker.len(),
        clear_of(head, marker[0], marker[distance], distance),
        starts(s, (head + marker + digits).push(stop)),
        forall|i: int| 0 <= i < digits.len() ==> is_digit(#[trigger] digits[i]),
        !is_number_char(stop),
    ensures
        digits_after(s, marker) == Some(digits),
        field(s, marker) == spec_parse_real(digits),
{
    let p = (head + marker + digits).push(stop);
    let b = (head.len() + marker.len()) as int;
    let e = b + digits.len();
    let after = s.skip(b);
    assert(s =~= head + marker + after) by {
        assert forall|i: int| 0 <= i < b implies s[i] == #[trigger] (head + marker)[i] by {
            assert(s.take(p.len() as int)[i] == p[i]);
        }
    }
    lemma_find_behind(head, marker, after, distance, 0);
    assert forall|k: int| b <= k < e implies is_digit(#[trigger] s[k]) by {
        assert(s.take(p.len() as int)[k] == p[k]);
        assert(p[k] == digits[k - b]);
    }
    assert(s[e] == stop) by {
        assert(s.take(p.len() as int)[e] == p[e]);
    }
    lemma_run_of_digits(s, b, e, b);
    lemma_run_of_number(s, b, e, b);
    assert(s.subrange(b, e) =~= digits) by {
        assert forall|k: int| b <= k < e implies s[k] == #[trigger] digits[k - b] by {
            assert(s.take(p.len() as int)[k] == p[k]);
        }
    }
}

/// A manager reads the customers of the day before as they were told.
pub proof fn managers_read_their_customers(firm: FirmView, day: u64, brief: BriefingView)
    ensures
        own_customers(strategy_prompt(firm, day, brief)) == brief.own_customers,
{
    let n = brief.own_customers as nat;
    let head = before_customers(firm, day);
    let lead = head + "\n- "@;
    let marker = "Yesterday: "@;
    let digits = decimal(n);
    let p = lead + marker + digits;
    reveal_strlit("Yesterday: ");
    reveal_strlit("\n- Yesterday: ");
    reveal_strlit("\n- ");
    lemma_before_customers_clear(firm, day);
    lemma_clear(head, "\n- "@, 'Y', 'e', 1);
    lemma_decimal(n);
    let s1 = head + "\n- Yesterday: "@ + digits;
    assert("\n- Yesterday: "@ =~= "\n- "@ + marker);
    assert(s1 =~= p);
    let s2 = s1 + " customers, revenue "@;
    assert(starts(s2, p.push(' '))) by {
        reveal_strlit(" customers, revenue ");
        assert(s2.take((p.len() + 1) as int) =~= p.push(' '));
    }
    lemma_starts(s2, p.push(' '), fixed(brief.own_revenue, 0));
    lemma_starts(s2 + fixed(brief.own_revenue, 0), p.push(' '), "\n"@);
    let r = restaurant_part(firm, day, brief);
    assert(r == s2 + fixed(brief.own_revenue, 0) + "\n"@);
    lemma_prompt_starts(firm, day, brief, p.push(' '));
    lemma_read_digits(strategy_prompt(firm, day, brief), lead, marker, digits, ' ', 1);
}

/// A question starts with what its part on the restaurant starts with.
proof fn lemma_prompt_starts(firm: FirmView, day: u64, brief: BriefingView, p: Seq<char>)
    requires
        starts(restaurant_part(firm, day, brief), p),
    ensures
        starts(strategy_prompt(firm, day, brief), p),
{
    let a = restaurant_part(firm, day, brief);
    let b = rivals_part(brief.rivals);
    let c = memory_part(firm.memory);
    let d = "\n## Decision\nChoose a "@;
    lemma_starts(a, p, b);
    lemma_starts(a + b, p, c);
    lemma_starts(a + b + c, p, d);
    lemma_starts(a + b + c + d, p, FIRM_MARK@);
    lemma_starts(
        a + b + c + d + FIRM_MARK@,
        p,
        " (multiply all dish prices, 0.5 = halve, 1.5 = raise by 50%), a chef_salary (>= 0; higher raises quality), and a short advertisement.\nAnswer with JSON only, e.g. {\"price_factor\": 1.05, \"chef_salary\": 2200, \"advertisement\": \"Fresh sushi daily!\"}\n"@,
    );
}

/// The integer nearest to a number, halves going to the even one.
pub open spec fn whole(x: Real) -> nat {
    half_even(units(x.magnitude()), pow2(1074))
}

/// The digits of an integer are read as that integer.
pub proof fn lemma_parse_decimal(n: nat)
    ensures
        spec_parse_real(decimal(n)) == Some(spec_real(n)),
{
    let d = decimal(n);
    lemma_decimal(n);
    reveal_strlit("inf");
    reveal_strlit("infinity");
    reveal_strlit("nan");
    assert(is_digit(d[0]));
    assert(lowered(d)[0] == d[0]);
    lemma_run_of_digits(d, 0, d.len() as int, 0);
    assert(d.subrange(0, d.len() as int) =~= d);
    assert(ten_to(0) == 1);
    assert(n * 1 == n);
}

/// A number that is not negative is written, without a point, as its nearest integer.
proof fn lemma_fixed_whole_number(x: Real)
    requires
        x.is_finite(),
        !x.negative(),
    ensures
        fixed(x, 0) == decimal(whole(x)),
{
    reveal_strlit("");
    let u = units(x.magnitude());
    assert(ten_to(0) == 1);
    assert(u * 1 == u);
    assert(""@ + decimal(whole(x)) =~= decimal(whole(x)));
}

/// A manager reads the salary of the chef as the nearest integer.
pub proof fn managers_read_their_salary(firm: FirmView, day: u64, brief: BriefingView)
    requires
        firm.chef_salary.is_finite(),
        !firm.chef_salary.negative(),
    ensures
        told_salary(strategy_prompt(firm, day, brief)) == spec_real(whole(firm.chef_salary)),
{
    let head = before_salary(firm, day);
    let lead = head + "\n- "@;
    let marker = "Chef salary: "@;
    let digits = decimal(whole(firm.chef_salary));
    let p = lead + marker + digits;
    let q = p.push('\n');
    reveal_strlit("Chef salary: ");
    reveal_strlit("\n- Chef salary: ");
    reveal_strlit("\n- ");
    lemma_before_salary_clear(firm, day);
    lemma_clear(head, "\n- "@, 'C', 'h', 1);
    lemma_decimal(whole(firm.chef_salary));
    lemma_fixed_whole_number(firm.chef_salary);
    lemma_parse_decimal(whole(firm.chef_salary));
    let s1 = head + "\n- Chef salary: "@ + digits;
    assert("\n- Chef salary: "@ =~= "\n- "@ + marker);
    assert(s1 =~= p);
    let a = "\n- Average dish quality score: "@;
    let b = fixed(real_mean(menu_scores(firm.menu)), 3);
    let c = "\n- Reputation: "@;
    let d = fixed(firm.reputation, 2);
    let e = "\n- Yesterday: "@;
    let f = decimal(brief.own_customers as nat);
    let g = " customers, revenue "@;
    let h = fixed(brief.own_revenue, 0);
    assert(starts(s1 + a, q)) by {
        reveal_strlit("\n- Average dish quality score: ");
        assert((s1 + a).take((p.len() + 1) as int) =~= q);
    }
    lemma_starts(s1 + a, q, b);
    lemma_starts(s1 + a + b, q, c);
    lemma_starts(s1 + a + b + c, q, d);
    lemma_starts(s1 + a + b + c + d, q, e);
    lemma_starts(s1 + a + b + c + d + e, q, f);
    lemma_starts(s1 + a + b + c + d + e + f, q, g);
    lemma_starts(s1 + a + b + c + d + e + f + g, q, h);
    lemma_starts(s1 + a + b + c + d + e + f + g + h, q, "\n"@);
    assert(restaurant_part(firm, day, brief) == s1 + a + b + c + d + e + f + g + h + "\n"@);
    lemma_prompt_starts(firm, day, brief, q);
    lemma_read_digits(strategy_prompt(firm, day, brief), lead, marker, digits, '\n', 1);
}

/// What a customer is told before their budget.
pub open spec fn before_budget(day: u64, group_deliberation: bool) -> Seq<char> {
    "You are a customer in a virtual town deciding which restaurant to visit for dinner today. Pick the single restaurant that best fits your taste, budget and the available information.\n\n"@
        + deliberation_part(group_deliberation) + "## Day "@ + decimal(day as nat)
}

/// What comes before the budget is not taken for its marker.
pub proof fn lemma_before_budget_clear(day: u64, group_deliberation: bool)
    ensures
        clear_of(before_budget(day, group_deliberation), 'D', 'i', 2),
{
    let a =
        "You are a customer in a virtual town deciding which restaurant to visit for dinner today. Pick the single restaurant that best fits your taste, budget and the available information.\n\n"@;
    let b = deliberation_part(group_deliberation);
    let c = "## Day "@;
    let d = decimal(day as nat);
    assert(clear_of(a, 'D', 'i', 2)) by {
        reveal_strlit(
            "You are a customer in a virtual town deciding which restaurant to visit for dinner today. Pick the single restaurant that best fits your taste, budget and the available information.\n\n",
        );
    }
    assert(clear_of(b, 'D', 'i', 2)) by {
        let x = "Your "@;
        let y = "group deliberates together"@;
        let z = ": put your own budget and taste before what is popular with others.\n\n"@;
        reveal_strlit("Your ");
        reveal_strlit("group deliberates together");
        reveal_strlit(": put your own budget and taste before what is popular with others.\n\n");
        lemma_clear(x, y, 'D', 'i', 2);
        lemma_clear(x + y, z, 'D', 'i', 2);
    }
    assert(clear_of(c, 'D', 'i', 2)) by {
        reveal_strlit("## Day ");
    }
    lemma_decimal(day as nat);
    lemma_clear(a, b, 'D', 'i', 2);
    lemma_clear(a + b, c, 'D', 'i', 2);
    lemma_clear(a + b + c, d, 'D', 'i', 2);
}

/// A customer reads their budget as the nearest integer, and looks to the price where it is
/// below the threshold.
pub proof fn customers_read_their_budget(
    customer: CustomerView,
    day: u64,
    offers: Seq<OfferView>,
    group_deliberation: bool,
)
    requires
        customer.income.is_finite(),
        !customer.income.negative(),
    ensures
        field(choice_prompt(customer, day, offers, group_deliberation), "Daily budget: "@) == Some(
            spec_real(whole(customer.income)),
        ),
        price_sensitive(choice_prompt(customer, day, offers, group_deliberation)) <==> spec_real(
            whole(customer.income),
        ).less(spec_real(BUDGET_THRESHOLD as nat)),
{
    let head = before_budget(day, group_deliberation);
    let lead = head + "\n## You\n- "@;
    let marker = "Daily budget: "@;
    let digits = decimal(whole(customer.income));
    let p = lead + marker + digits;
    let q = p.push('\n');
    reveal_strlit("Daily budget: ");
    reveal_strlit("\n## You\n- Daily budget: ");
    reveal_strlit("\n## You\n- ");
    lemma_before_budget_clear(day, group_deliberation);
    lemma_clear(head, "\n## You\n- "@, 'D', 'i', 2);
    lemma_decimal(whole(customer.income));
    lemma_fixed_whole_number(customer.income);
    lemma_parse_decimal(whole(customer.income));
    let s1 = head + "\n## You\n- Daily budget: "@ + digits;
    assert("\n## You\n- Daily budget: "@ =~= "\n## You\n- "@ + marker);
    assert(s1 =~= p);
    let a = "\n- Preference: "@;
    let b = customer.preference;
    let c = "\n- Health / diet: "@;
    let d = customer.health;
    let e = "\n"@;
    let f = last_visit_part(customer.visit_memory);
    assert(starts(s1 + a, q)) by {
        reveal_strlit("\n- Preference: ");
        assert((s1 + a).take((p.len() + 1) as int) =~= q);
    }
    lemma_starts(s1 + a, q, b);
    lemma_starts(s1 + a + b, q, c);
    lemma_starts(s1 + a + b + c, q, d);
    lemma_starts(s1 + a + b + c + d, q, e);
    lemma_starts(s1 + a + b + c + d + e, q, f);
    assert(customer_part(customer, day, group_deliberation) == s1 + a + b + c + d + e + f);
    lemma_choice_prompt_starts(customer, day, offers, group_deliberation, q);
    lemma_read_digits(
        choice_prompt(customer, day, offers, group_deliberation),
        lead,
        marker,
        digits,
        '\n',
        2,
    );
}

/// A question starts with what its part on the customer starts with.
proof fn lemma_choice_prompt_starts(
    customer: CustomerView,
    day: u64,
    offers: Seq<OfferView>,
    group_deliberation: bool,
    p: Seq<char>,
)
    requires
        starts(customer_part(customer, day, group_deliberation), p),
    ensures
        starts(choice_prompt(customer, day, offers, group_deliberation), p),
{
    let a = customer_part(customer, day, group_deliberation);
    let b = "\n## Restaurants\n"@;
    let c = all_offer_lines(offers, offers.len());
    let d = "\n## Decision\nReply with the "@;
    let e = " of the restaurant you will visit (0 to "@;
    let f = decimal(
        if offers.len() == 0 {
            0
        } else {
            (offers.len() - 1) as nat
        },
    );
    let g = ").\nAnswer with JSON only, e.g. {\"choice\": 0}\n"@;
    lemma_starts(a, p, b);
    lemma_starts(a + b, p, c);
    lemma_starts(a + b + c, p, d);
    lemma_starts(a + b + c + d, p, CHOICE_MARK@);
    lemma_starts(a + b + c + d + CHOICE_MARK@, p, e);
    lemma_starts(a + b + c + d + CHOICE_MARK@ + e, p, f);
    lemma_starts(a + b + c + d + CHOICE_MARK@ + e + f, p, g);
}

/// What a number of customers adds to a salary.
spec fn invested(customers: u64) -> Real {
    spec_real(80).plus(spec_real(12).times(spec_real(customers as nat)))
}

/// What customers add is a number that is not negative, and more customers add no less.
proof fn lemma_invested(a: u64, b: u64)
    requires
        a <= b,
    ensures
        !invested(a).is_nan(),
        !invested(a).negative(),
        !invested(b).is_nan(),
        !invested(b).negative(),
        invested(a).value() <= invested(b).value(),
{
    lemma2_to64();
    lemma2_to64_rest();
    lemma_pow2_strictly_increases(64, 1000);
    lemma_real_ordered(12, 12);
    lemma_real_ordered(80, 80);
    lemma_real_ordered(a as nat, b as nat);
    lemma_times_ordered(spec_real(12), spec_real(a as nat), spec_real(b as nat));
    lemma_plus_ordered(
        spec_real(80),
        spec_real(12).times(spec_real(a as nat)),
        spec_real(12).times(spec_real(b as nat)),
    );
}

/// A manager never lowers the salary of the chef, and raises it to no more than 5000.
pub proof fn salaries_only_rise(salary: Real, customers: u64)
    requires
        !salary.is_nan(),
        !salary.negative(),
    ensures
        salary.at_most(raised(salary, customers)),
        raised(salary, customers) == salary || raised(salary, customers).at_most(spec_real(5_000)),
{
    lemma2_to64();
    lemma_pow2_strictly_increases(64, 1000);
    lemma_real_ordered(5_000, 5_000);
}

/// More customers make for a salary that is no lower.
pub proof fn customers_raise_salaries(salary: Real, a: u64, b: u64)
    requires
        salary.is_finite(),
        !salary.negative(),
        a <= b,
    ensures
        raised(salary, a).at_most(raised(salary, b)),
{
    lemma2_to64();
    lemma_pow2_strictly_increases(64, 1000);
    lemma_real_ordered(5_000, 5_000);
    lemma_invested(a, b);
    lemma_plus_ordered(salary, invested(a), invested(b));
}

} // verus!
