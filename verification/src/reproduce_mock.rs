//! Scripted managers and customers, who answer by rules of thumb in place of a language model.
//!
//! Managers put into their chefs what their customers bring in. Customers follow the crowd to
//! where reputation and quality are highest, except those who look to the price and those who
//! deliberate in a group.
use crate::binary64::{ratio, real_of, spec_ratio, spec_real, Real};
use crate::hashing::{fnv, hash_number, label_hash, low_bytes};
use crate::numerals::{parse_real, spec_parse_real};
use crate::prompts::{CHOICE_MARK, DELIBERATION_MARK, FIRM_MARK};
use crate::rounding::INF;
use crate::shortest::{push_shortest, shortest};
use crate::text::{
    chars_of, contains, decimal, digit, digit_run, find, find_part, is_digit, number, number_of,
    occurs_at, part_of, push_decimal, skip_digits, stands_at, string_of, trim_start, trimmed_start,
};
use vstd::prelude::*;
use vstd::string::*;
use vstd::utf8::encode_utf8;

verus! {

/// What a character of a number is: a digit, a point or a minus sign.
pub open spec fn is_number_char(c: char) -> bool {
    is_digit(c) || c == '.' || c == '-'
}

/// Where the characters of a number end that start at `i`.
pub open spec fn number_run(s: Seq<char>, i: int) -> int
    decreases s.len() - i,
{
    if 0 <= i < s.len() && is_number_char(s[i]) {
        number_run(s, i + 1)
    } else {
        i
    }
}

/// The number behind the first place where a marker stands.
pub open spec fn field(s: Seq<char>, marker: Seq<char>) -> Option<Real> {
    match find(s, marker) {
        Some(i) => spec_parse_real(
            s.subrange(i + marker.len(), number_run(s, i + marker.len())),
        ),
        None => None,
    }
}

/// The digits behind the first place where a marker stands.
pub open spec fn digits_after(s: Seq<char>, marker: Seq<char>) -> Option<Seq<char>> {
    match find(s, marker) {
        Some(i) => Some(s.subrange(i + marker.len(), digit_run(s, i + marker.len()))),
        None => None,
    }
}

/// Where a marker ends, where it first stands.
fn end_of(v: &Vec<char>, marker: &str) -> (r: Option<usize>)
    ensures
        match r {
            Some(b) => find(v@, marker@) == Some(b - marker@.len()) && b <= v@.len(),
            None => find(v@, marker@) is None,
        },
{
    let n: usize = v.len();
    let m = chars_of(marker);
    match find_part(v, &m) {
        Some(i) => Some(i + m.len()),
        None => None,
    }
}

/// The number behind the first place where a marker stands, if one is there.
pub fn field_after(v: &Vec<char>, marker: &str) -> (r: Option<Real>)
    ensures
        r == field(v@, marker@),
{
    match end_of(v, marker) {
        Some(b) => {
            let mut e: usize = b;
            while e < v.len() && (digit(v[e]) || v[e] == '.' || v[e] == '-')
                invariant
                    b <= e <= v@.len(),
                    number_run(v@, b as int) == number_run(v@, e as int),
                decreases v@.len() - e,
            {
                e = e + 1;
            }
            parse_real(&part_of(v, b, e))
        },
        None => None,
    }
}

/// The customers of the day before that a question tells of; zero if it tells of none.
pub open spec fn own_customers(s: Seq<char>) -> u64 {
    match digits_after(s, "Yesterday: "@) {
        Some(d) => if d.len() > 0 && number(d) <= u64::MAX {
            number(d) as u64
        } else {
            0
        },
        None => 0,
    }
}

/// The customers of the day before that a question tells of; zero if it tells of none.
pub fn parse_own_customers(prompt: &str) -> (r: u64)
    ensures
        r == own_customers(prompt@),
{
    let v = chars_of(prompt);
    if let Some(b) = end_of(&v, "Yesterday: ") {
        let e: usize = skip_digits(&v, b);
        if e > b {
            if let Some(n) = number_of(&v, b, e) {
                return n;
            }
        }
    }
    0
}

/// The chef's salary that a question tells of; 2000 if it tells of none.
pub open spec fn told_salary(s: Seq<char>) -> Real {
    match field(s, "Chef salary: "@) {
        Some(x) => x,
        None => spec_real(2_000),
    }
}

/// The chef's salary that a question tells of; 2000 if it tells of none.
pub fn parse_chef_salary(prompt: &str) -> (r: Real)
    ensures
        r == told_salary(prompt@),
{
    match field_after(&chars_of(prompt), "Chef salary: ") {
        Some(x) => x,
        None => real_of(2_000),
    }
}

/// A salary raised by 80 and by 12 for each customer, up to 5000; one above that stays.
pub open spec fn raised(salary: Real, customers: u64) -> Real {
    salary.larger(
        salary.plus(spec_real(80).plus(spec_real(12).times(spec_real(customers as nat)))).smaller(
            spec_real(5_000),
        ),
    )
}

/// Below how many customers a restaurant is losing.
pub const FIRM_LOSING_CUSTOMERS: u64 = 15;

/// The advertisement of a restaurant that is losing, or of one that is not.
pub open spec fn slogan(customers: u64) -> Seq<char> {
    if customers < FIRM_LOSING_CUSTOMERS {
        "Come discover us — fresh quality every day!"@
    } else {
        "A customer favorite — quality you can taste."@
    }
}

/// What a manager answers.
pub open spec fn firm_reply(s: Seq<char>) -> Seq<char> {
    "{\"price_factor\": 1.0, \"chef_salary\": "@ + shortest(
        raised(told_salary(s), own_customers(s)),
    ) + ", \"advertisement\": \""@ + slogan(own_customers(s)) + "\"}"@
}

/// What a manager answers: prices stay, and the chef's salary is raised by what the customers
/// of the day before allow.
pub fn reproduce_firm_reply(prompt: &str) -> (r: String)
    ensures
        r@ == firm_reply(prompt@),
{
    let own: u64 = parse_own_customers(prompt);
    let told = parse_chef_salary(prompt);
    let salary = told.larger(
        told.plus(real_of(80).plus(real_of(12).times(real_of(own)))).smaller(real_of(5_000)),
    );
    let mut s = "{\"price_factor\": 1.0, \"chef_salary\": ".to_owned();
    push_shortest(&mut s, salary);
    s.append(", \"advertisement\": \"");
    if own < FIRM_LOSING_CUSTOMERS {
        s.append("Come discover us — fresh quality every day!");
    } else {
        s.append("A customer favorite — quality you can taste.");
    }
    s.append("\"}");
    s
}

/// Where the line ends that starts at `i`: at a line feed, or at the end.
pub open spec fn line_end(s: Seq<char>, i: int) -> int
    decreases s.len() - i,
{
    if 0 <= i < s.len() && s[i] != '\n' {
        line_end(s, i + 1)
    } else {
        i
    }
}

/// A line ends where it starts or later, and not behind the end.
pub proof fn lemma_line_end(s: Seq<char>, i: int)
    requires
        0 <= i <= s.len(),
    ensures
        i <= line_end(s, i) <= s.len(),
    decreases s.len() - i,
{
    if i < s.len() && s[i] != '\n' {
        lemma_line_end(s, i + 1);
    }
}

/// The line that starts at `i`, without the carriage return before a line feed.
pub open spec fn line_at(s: Seq<char>, i: int) -> Seq<char> {
    let e = line_end(s, i);
    if i < e < s.len() && s[e - 1] == '\r' {
        s.subrange(i, e - 1)
    } else {
        s.subrange(i, e)
    }
}

/// An offer as a customer reads it.
#[derive(Clone, Copy, Debug, PartialEq, Eq, Structural)]
pub struct Offered {
    /// The number of the offer.
    pub index: usize,
    pub price: Real,
    pub quality: Real,
    pub reputation: Real,
}

/// A number, or another where it is missing.
pub open spec fn number_or(x: Option<Real>, other: Real) -> Real {
    match x {
        Some(y) => y,
        None => other,
    }
}

/// The offer that a line tells of, if it tells of one.
pub open spec fn offer_in(line: Seq<char>) -> Option<Offered> {
    let l = trimmed_start(line);
    let mark = "- Option "@;
    if occurs_at(l, mark, 0) {
        let rest = l.skip(mark.len() as int);
        let d = rest.subrange(0, digit_run(rest, 0));
        if d.len() > 0 && number(d) <= usize::MAX {
            Some(
                Offered {
                    index: number(d) as usize,
                    price: number_or(
                        field(rest, "avg price "@),
                        Real { bits: INF },
                    ),
                    quality: number_or(field(rest, "quality "@), Real { bits: 0 }),
                    reputation: number_or(field(rest, "reputation "@), Real { bits: 0 }),
                },
            )
        } else {
            None
        }
    } else {
        None
    }
}

/// The offers that the lines from `i` on tell of.
pub open spec fn offers_from(s: Seq<char>, i: int) -> Seq<Offered>
    decreases s.len() + 1 - i,
{
    if i < 0 || i >= s.len() {
        seq![]
    } else {
        proof {
            lemma_line_end(s, i);
        }
        (match offer_in(line_at(s, i)) {
            Some(o) => seq![o],
            None => seq![],
        }) + offers_from(s, line_end(s, i) + 1)
    }
}

/// Where the line ends that starts at `i`.
fn find_line_end(v: &Vec<char>, i: usize) -> (e: usize)
    requires
        i <= v@.len(),
    ensures
        e == line_end(v@, i as int),
        i <= e <= v@.len(),
{
    let mut e: usize = i;
    while e < v.len() && v[e] != '\n'
        invariant
            i <= e <= v@.len(),
            line_end(v@, i as int) == line_end(v@, e as int),
        decreases v@.len() - e,
    {
        e = e + 1;
    }
    e
}

/// The line that starts at `i`.
fn line(v: &Vec<char>, i: usize) -> (r: Vec<char>)
    requires
        i <= v@.len(),
    ensures
        r@ == line_at(v@, i as int),
{
    let e: usize = find_line_end(v, i);
    if i < e && e < v.len() && v[e - 1] == '\r' {
        part_of(v, i, e - 1)
    } else {
        part_of(v, i, e)
    }
}

/// The offer that a line tells of, if it tells of one.
fn read_offer(line: &Vec<char>) -> (r: Option<Offered>)
    ensures
        r == offer_in(line@),
{
    let l = trim_start(line);
    let mark = chars_of("- Option ");
    if !stands_at(&l, &mark, 0) {
        return None;
    }
    let rest = part_of(&l, mark.len(), l.len());
    proof {
        assert(rest@ =~= l@.skip(mark@.len() as int));
    }
    let e: usize = skip_digits(&rest, 0);
    if e == 0 {
        return None;
    }
    match number_of(&rest, 0, e) {
        Some(n) => {
            if n > usize::MAX as u64 {
                return None;
            }
            let price = match field_after(&rest, "avg price ") {
                Some(x) => x,
                None => Real { bits: INF },
            };
            let quality = match field_after(&rest, "quality ") {
                Some(x) => x,
                None => Real { bits: 0 },
            };
            let reputation = match field_after(&rest, "reputation ") {
                Some(x) => x,
                None => Real { bits: 0 },
            };
            Some(Offered { index: n as usize, price, quality, reputation })
        },
        None => None,
    }
}

/// The offers that a question tells of, line by line.
pub fn option_lines(prompt: &str) -> (r: Vec<Offered>)
    ensures
        r@ == offers_from(prompt@, 0),
{
    let v = chars_of(prompt);
    let mut r: Vec<Offered> = Vec::new();
    let mut i: usize = 0;
    proof {
        assert(seq![] + offers_from(v@, 0) =~= offers_from(v@, 0));
    }
    while i < v.len()
        invariant
            i <= v@.len() + 1,
            v@ == prompt@,
            r@ + offers_from(v@, i as int) == offers_from(v@, 0),
        decreases v@.len() + 1 - i,
    {
        let ghost before = r@;
        let e: usize = find_line_end(&v, i);
        let o = read_offer(&line(&v, i));
        if let Some(x) = o {
            r.push(x);
        }
        proof {
            assert(r@ + offers_from(v@, e + 1) =~= before + offers_from(v@, i as int));
        }
        if e == v.len() {
            proof {
                assert(r@ + offers_from(v@, e + 1) =~= r@);
            }
            return r;
        }
        i = e + 1;
    }
    proof {
        assert(r@ + offers_from(v@, i as int) =~= r@);
    }
    r
}

/// Below what budget a customer looks to the price.
pub const BUDGET_THRESHOLD: u64 = 6_000;

/// The budget that the question tells of is low.
pub open spec fn price_sensitive(s: Seq<char>) -> bool {
    match digits_after(s, "Daily budget: "@) {
        Some(d) => match spec_parse_real(d) {
            Some(x) => x.less(spec_real(BUDGET_THRESHOLD as nat)),
            None => false,
        },
        None => false,
    }
}

/// Whether the budget that a question tells of is low.
pub fn is_price_sensitive(prompt: &str) -> (r: bool)
    ensures
        r == price_sensitive(prompt@),
{
    let v = chars_of(prompt);
    if let Some(b) = end_of(&v, "Daily budget: ") {
        let e: usize = skip_digits(&v, b);
        if let Some(x) = parse_real(&part_of(&v, b, e)) {
            return x.less(real_of(BUDGET_THRESHOLD));
        }
    }
    false
}

/// The preference that a question tells of, to the end of its line.
pub open spec fn preference(s: Seq<char>) -> Seq<char> {
    match find(s, "Preference: "@) {
        Some(i) => line_at(s, (i + "Preference: "@.len()) as int),
        None => seq![],
    }
}

/// The preference that a question tells of.
fn read_preference(prompt: &str) -> (r: String)
    ensures
        r@ == preference(prompt@),
{
    let v = chars_of(prompt);
    let liked = match end_of(&v, "Preference: ") {
        Some(b) => string_of(&line(&v, b)),
        None => String::new(),
    };
    proof {
        assert(liked@ =~= preference(prompt@));
    }
    liked
}

/// A number that depends on what a customer likes: the hash of the preference.
pub fn preference_seed(prompt: &str) -> (r: u64)
    ensures
        r == fnv(encode_utf8(preference(prompt@))),
{
    label_hash(read_preference(prompt).as_str())
}

/// What the preference of one who hunts for bargains says.
pub const BARGAIN_MARK: &'static str = "bargain hunter";

/// A customer looks to the price: the budget is low, or the preference is that of a bargain
/// hunter.
pub open spec fn looks_to_price(s: Seq<char>) -> bool {
    price_sensitive(s) || find(preference(s), BARGAIN_MARK@) is Some
}

/// Whether a customer looks to the price.
pub fn is_thrifty(prompt: &str) -> (r: bool)
    ensures
        r == looks_to_price(prompt@),
{
    is_price_sensitive(prompt) || contains(read_preference(prompt).as_str(), BARGAIN_MARK)
}

/// A number that depends on what a customer can spend: the hash of the budget.
pub open spec fn split_number(s: Seq<char>) -> u64 {
    fnv(low_bytes(number_or(field(s, "Daily budget: "@), Real { bits: 0 }).to_u64() as nat, 8))
}

/// A number that depends on what a customer can spend: the hash of the budget.
pub fn split_seed(prompt: &str) -> (r: u64)
    ensures
        r == split_number(prompt@),
{
    let budget = match field_after(&chars_of(prompt), "Daily budget: ") {
        Some(x) => x,
        None => Real { bits: 0 },
    };
    hash_number(budget.to_u64())
}

/// The lowest price of the first `n` offers.
pub open spec fn lowest_price(offers: Seq<Offered>, n: nat) -> Real
    decreases n,
{
    if n == 0 {
        Real { bits: INF }
    } else {
        lowest_price(offers, (n - 1) as nat).smaller(offers[n - 1].price)
    }
}

/// The numbers of those of the first `n` offers whose price is next to a price.
pub open spec fn offers_near(offers: Seq<Offered>, price: Real, n: nat) -> Seq<usize>
    decreases n,
{
    if n == 0 {
        seq![]
    } else {
        let before = offers_near(offers, price, (n - 1) as nat);
        if offers[n - 1].price.minus(price).absolute().less(spec_ratio(1, 1_000_000)) {
            before.push(offers[n - 1].index)
        } else {
            before
        }
    }
}

/// One of the cheapest offers, picked by the budget.
pub open spec fn cheapest_choice(offers: Seq<Offered>, s: Seq<char>) -> Option<usize> {
    let near = offers_near(offers, lowest_price(offers, offers.len()), offers.len());
    if near.len() == 0 {
        None
    } else {
        Some(near[split_number(s) as int % near.len() as int])
    }
}

/// One of the cheapest offers, picked by the budget.
pub fn cheapest_split(offers: &Vec<Offered>, prompt: &str) -> (r: Option<usize>)
    ensures
        r == cheapest_choice(offers@, prompt@),
{
    let n: usize = offers.len();
    let mut price = Real { bits: INF };
    let mut i: usize = 0;
    while i < n
        invariant
            i <= n == offers@.len(),
            price == lowest_price(offers@, i as nat),
        decreases n - i,
    {
        price = price.smaller(offers[i].price);
        i = i + 1;
    }
    let mut near: Vec<usize> = Vec::new();
    i = 0;
    while i < n
        invariant
            i <= n == offers@.len(),
            near@ == offers_near(offers@, price, i as nat),
        decreases n - i,
    {
        if offers[i].price.minus(price).absolute().less(ratio(1, 1_000_000)) {
            near.push(offers[i].index);
        }
        i = i + 1;
    }
    if near.len() == 0 {
        return None;
    }
    let k: u64 = split_seed(prompt) % (near.len() as u64);
    Some(near[k as usize])
}

/// What draws customers to an offer.
pub open spec fn signal(o: Offered) -> Real {
    o.reputation.plus(o.quality)
}

/// The first of the first `n` offers that draws most, one of them passed over. An offer that
/// draws by what is no number is neither ahead of another nor behind it.
pub open spec fn leader(offers: Seq<Offered>, n: nat, passed: int) -> Option<int>
    decreases n,
{
    if n == 0 {
        None
    } else {
        let before = leader(offers, (n - 1) as nat, passed);
        match before {
            Some(k) => if n - 1 != passed && signal(offers[k]).less(signal(offers[n - 1])) {
                Some(n - 1)
            } else {
                before
            },
            None => if n - 1 != passed {
                Some(n - 1)
            } else {
                None
            },
        }
    }
}

/// Where the first offer stands that draws most, one of them passed over.
fn find_leader(offers: &Vec<Offered>, passed: Option<usize>) -> (r: Option<usize>)
    ensures
        match r {
            Some(i) => i < offers@.len() && leader(
                offers@,
                offers@.len(),
                match passed {
                    Some(p) => p as int,
                    None => -1,
                },
            ) == Some(i as int),
            None => leader(
                offers@,
                offers@.len(),
                match passed {
                    Some(p) => p as int,
                    None => -1,
                },
            ) is None,
        },
{
    let ghost p = match passed {
        Some(p) => p as int,
        None => -1,
    };
    let mut best: Option<usize> = None;
    let mut i: usize = 0;
    while i < offers.len()
        invariant
            i <= offers@.len(),
            p == match passed {
                Some(p) => p as int,
                None => -1,
            },
            match best {
                Some(k) => k < i && leader(offers@, i as nat, p) == Some(k as int),
                None => leader(offers@, i as nat, p) is None,
            },
        decreases offers@.len() - i,
    {
        let skip = match passed {
            Some(q) => q == i,
            None => false,
        };
        if !skip {
            match best {
                Some(k) => {
                    let a = offers[k].reputation.plus(offers[k].quality);
                    let b = offers[i].reputation.plus(offers[i].quality);
                    if a.less(b) {
                        best = Some(i);
                    }
                },
                None => {
                    best = Some(i);
                },
            }
        }
        i = i + 1;
    }
    best
}

/// By how much one offer has to draw more than the next, for customers to follow the crowd.
pub open spec fn herd_gap() -> Real {
    spec_ratio(4, 100)
}

/// One offer draws more than the others by so much that customers follow the crowd.
pub open spec fn crowd(offers: Seq<Offered>) -> Option<int> {
    let top = leader(offers, offers.len(), -1)->0;
    let second = leader(offers, offers.len(), top)->0;
    if signal(offers[top]).minus(signal(offers[second])).less(herd_gap()) {
        None
    } else {
        Some(top)
    }
}

/// What a customer chooses: in a group, by price or by taste; alone, by price, or with the
/// crowd, or, where there is none, by the budget.
pub open spec fn choice(s: Seq<char>) -> Option<usize> {
    let offers = offers_from(s, 0);
    if offers.len() == 0 {
        None
    } else if looks_to_price(s) {
        cheapest_choice(offers, s)
    } else if find(s, DELIBERATION_MARK@) is Some {
        Some(offers[fnv(encode_utf8(preference(s))) as int % offers.len() as int].index)
    } else {
        match crowd(offers) {
            Some(k) => Some(offers[k].index),
            None => Some(offers[split_number(s) as int % offers.len() as int].index),
        }
    }
}

/// A question that a customer can decide: one who would follow the crowd has two offers to
/// compare.
pub open spec fn decidable(s: Seq<char>) -> bool {
    let offers = offers_from(s, 0);
    ||| offers.len() == 0
    ||| looks_to_price(s)
    ||| find(s, DELIBERATION_MARK@) is Some
    ||| offers.len() >= 2
}

/// Whether a customer can decide a question.
pub fn can_decide(prompt: &str) -> (r: bool)
    ensures
        r == decidable(prompt@),
{
    option_lines(prompt).len() != 1 || is_thrifty(prompt) || contains(prompt, DELIBERATION_MARK)
}

/// Of two offers or more one draws most, another one most of the rest.
proof fn lemma_leader(offers: Seq<Offered>, n: nat, passed: int)
    requires
        n <= offers.len(),
    ensures
        leader(offers, n, passed) matches Some(k) ==> 0 <= k < n && k != passed,
        n >= 1 && !(0 <= passed < n) ==> leader(offers, n, passed) is Some,
        n >= 2 ==> leader(offers, n, passed) is Some,
    decreases n,
{
    if n > 0 {
        lemma_leader(offers, (n - 1) as nat, passed);
    }
}

/// What a customer chooses.
pub fn choose_option(prompt: &str) -> (r: Option<usize>)
    requires
        decidable(prompt@),
    ensures
        r == choice(prompt@),
{
    let offers = option_lines(prompt);
    let n: usize = offers.len();
    if n == 0 {
        return None;
    }
    if is_thrifty(prompt) {
        return cheapest_split(&offers, prompt);
    }
    if contains(prompt, DELIBERATION_MARK) {
        let k: u64 = preference_seed(prompt) % (n as u64);
        return Some(offers[k as usize].index);
    }
    proof {
        lemma_leader(offers@, n as nat, -1);
        lemma_leader(offers@, n as nat, leader(offers@, n as nat, -1)->0);
    }
    let top = find_leader(&offers, None);
    let second = find_leader(&offers, top);
    if let (Some(a), Some(b)) = (top, second) {
        let x = offers[a].reputation.plus(offers[a].quality);
        let y = offers[b].reputation.plus(offers[b].quality);
        if !x.minus(y).less(ratio(4, 100)) {
            return Some(offers[a].index);
        }
    }
    let k: u64 = split_seed(prompt) % (n as u64);
    Some(offers[k as usize].index)
}

/// What a customer answers.
pub open spec fn customer_reply(s: Seq<char>) -> Seq<char> {
    "{\"choice\": "@ + decimal(
        match choice(s) {
            Some(i) => i as nat,
            None => 0,
        },
    ) + "}"@
}

/// What a customer answers: the number of an offer; zero where none can be read.
pub fn reproduce_customer_reply(prompt: &str) -> (r: String)
    requires
        decidable(prompt@),
    ensures
        r@ == customer_reply(prompt@),
{
    let i: usize = match choose_option(prompt) {
        Some(i) => i,
        None => 0,
    };
    let mut s = "{\"choice\": ".to_owned();
    push_decimal(&mut s, i as u64);
    s.append("}");
    s
}

/// What is answered to a question: by a manager, by a customer, or, where it is for neither,
/// the first choice.
pub open spec fn reply(s: Seq<char>) -> Seq<char> {
    if find(s, FIRM_MARK@) is Some {
        firm_reply(s)
    } else if find(s, CHOICE_MARK@) is Some {
        customer_reply(s)
    } else {
        "{\"choice\": 0}"@
    }
}

/// What is answered to a question.
pub fn scripted_reply(prompt: &str) -> (r: String)
    requires
        find(prompt@, FIRM_MARK@) is Some || find(prompt@, CHOICE_MARK@) is None || decidable(
            prompt@,
        ),
    ensures
        r@ == reply(prompt@),
{
    if contains(prompt, FIRM_MARK) {
        reproduce_firm_reply(prompt)
    } else if contains(prompt, CHOICE_MARK) {
        reproduce_customer_reply(prompt)
    } else {
        "{\"choice\": 0}".to_owned()
    }
}

/// Some offer has a number.
pub open spec fn is_number_of_offer(offers: Seq<Offered>, index: usize) -> bool {
    exists|k: int| 0 <= k < offers.len() && (#[trigger] offers[k]).index == index
}

/// The numbers of offers near a price are numbers of offers.
proof fn lemma_offers_near(offers: Seq<Offered>, price: Real, n: nat)
    requires
        n <= offers.len(),
    ensures
        forall|i: int|
            0 <= i < offers_near(offers, price, n).len() ==> is_number_of_offer(
                offers,
                #[trigger] offers_near(offers, price, n)[i],
            ),
    decreases n,
{
    if n > 0 {
        let before = offers_near(offers, price, (n - 1) as nat);
        let now = offers_near(offers, price, n);
        lemma_offers_near(offers, price, (n - 1) as nat);
        assert forall|i: int| 0 <= i < now.len() implies is_number_of_offer(
            offers,
            #[trigger] now[i],
        ) by {
            if i < before.len() {
                assert(now[i] == before[i]);
            } else {
                assert(offers[n - 1].index == now[i]);
            }
        }
    }
}

/// A customer chooses one of the offers that the question tells of.
pub proof fn customers_choose_what_is_offered(s: Seq<char>)
    requires
        decidable(s),
    ensures
        choice(s) matches Some(i) ==> is_number_of_offer(offers_from(s, 0), i),
{
    let offers = offers_from(s, 0);
    let n = offers.len();
    if n > 0 {
        let price = lowest_price(offers, n);
        lemma_offers_near(offers, price, n);
        let near = offers_near(offers, price, n);
        let a = split_number(s) as int;
        let b = fnv(encode_utf8(preference(s))) as int;
        if near.len() > 0 {
            assert(0 <= a % (near.len() as int) < near.len());
            assert(is_number_of_offer(offers, near[a % near.len() as int]));
        }
        assert(0 <= a % (n as int) < n && 0 <= b % (n as int) < n);
        assert(is_number_of_offer(offers, offers[a % n as int].index));
        assert(is_number_of_offer(offers, offers[b % n as int].index));
        lemma_leader(offers, n, -1);
        if let Some(k) = leader(offers, n, -1) {
            assert(is_number_of_offer(offers, offers[k].index));
        }
    }
}

} // verus!
