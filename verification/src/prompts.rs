//! What the managers and the customers are asked, and what is read from their answers.
use crate::binary64::{ratio, real_of, spec_ratio, spec_real, Real};
use crate::bounds::lemma_halves;
use crate::numerals::{parse_real, spec_parse_real};
use crate::text::{
    chars_of, decimal, digit, digit_run, find, is_digit, is_text, is_white_space, lemma_digit_run,
    lemma_part_found, number, number_of, part_of, push_decimal, skip_digits, string_of, trim,
    trimmed, trimmed_end, trimmed_start,
};
use crate::world::{
    menu_prices, menu_scores, real_mean, texts_view, Customer, CustomerView, Firm, FirmView, Visit,
};
use crate::writing::{fixed, push_fixed};
use vstd::prelude::*;
use vstd::string::*;

verus! {

/// What stands in every question to a manager.
pub const FIRM_MARK: &'static str = "price_factor";

/// What stands in every question to a customer.
pub const CHOICE_MARK: &'static str = "option index";

/// What stands in every question to a customer who decides in a group.
pub const DELIBERATION_MARK: &'static str = "group deliberates together";

/// What a rival shows of itself.
#[derive(Clone, Copy, Debug, PartialEq, Eq, Structural)]
pub struct RivalInfo {
    pub day_customers: u64,
    pub day_revenue: Real,
    pub avg_price: Real,
    pub avg_score: Real,
}

/// What a manager is told of the day before.
#[derive(Debug)]
pub struct FirmBriefing {
    pub own_customers: u64,
    pub own_revenue: Real,
    pub rivals: Vec<RivalInfo>,
}

/// What a briefing is.
#[verifier::ext_equal]
pub struct BriefingView {
    pub own_customers: u64,
    pub own_revenue: Real,
    pub rivals: Seq<RivalInfo>,
}

impl View for FirmBriefing {
    type V = BriefingView;

    open spec fn view(&self) -> BriefingView {
        BriefingView {
            own_customers: self.own_customers,
            own_revenue: self.own_revenue,
            rivals: self.rivals@,
        }
    }
}

/// The line on a rival.
pub open spec fn rival_line(i: int, r: RivalInfo) -> Seq<char> {
    "- Rival "@ + decimal((i + 1) as nat) + ": "@ + decimal(r.day_customers as nat)
        + " customers, revenue "@ + fixed(r.day_revenue, 0) + ", avg price "@ + fixed(
        r.avg_price,
        0,
    ) + ", avg quality "@ + fixed(r.avg_score, 3) + "\n"@
}

/// The lines on the first `n` rivals.
pub open spec fn rival_lines(rivals: Seq<RivalInfo>, n: nat) -> Seq<char>
    decreases n,
{
    if n == 0 {
        seq![]
    } else {
        rival_lines(rivals, (n - 1) as nat) + rival_line(n - 1, rivals[n - 1])
    }
}

/// The lines on the first `n` things that a manager remembers.
pub open spec fn memory_lines(memory: Seq<Seq<char>>, n: nat) -> Seq<char>
    decreases n,
{
    if n == 0 {
        seq![]
    } else {
        memory_lines(memory, (n - 1) as nat) + ("- "@ + memory[n - 1] + "\n"@)
    }
}

/// What a manager is told of the restaurant.
pub open spec fn restaurant_part(firm: FirmView, day: u64, brief: BriefingView) -> Seq<char> {
    "You are the manager of a restaurant competing for customers in a virtual town. Each day you may adjust your prices, the salary you pay your chef (which raises dish quality), and your advertisement. Your goal is to maximize cumulative revenue while staying solvent.\n\n## Day "@
        + decimal(day as nat) + "\n## Your restaurant\n- Funds: "@ + fixed(firm.funds, 0)
        + "\n- Average price: "@ + fixed(real_mean(menu_prices(firm.menu)), 0)
        + "\n- Chef salary: "@ + fixed(firm.chef_salary, 0)
        + "\n- Average dish quality score: "@ + fixed(real_mean(menu_scores(firm.menu)), 3)
        + "\n- Reputation: "@ + fixed(firm.reputation, 2) + "\n- Yesterday: "@ + decimal(
        brief.own_customers as nat,
    ) + " customers, revenue "@ + fixed(brief.own_revenue, 0) + "\n"@
}

/// What a manager is told of the rivals, if there are any.
pub open spec fn rivals_part(rivals: Seq<RivalInfo>) -> Seq<char> {
    if rivals.len() == 0 {
        seq![]
    } else {
        "\n## Rivals (yesterday)\n"@ + rival_lines(rivals, rivals.len())
    }
}

/// What a manager remembers, if there is anything.
pub open spec fn memory_part(memory: Seq<Seq<char>>) -> Seq<char> {
    if memory.len() == 0 {
        seq![]
    } else {
        "\n## Your reflections\n"@ + memory_lines(memory, memory.len())
    }
}

/// What a manager is asked.
pub open spec fn strategy_prompt(firm: FirmView, day: u64, brief: BriefingView) -> Seq<char> {
    restaurant_part(firm, day, brief) + rivals_part(brief.rivals) + memory_part(firm.memory)
        + "\n## Decision\nChoose a "@
        + FIRM_MARK@ + " (multiply all dish prices, 0.5 = halve, 1.5 = raise by 50%), a chef_salary (>= 0; higher raises quality), and a short advertisement.\nAnswer with JSON only, e.g. {\"price_factor\": 1.05, \"chef_salary\": 2200, \"advertisement\": \"Fresh sushi daily!\"}\n"@
}

/// The line on a rival put at the end of a text.
fn push_rival_line(s: &mut String, i: usize, r: RivalInfo)
    requires
        i < usize::MAX,
    ensures
        final(s)@ == old(s)@ + rival_line(i as int, r),
{
    let ghost before = s@;
    s.append("- Rival ");
    push_decimal(s, (i + 1) as u64);
    s.append(": ");
    push_decimal(s, r.day_customers);
    s.append(" customers, revenue ");
    push_fixed(s, r.day_revenue, 0);
    s.append(", avg price ");
    push_fixed(s, r.avg_price, 0);
    s.append(", avg quality ");
    push_fixed(s, r.avg_score, 3);
    s.append("\n");
    proof {
        assert(s@ =~= before + rival_line(i as int, r));
    }
}

/// What a manager is asked on a day: the state of the restaurant, the day before, the rivals
/// and the memory, and for a price factor, a salary and an advertisement as JSON.
pub fn firm_strategy_prompt(firm: &Firm, day: u64, brief: &FirmBriefing) -> (r: String)
    ensures
        r@ == strategy_prompt(firm@, day, brief@),
{
    let mut s = "You are the manager of a restaurant competing for customers in a virtual town. Each day you may adjust your prices, the salary you pay your chef (which raises dish quality), and your advertisement. Your goal is to maximize cumulative revenue while staying solvent.\n\n## Day ".to_owned();
    push_decimal(&mut s, day);
    s.append("\n## Your restaurant\n- Funds: ");
    push_fixed(&mut s, firm.funds, 0);
    s.append("\n- Average price: ");
    push_fixed(&mut s, firm.avg_price(), 0);
    s.append("\n- Chef salary: ");
    push_fixed(&mut s, firm.chef_salary, 0);
    s.append("\n- Average dish quality score: ");
    push_fixed(&mut s, firm.avg_dish_score(), 3);
    s.append("\n- Reputation: ");
    push_fixed(&mut s, firm.reputation, 2);
    s.append("\n- Yesterday: ");
    push_decimal(&mut s, brief.own_customers);
    s.append(" customers, revenue ");
    push_fixed(&mut s, brief.own_revenue, 0);
    s.append("\n");
    let ghost first = restaurant_part(firm@, day, brief@);
    proof {
        assert(s@ == first);
    }
    let n: usize = brief.rivals.len();
    if n > 0 {
        s.append("\n## Rivals (yesterday)\n");
        let mut i: usize = 0;
        proof {
            assert(s@ =~= first + ("\n## Rivals (yesterday)\n"@ + rival_lines(brief.rivals@, 0)));
        }
        while i < n
            invariant
                i <= n == brief.rivals@.len(),
                s@ == first + ("\n## Rivals (yesterday)\n"@ + rival_lines(
                    brief.rivals@,
                    i as nat,
                )),
            decreases n - i,
        {
            push_rival_line(&mut s, i, brief.rivals[i]);
            proof {
                assert(s@ =~= first + ("\n## Rivals (yesterday)\n"@ + rival_lines(
                    brief.rivals@,
                    (i + 1) as nat,
                )));
            }
            i = i + 1;
        }
    } else {
        proof {
            assert(first + rivals_part(brief.rivals@) =~= first);
        }
    }
    let ghost second = first + rivals_part(brief.rivals@);
    proof {
        assert(s@ == second);
    }
    let k: usize = firm.memory.len();
    let ghost memory = firm@.memory;
    if k > 0 {
        s.append("\n## Your reflections\n");
        let mut j: usize = 0;
        proof {
            assert(s@ =~= second + ("\n## Your reflections\n"@ + memory_lines(memory, 0)));
        }
        while j < k
            invariant
                j <= k == firm.memory@.len(),
                memory == texts_view(firm.memory@),
                s@ == second + ("\n## Your reflections\n"@ + memory_lines(memory, j as nat)),
            decreases k - j,
        {
            s.append("- ");
            s.append(firm.memory[j].as_str());
            s.append("\n");
            proof {
                assert(s@ =~= second + ("\n## Your reflections\n"@ + memory_lines(
                    memory,
                    (j + 1) as nat,
                )));
            }
            j = j + 1;
        }
    } else {
        proof {
            assert(second + memory_part(memory) =~= second);
        }
    }
    s.append("\n## Decision\nChoose a ");
    s.append(FIRM_MARK);
    s.append(
        " (multiply all dish prices, 0.5 = halve, 1.5 = raise by 50%), a chef_salary (>= 0; higher raises quality), and a short advertisement.\nAnswer with JSON only, e.g. {\"price_factor\": 1.05, \"chef_salary\": 2200, \"advertisement\": \"Fresh sushi daily!\"}\n",
    );
    s
}

/// What a restaurant shows to customers.
#[derive(Debug)]
pub struct FirmOffer {
    pub firm: u64,
    pub avg_price: Real,
    pub avg_score: Real,
    pub reputation: Real,
    pub advertisement: String,
    /// The latest comments, the newest first.
    pub recent_comments: Vec<String>,
}

/// What an offer is.
#[verifier::ext_equal]
pub struct OfferView {
    pub firm: u64,
    pub avg_price: Real,
    pub avg_score: Real,
    pub reputation: Real,
    pub advertisement: Seq<char>,
    pub recent_comments: Seq<Seq<char>>,
}

impl View for FirmOffer {
    type V = OfferView;

    open spec fn view(&self) -> OfferView {
        OfferView {
            firm: self.firm,
            avg_price: self.avg_price,
            avg_score: self.avg_score,
            reputation: self.reputation,
            advertisement: self.advertisement@,
            recent_comments: texts_view(self.recent_comments@),
        }
    }
}

pub open spec fn offers_view(offers: Seq<FirmOffer>) -> Seq<OfferView> {
    offers.map_values(|o: FirmOffer| o@)
}

/// The lines on the first `n` comments.
pub open spec fn comment_lines(comments: Seq<Seq<char>>, n: nat) -> Seq<char>
    decreases n,
{
    if n == 0 {
        seq![]
    } else {
        comment_lines(comments, (n - 1) as nat) + ("    comment: \""@ + comments[n - 1] + "\"\n"@)
    }
}

/// An advertisement, if there is one.
pub open spec fn advertisement_part(advertisement: Seq<char>) -> Seq<char> {
    if advertisement.len() == 0 {
        seq![]
    } else {
        ", ad: \""@ + advertisement + "\""@
    }
}

/// The lines on an offer.
pub open spec fn offer_lines(i: int, o: OfferView) -> Seq<char> {
    "- Option "@ + decimal(i as nat) + ": avg price "@ + fixed(o.avg_price, 0) + ", quality "@
        + fixed(o.avg_score, 3) + ", reputation "@ + fixed(o.reputation, 2) + advertisement_part(
        o.advertisement,
    ) + "\n"@ + comment_lines(o.recent_comments, o.recent_comments.len())
}

/// The lines on the first `n` offers.
pub open spec fn all_offer_lines(offers: Seq<OfferView>, n: nat) -> Seq<char>
    decreases n,
{
    if n == 0 {
        seq![]
    } else {
        all_offer_lines(offers, (n - 1) as nat) + offer_lines(n - 1, offers[n - 1])
    }
}

/// The line on the last visit, if there was one.
pub open spec fn last_visit_part(visits: Seq<Visit>) -> Seq<char> {
    if visits.len() == 0 {
        seq![]
    } else {
        "- Last visit: restaurant "@ + decimal(visits.last().firm as nat) + " (spent "@ + fixed(
            visits.last().spend,
            0,
        ) + ", satisfaction "@ + fixed(visits.last().satisfaction, 1) + "/5)\n"@
    }
}

/// What a customer is told who decides in a group.
pub open spec fn deliberation_part(group_deliberation: bool) -> Seq<char> {
    if group_deliberation {
        "Your "@ + DELIBERATION_MARK@
            + ": put your own budget and taste before what is popular with others.\n\n"@
    } else {
        seq![]
    }
}

/// What a customer is told of the day and of themselves.
pub open spec fn customer_part(customer: CustomerView, day: u64, group_deliberation: bool) -> Seq<
    char,
> {
    "You are a customer in a virtual town deciding which restaurant to visit for dinner today. Pick the single restaurant that best fits your taste, budget and the available information.\n\n"@
        + deliberation_part(group_deliberation) + "## Day "@ + decimal(day as nat)
        + "\n## You\n- Daily budget: "@ + fixed(customer.income, 0) + "\n- Preference: "@
        + customer.preference + "\n- Health / diet: "@ + customer.health + "\n"@
        + last_visit_part(customer.visit_memory)
}

/// What a customer is asked.
pub open spec fn choice_prompt(
    customer: CustomerView,
    day: u64,
    offers: Seq<OfferView>,
    group_deliberation: bool,
) -> Seq<char> {
    customer_part(customer, day, group_deliberation) + "\n## Restaurants\n"@ + all_offer_lines(
        offers,
        offers.len(),
    )
        + "\n## Decision\nReply with the "@ + CHOICE_MARK@
        + " of the restaurant you will visit (0 to "@
        + decimal(
        if offers.len() == 0 {
            0
        } else {
            (offers.len() - 1) as nat
        },
    ) + ").\nAnswer with JSON only, e.g. {\"choice\": 0}\n"@
}

/// The lines on an offer put at the end of a text.
fn push_offer_lines(s: &mut String, i: usize, o: &FirmOffer)
    ensures
        final(s)@ == old(s)@ + offer_lines(i as int, o@),
{
    let ghost before = s@;
    s.append("- Option ");
    push_decimal(s, i as u64);
    s.append(": avg price ");
    push_fixed(s, o.avg_price, 0);
    s.append(", quality ");
    push_fixed(s, o.avg_score, 3);
    s.append(", reputation ");
    push_fixed(s, o.reputation, 2);
    let ghost head = "- Option "@ + decimal(i as nat) + ": avg price "@ + fixed(o.avg_price, 0)
        + ", quality "@ + fixed(o.avg_score, 3) + ", reputation "@ + fixed(o.reputation, 2);
    proof {
        assert(s@ =~= before + head);
    }
    let ad = chars_of(o.advertisement.as_str());
    if ad.len() > 0 {
        s.append(", ad: \"");
        s.append(o.advertisement.as_str());
        s.append("\"");
    }
    s.append("\n");
    let ghost line = head + advertisement_part(o.advertisement@) + "\n"@;
    proof {
        assert(s@ =~= before + line);
    }
    let n: usize = o.recent_comments.len();
    let ghost comments = texts_view(o.recent_comments@);
    let mut k: usize = 0;
    proof {
        assert(before + line + comment_lines(comments, 0) =~= before + line);
    }
    while k < n
        invariant
            k <= n == o.recent_comments@.len(),
            comments == texts_view(o.recent_comments@),
            s@ == before + line + comment_lines(comments, k as nat),
        decreases n - k,
    {
        s.append("    comment: \"");
        s.append(o.recent_comments[k].as_str());
        s.append("\"\n");
        proof {
            assert(s@ =~= before + line + comment_lines(comments, (k + 1) as nat));
        }
        k = k + 1;
    }
    proof {
        assert(before + line + comment_lines(comments, n as nat) =~= before + (line
            + comment_lines(comments, n as nat)));
    }
}

/// What a customer is asked on a day: for the number of one of the offers, as JSON. One who
/// decides in a group is told to put their own budget and taste first.
pub fn customer_choice_prompt(
    customer: &Customer,
    day: u64,
    offers: &[FirmOffer],
    group_deliberation: bool,
) -> (r: String)
    ensures
        r@ == choice_prompt(customer@, day, offers_view(offers@), group_deliberation),
{
    let mut s = "You are a customer in a virtual town deciding which restaurant to visit for dinner today. Pick the single restaurant that best fits your taste, budget and the available information.\n\n".to_owned();
    let ghost head = s@;
    if group_deliberation {
        s.append("Your ");
        s.append(DELIBERATION_MARK);
        s.append(": put your own budget and taste before what is popular with others.\n\n");
        proof {
            assert(s@ =~= head + deliberation_part(true));
        }
    } else {
        proof {
            assert(head + deliberation_part(false) =~= head);
        }
    }
    s.append("## Day ");
    push_decimal(&mut s, day);
    s.append("\n## You\n- Daily budget: ");
    push_fixed(&mut s, customer.income, 0);
    s.append("\n- Preference: ");
    s.append(customer.preference.as_str());
    s.append("\n- Health / diet: ");
    s.append(customer.health.as_str());
    s.append("\n");
    let ghost first = s@;
    let v: usize = customer.visit_memory.len();
    if v > 0 {
        let last = customer.visit_memory[v - 1];
        s.append("- Last visit: restaurant ");
        push_decimal(&mut s, last.firm);
        s.append(" (spent ");
        push_fixed(&mut s, last.spend, 0);
        s.append(", satisfaction ");
        push_fixed(&mut s, last.satisfaction, 1);
        s.append("/5)\n");
    }
    proof {
        assert(s@ =~= first + last_visit_part(customer.visit_memory@));
        assert(s@ == customer_part(customer@, day, group_deliberation));
    }
    s.append("\n## Restaurants\n");
    let ghost before = s@;
    let n: usize = offers.len();
    let ghost views = offers_view(offers@);
    let mut i: usize = 0;
    proof {
        assert(before + all_offer_lines(views, 0) =~= before);
    }
    while i < n
        invariant
            i <= n == offers@.len(),
            views == offers_view(offers@),
            s@ == before + all_offer_lines(views, i as nat),
        decreases n - i,
    {
        push_offer_lines(&mut s, i, &offers[i]);
        proof {
            assert(s@ =~= before + all_offer_lines(views, (i + 1) as nat));
        }
        i = i + 1;
    }
    s.append("\n## Decision\nReply with the ");
    s.append(CHOICE_MARK);
    s.append(" of the restaurant you will visit (0 to ");
    let last: u64 = if n == 0 {
        0
    } else {
        (n - 1) as u64
    };
    push_decimal(&mut s, last);
    s.append(").\nAnswer with JSON only, e.g. {\"choice\": 0}\n");
    s
}

/// What is read of the value of a JSON field.
#[derive(Debug)]
pub enum JsonField {
    Number(Real),
    Text(String),
    /// Anything else.
    Other,
}

/// What a JSON field holds.
pub enum JsonView {
    Number(Real),
    Text(Seq<char>),
    Other,
}

impl View for JsonField {
    type V = JsonView;

    open spec fn view(&self) -> JsonView {
        match *self {
            JsonField::Number(x) => JsonView::Number(x),
            JsonField::Text(s) => JsonView::Text(s@),
            JsonField::Other => JsonView::Other,
        }
    }
}

pub open spec fn fields_view(fields: Seq<(String, JsonField)>) -> Seq<(Seq<char>, JsonView)> {
    fields.map_values(|e: (String, JsonField)| (e.0@, e.1@))
}

/// The names and values of the JSON object that `serde_json` reads from a text, each name
/// once; `None` if the text is no JSON or no object.
pub uninterp spec fn json_object(text: Seq<char>) -> Option<Seq<(Seq<char>, JsonView)>>;

/// `serde_json::from_str` reads the text as a `serde_json::Value`. What it reads is a function
/// of the text, named by `json_object`. An object is handed out entry by entry, each value as
/// what `as_f64` or `as_str` give of it; any other value, and an error, are `None`.
#[verifier::external_body]
pub(crate) fn read_json_object(text: &str) -> (r: Option<Vec<(String, JsonField)>>)
    ensures
        match r {
            Some(fields) => json_object(text@) == Some(fields_view(fields@)),
            None => json_object(text@) is None,
        },
{
    match serde_json::from_str::<serde_json::Value>(text) {
        Ok(serde_json::Value::Object(object)) => Some(
            object.into_iter().map(|(name, value)| match value {
                serde_json::Value::Number(n) => match n.as_f64() {
                    Some(x) => (name, JsonField::Number(Real { bits: x.to_bits() })),
                    None => (name, JsonField::Other),
                },
                serde_json::Value::String(s) => (name, JsonField::Text(s)),
                _ => (name, JsonField::Other),
            }).collect(),
        ),
        _ => None,
    }
}

/// The value of a field.
pub open spec fn field(fields: Seq<(Seq<char>, JsonView)>, name: Seq<char>) -> Option<JsonView>
    decreases fields.len(),
{
    if fields.len() == 0 {
        None
    } else if fields[0].0 == name {
        Some(fields[0].1)
    } else {
        field(fields.drop_first(), name)
    }
}

/// The number that a value is, or is a numeral of.
pub open spec fn json_number(v: Option<JsonView>) -> Option<Real> {
    match v {
        Some(JsonView::Number(x)) => Some(x),
        Some(JsonView::Text(s)) => spec_parse_real(trimmed(s)),
        _ => None,
    }
}

/// The first number under one of some names, the names tried in order.
pub open spec fn first_number(
    fields: Seq<(Seq<char>, JsonView)>,
    names: Seq<Seq<char>>,
) -> Option<Real>
    decreases names.len(),
{
    if names.len() == 0 {
        None
    } else if json_number(field(fields, names[0])) is Some {
        json_number(field(fields, names[0]))
    } else {
        first_number(fields, names.drop_first())
    }
}

/// Where a field stands.
fn find_field(fields: &Vec<(String, JsonField)>, name: &str) -> (r: Option<usize>)
    ensures
        match r {
            Some(i) => i < fields@.len() && field(fields_view(fields@), name@) == Some(
                fields@[i as int].1@,
            ),
            None => field(fields_view(fields@), name@) is None,
        },
{
    let ghost all = fields_view(fields@);
    let key = chars_of(name);
    let mut i: usize = 0;
    proof {
        assert(all.skip(0) =~= all);
    }
    while i < fields.len()
        invariant
            i <= fields@.len(),
            all == fields_view(fields@),
            key@ == name@,
            field(all, name@) == field(all.skip(i as int), name@),
        decreases fields@.len() - i,
    {
        proof {
            assert(all.skip(i as int)[0] == all[i as int]);
            assert(all.skip(i as int).drop_first() =~= all.skip(i + 1));
        }
        if is_text(&key, fields[i].0.as_str()) {
            return Some(i);
        }
        i = i + 1;
    }
    None
}

/// The texts of names.
pub open spec fn names_view(names: Seq<&str>) -> Seq<Seq<char>> {
    names.map_values(|s: &str| s@)
}

/// The first number under one of some names; a text that is a numeral counts as a number.
pub fn number_field(fields: &Vec<(String, JsonField)>, keys: &[&str]) -> (r: Option<Real>)
    ensures
        r == first_number(fields_view(fields@), names_view(keys@)),
{
    let ghost all = fields_view(fields@);
    let ghost names = names_view(keys@);
    let mut k: usize = 0;
    proof {
        assert(names.skip(0) =~= names);
    }
    while k < keys.len()
        invariant
            k <= keys@.len(),
            all == fields_view(fields@),
            names == names_view(keys@),
            first_number(all, names) == first_number(all, names.skip(k as int)),
        decreases keys@.len() - k,
    {
        proof {
            assert(names.skip(k as int)[0] == names[k as int]);
            assert(names.skip(k as int).drop_first() =~= names.skip(k + 1));
        }
        if let Some(i) = find_field(fields, keys[k]) {
            match &fields[i].1 {
                JsonField::Number(x) => {
                    return Some(*x);
                },
                JsonField::Text(s) => {
                    if let Some(x) = parse_real(&trim(&chars_of(s.as_str()))) {
                        return Some(x);
                    }
                },
                JsonField::Other => {},
            }
        }
        k = k + 1;
    }
    None
}

/// What lies between the first opening and the last closing brace, braces included.
pub open spec fn braced(s: Seq<char>) -> Option<Seq<char>> {
    let start = s.index_of_first('{');
    let end = s.index_of_last('}');
    match (start, end) {
        (Some(i), Some(j)) => if i <= j {
            Some(s.subrange(i, j + 1))
        } else {
            None
        },
        _ => None,
    }
}

/// What lies between the first opening and the last closing brace, braces included.
pub fn extract_json_object(text: &str) -> (r: Option<String>)
    ensures
        match r {
            Some(s) => braced(text@) == Some(s@),
            None => braced(text@) is None,
        },
{
    let v = chars_of(text);
    let n: usize = v.len();
    let mut start: usize = 0;
    while start < n && v[start] != '{'
        invariant
            start <= n == v@.len(),
            forall|k: int| 0 <= k < start ==> v@[k] != '{',
        decreases n - start,
    {
        start = start + 1;
    }
    let mut end: usize = n;
    while end > 0 && v[end - 1] != '}'
        invariant
            end <= n == v@.len(),
            forall|k: int| end <= k < n ==> v@[k] != '}',
        decreases end,
    {
        end = end - 1;
    }
    proof {
        v@.index_of_first_ensures('{');
        v@.index_of_last_ensures('}');
    }
    if start == n || end == 0 {
        return None;
    }
    proof {
        assert(v@.contains('{')) by {
            assert(v@[start as int] == '{');
        }
        assert(v@.contains('}')) by {
            assert(v@[end - 1] == '}');
        }
    }
    if end <= start {
        return None;
    }
    Some(string_of(&part_of(&v, start, end)))
}

/// A manager's decision.
#[derive(Debug)]
pub struct FirmStrategy {
    /// What all prices are multiplied by.
    pub price_factor: Real,
    pub chef_salary: Real,
    /// Empty if the advertisement stays.
    pub advertisement: String,
}

/// What a decision is.
#[verifier::ext_equal]
pub struct StrategyView {
    pub price_factor: Real,
    pub chef_salary: Real,
    pub advertisement: Seq<char>,
}

impl View for FirmStrategy {
    type V = StrategyView;

    open spec fn view(&self) -> StrategyView {
        StrategyView {
            price_factor: self.price_factor,
            chef_salary: self.chef_salary,
            advertisement: self.advertisement@,
        }
    }
}

/// The advertisement among the fields of an answer.
pub open spec fn advertisement_of(fields: Seq<(Seq<char>, JsonView)>) -> Seq<char> {
    let v = if field(fields, "advertisement"@) is Some {
        field(fields, "advertisement"@)
    } else {
        field(fields, "ad"@)
    };
    match v {
        Some(JsonView::Text(s)) => trimmed(s),
        _ => seq![],
    }
}

/// What prices are multiplied by where a number is answered, or none: at least half and at most
/// one and a half. Prices stay where there is no number to go by, NaN included.
pub open spec fn factor_of(answered: Option<Real>) -> Real {
    match answered {
        Some(x) => if x.is_nan() {
            spec_real(1)
        } else {
            x.clamped(spec_ratio(1, 2), spec_ratio(3, 2))
        },
        None => spec_real(1),
    }
}

/// The decision that the fields of an answer give; without fields everything stays as it is. A
/// salary that is negative or NaN is taken for zero.
pub open spec fn strategy_of(
    answer: Option<Seq<(Seq<char>, JsonView)>>,
    current_chef_salary: Real,
) -> StrategyView {
    match answer {
        Some(fields) => StrategyView {
            price_factor: factor_of(
                first_number(fields, seq!["price_factor"@, "price"@, "factor"@]),
            ),
            chef_salary: match first_number(fields, seq!["chef_salary"@, "salary"@, "chef"@]) {
                Some(x) => x,
                None => current_chef_salary,
            }.larger(Real { bits: 0 }),
            advertisement: advertisement_of(fields),
        },
        None => StrategyView {
            price_factor: spec_real(1),
            chef_salary: current_chef_salary,
            advertisement: seq![],
        },
    }
}

/// The fields of the object that a text holds between braces.
pub open spec fn answer_fields(text: Seq<char>) -> Option<Seq<(Seq<char>, JsonView)>> {
    match braced(text) {
        Some(s) => json_object(s),
        None => None,
    }
}

pub open spec fn answer_view(answer: Option<Vec<(String, JsonField)>>) -> Option<
    Seq<(Seq<char>, JsonView)>,
> {
    match answer {
        Some(fields) => Some(fields_view(fields@)),
        None => None,
    }
}

/// The fields of the JSON object in an answer.
pub fn read_answer(text: &str) -> (r: Option<Vec<(String, JsonField)>>)
    ensures
        answer_view(r) == answer_fields(text@),
{
    match extract_json_object(text) {
        Some(s) => read_json_object(s.as_str()),
        None => None,
    }
}

/// The decision that the fields of an answer give.
pub fn strategy_from_fields(
    answer: &Option<Vec<(String, JsonField)>>,
    current_chef_salary: Real,
) -> (r: FirmStrategy)
    ensures
        r@ == strategy_of(answer_view(*answer), current_chef_salary),
{
    match answer {
        Some(fields) => {
            let factor_names: [&str; 3] = ["price_factor", "price", "factor"];
            let salary_names: [&str; 3] = ["chef_salary", "salary", "chef"];
            proof {
                assert(names_view(factor_names@) =~= seq!["price_factor"@, "price"@, "factor"@]);
                assert(names_view(salary_names@) =~= seq!["chef_salary"@, "salary"@, "chef"@]);
            }
            let mut factor = real_of(1);
            if let Some(x) = number_field(fields, factor_names.as_slice()) {
                if x.same(x) {
                    factor = x.clamped(ratio(1, 2), ratio(3, 2));
                }
            }
            let salary = match number_field(fields, salary_names.as_slice()) {
                Some(x) => x,
                None => current_chef_salary,
            };
            let place = match find_field(fields, "advertisement") {
                Some(i) => Some(i),
                None => find_field(fields, "ad"),
            };
            let mut advertisement = String::new();
            if let Some(i) = place {
                if let JsonField::Text(s) = &fields[i].1 {
                    advertisement = string_of(&trim(&chars_of(s.as_str())));
                }
            }
            FirmStrategy {
                price_factor: factor,
                chef_salary: salary.larger(Real { bits: 0 }),
                advertisement,
            }
        },
        None => FirmStrategy {
            price_factor: real_of(1),
            chef_salary: current_chef_salary,
            advertisement: String::new(),
        },
    }
}

/// The decision that an answer gives.
pub fn parse_firm_strategy(text: &str, current_chef_salary: Real) -> (r: FirmStrategy)
    ensures
        r@ == strategy_of(answer_fields(text@), current_chef_salary),
{
    let answer = read_answer(text);
    strategy_from_fields(&answer, current_chef_salary)
}

/// The first number in digits from place `i` on.
pub open spec fn first_integer(s: Seq<char>, i: int) -> Option<nat>
    decreases s.len() - i,
{
    if i < 0 || i >= s.len() {
        None
    } else if is_digit(s[i]) {
        Some(number(s.subrange(i, digit_run(s, i))))
    } else {
        first_integer(s, i + 1)
    }
}

/// The number under one of the names of a choice, rounded.
pub open spec fn named_choice(answer: Option<Seq<(Seq<char>, JsonView)>>) -> Option<int> {
    match answer {
        Some(fields) => match first_number(
            fields,
            seq!["choice"@, "option"@, "index"@, "restaurant"@],
        ) {
            Some(x) => Some(x.to_nearest_i64() as int),
            None => None,
        },
        None => None,
    }
}

/// The offer that an answer names: the number that its fields name, or, where they name none,
/// the first one in the text. A number that is not one of an offer names none.
pub open spec fn choice_of(
    answer: Option<Seq<(Seq<char>, JsonView)>>,
    text: Seq<char>,
    n_offers: nat,
) -> Option<nat> {
    let k = match named_choice(answer) {
        Some(k) => Some(k),
        None => match first_integer(text, 0) {
            Some(k) => Some(k as int),
            None => None,
        },
    };
    match k {
        Some(k) => if 0 <= k < n_offers {
            Some(k as nat)
        } else {
            None
        },
        None => None,
    }
}

/// The offer that the fields of an answer or its text name.
pub fn choice_from_fields(
    answer: &Option<Vec<(String, JsonField)>>,
    text: &str,
    n_offers: usize,
) -> (r: Option<usize>)
    ensures
        match r {
            Some(i) => choice_of(answer_view(*answer), text@, n_offers as nat) == Some(i as nat),
            None => choice_of(answer_view(*answer), text@, n_offers as nat) is None,
        },
{
    if let Some(fields) = answer {
        let names: [&str; 4] = ["choice", "option", "index", "restaurant"];
        proof {
            assert(names_view(names@) =~= seq!["choice"@, "option"@, "index"@, "restaurant"@]);
        }
        if let Some(x) = number_field(fields, names.as_slice()) {
            let k: i64 = x.to_nearest_i64();
            if k >= 0 && (k as u64) < n_offers as u64 {
                return Some(k as usize);
            }
            return None;
        }
    }
    let v = chars_of(text);
    let mut i: usize = 0;
    while i < v.len()
        invariant
            i <= v@.len(),
            v@ == text@,
            named_choice(answer_view(*answer)) is None,
            first_integer(text@, 0) == first_integer(text@, i as int),
        decreases v@.len() - i,
    {
        if digit(v[i]) {
            proof {
                lemma_digit_run(v@, i as int);
            }
            let j: usize = skip_digits(&v, i);
            if let Some(k) = number_of(&v, i, j) {
                if k < n_offers as u64 {
                    return Some(k as usize);
                }
            }
            return None;
        }
        i = i + 1;
    }
    None
}

/// The offer that an answer names, if any.
pub fn parse_customer_choice(text: &str, n_offers: usize) -> (r: Option<usize>)
    ensures
        match r {
            Some(i) => choice_of(answer_fields(text@), text@, n_offers as nat) == Some(i as nat),
            None => choice_of(answer_fields(text@), text@, n_offers as nat) is None,
        },
{
    let answer = read_answer(text);
    choice_from_fields(&answer, text, n_offers)
}

/// The mark is found in every question to a manager.
pub proof fn strategy_prompt_is_marked(firm: FirmView, day: u64, brief: BriefingView)
    ensures
        find(strategy_prompt(firm, day, brief), FIRM_MARK@) is Some,
{
    let before = restaurant_part(firm, day, brief) + rivals_part(brief.rivals) + memory_part(
        firm.memory,
    ) + "\n## Decision\nChoose a "@;
    lemma_part_found(
        before,
        FIRM_MARK@,
        " (multiply all dish prices, 0.5 = halve, 1.5 = raise by 50%), a chef_salary (>= 0; higher raises quality), and a short advertisement.\nAnswer with JSON only, e.g. {\"price_factor\": 1.05, \"chef_salary\": 2200, \"advertisement\": \"Fresh sushi daily!\"}\n"@,
    );
}

/// The mark is found in every question to a customer.
pub proof fn choice_prompt_is_marked(
    customer: CustomerView,
    day: u64,
    offers: Seq<OfferView>,
    group_deliberation: bool,
)
    ensures
        find(choice_prompt(customer, day, offers, group_deliberation), CHOICE_MARK@) is Some,
{
    let before = customer_part(customer, day, group_deliberation) + "\n## Restaurants\n"@
        + all_offer_lines(offers, offers.len()) + "\n## Decision\nReply with the "@;
    let last = if offers.len() == 0 {
        0
    } else {
        (offers.len() - 1) as nat
    };
    let after = " of the restaurant you will visit (0 to "@ + decimal(last)
        + ").\nAnswer with JSON only, e.g. {\"choice\": 0}\n"@;
    lemma_part_found(before, CHOICE_MARK@, after);
    assert(choice_prompt(customer, day, offers, group_deliberation) =~= before + CHOICE_MARK@
        + after);
}

/// The mark of deliberation is found in every question to a customer who decides in a group.
pub proof fn deliberation_is_marked(customer: CustomerView, day: u64, offers: Seq<OfferView>)
    ensures
        find(choice_prompt(customer, day, offers, true), DELIBERATION_MARK@) is Some,
{
    let all = choice_prompt(customer, day, offers, true);
    let before =
        "You are a customer in a virtual town deciding which restaurant to visit for dinner today. Pick the single restaurant that best fits your taste, budget and the available information.\n\n"@
        + "Your "@;
    let after = all.skip((before.len() + DELIBERATION_MARK@.len()) as int);
    lemma_part_found(before, DELIBERATION_MARK@, after);
    assert(all =~= before + DELIBERATION_MARK@ + after);
}

/// What a customer chooses is one of the offers.
pub proof fn choice_is_an_offer(
    answer: Option<Seq<(Seq<char>, JsonView)>>,
    text: Seq<char>,
    n_offers: nat,
)
    ensures
        choice_of(answer, text, n_offers) matches Some(k) ==> k < n_offers,
{
}

/// A trimmed text neither starts nor ends with white space.
proof fn lemma_trimmed(s: Seq<char>)
    ensures
        trimmed(s).len() > 0 ==> !is_white_space(trimmed(s)[0]) && !is_white_space(
            trimmed(s).last(),
        ),
{
    lemma_trimmed_start(s);
    lemma_trimmed_end(trimmed_start(s));
}

proof fn lemma_trimmed_start(s: Seq<char>)
    ensures
        trimmed_start(s).len() > 0 ==> !is_white_space(trimmed_start(s)[0]),
    decreases s.len(),
{
    if s.len() > 0 && is_white_space(s[0]) {
        lemma_trimmed_start(s.drop_first());
    }
}

proof fn lemma_trimmed_end(s: Seq<char>)
    ensures
        trimmed_end(s).len() > 0 ==> trimmed_end(s)[0] == s[0] && !is_white_space(
            trimmed_end(s).last(),
        ),
    decreases s.len(),
{
    if s.len() > 0 && is_white_space(s.last()) {
        lemma_trimmed_end(s.drop_last());
    }
}

/// Whatever the answer, prices change by no more than half either way, a salary that is
/// answered is not negative, and an advertisement has no white space around it.
pub proof fn strategy_is_bounded(
    answer: Option<Seq<(Seq<char>, JsonView)>>,
    current_chef_salary: Real,
)
    ensures
        ({
            let f = strategy_of(answer, current_chef_salary).price_factor;
            spec_ratio(1, 2).at_most(f) && f.at_most(spec_ratio(3, 2))
        }),
        answer is Some || (Real { bits: 0 }).at_most(current_chef_salary) ==> (Real {
            bits: 0,
        }).at_most(strategy_of(answer, current_chef_salary).chef_salary),
        ({
            let ad = strategy_of(answer, current_chef_salary).advertisement;
            ad.len() > 0 ==> !is_white_space(ad[0]) && !is_white_space(ad.last())
        }),
{
    lemma_halves();
    if let Some(fields) = answer {
        let v = if field(fields, "advertisement"@) is Some {
            field(fields, "advertisement"@)
        } else {
            field(fields, "ad"@)
        };
        if let Some(JsonView::Text(s)) = v {
            lemma_trimmed(s);
        }
    }
}

} // verus!
