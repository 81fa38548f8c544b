//! What managers' decisions and customers' answers come to.
use crate::accuracy::PARTS;
use crate::binary64::{spec_ratio, spec_real, Real};
use crate::bounds::{lemma_halves, lemma_one, lemma_times_one, plain};
use crate::choice::picked;
use crate::estimates::{lemma_times_off, size};
use crate::mechanisms::{
    after_answer, after_answers, briefing_of, offer_of, offers_of, opened, questions_of,
    recent_texts, revised, rival_info, rivals_of, Answer,
};
use crate::prompts::{
    answer_fields, braced, choice_of, factor_of, field, first_integer, first_number, json_number,
    strategy_of, JsonView, OfferView, StrategyView,
};
use crate::readback::lemma_decimal;
use crate::text::{decimal, digit_run, is_digit, number, trimmed};
use crate::world::{
    alive_ids, ids_of, lemma_place_of, AgentId, CommentView, FirmView, MarketView, WorldView,
};
use vstd::arithmetic::power2::*;
use vstd::prelude::*;
use vstd::string::*;

verus! {

/// A decision keeps the dishes, what they are named and what they cost; it sets the salary of
/// the chef for the restaurant and for each dish; and nothing else changes but prices and the
/// advertisement, which stays where the decision gives none.
pub proof fn decisions_keep_the_menu(f: FirmView, s: StrategyView)
    ensures
        revised(f, s).menu.len() == f.menu.len(),
        forall|k: int|
            0 <= k < f.menu.len() ==> {
                let d = #[trigger] revised(f, s).menu[k];
                &&& d.name == f.menu[k].name
                &&& d.cost == f.menu[k].cost
                &&& d.chef_salary == s.chef_salary
            },
        revised(f, s).chef_salary == s.chef_salary,
        s.advertisement.len() > 0 ==> revised(f, s).advertisement == s.advertisement,
        s.advertisement.len() == 0 ==> revised(f, s).advertisement == f.advertisement,
        revised(f, s).funds == f.funds,
        revised(f, s).reputation == f.reputation,
        revised(f, s).comments == f.comments,
        revised(f, s).memory == f.memory,
        revised(f, s).cumulative_revenue == f.cumulative_revenue,
        revised(f, s).alive == f.alive,
{
}

/// A price after a decision is the price times the factor, up to a rounding, where this is one
/// or more, and one where it is less.
pub proof fn prices_are_multiplied(f: FirmView, s: StrategyView, k: int)
    requires
        0 <= k < f.menu.len(),
        f.menu[k].price.is_finite(),
        s.price_factor.is_finite(),
        f.menu[k].price.times(s.price_factor).is_finite(),
    ensures
        ({
            let u = pow2(1074);
            let p = f.menu[k].price.value();
            let q = s.price_factor.value();
            let x = revised(f, s).menu[k].price;
            &&& x.is_finite()
            &&& x.value() >= u
            &&& x.value() == u || size(x.value() * u - p * q) * PARTS <= size(p * q) + u * PARTS
            &&& p * q * PARTS >= u * u * (PARTS + 2) ==> size(x.value() * u - p * q) * PARTS
                <= size(p * q) + u * PARTS
            &&& p * q <= 0 ==> x == spec_real(1)
        }),
{
    let u = pow2(1074) as int;
    let w = PARTS as int;
    let a = f.menu[k].price;
    let b = s.price_factor;
    let t = a.times(b);
    let pq = a.value() * b.value();
    lemma_one();
    lemma_pow2_pos(1074);
    lemma_times_off(a, b);
    let x = revised(f, s).menu[k].price;
    assert(x == t.larger(spec_real(1)));
    reveal(size);
    assert((w + 2) * (u * u) == u * u * (PARTS + 2)) by (nonlinear_arith)
        requires w == PARTS;
    if t.value() < u {
        assert(x == spec_real(1));
        let e = t.value() * u - pq;
        assert(t.value() * u <= (u - 1) * u) by (nonlinear_arith)
            requires t.value() <= u - 1, u > 0;
        assert((u - 1) * u == u * u - u) by (nonlinear_arith);
        assert(size(e) * w == 0x20_0000_0000_0000 * size(e));
        assert(pq * PARTS == 0x20_0000_0000_0000 * pq);
        assert(u * PARTS == 0x20_0000_0000_0000 * u);
        assert((w + 2) * (u * u) == 0x20_0000_0000_0002 * (u * u));
        if pq * PARTS >= u * u * (PARTS + 2) {
            assert(pq > 0) by (nonlinear_arith)
                requires 0x20_0000_0000_0000 * pq >= 0x20_0000_0000_0002 * (u * u), u > 0;
            assert(u * u >= u) by (nonlinear_arith)
                requires u >= 1;
        }
    } else {
        if pq <= 0 {
            let e = t.value() * u - pq;
            assert(t.value() * u >= u * u) by (nonlinear_arith)
                requires t.value() >= u, u > 0;
            assert(size(e) * w == 0x20_0000_0000_0000 * size(e));
            assert(u * PARTS == 0x20_0000_0000_0000 * u);
            lemma_two_units();
        }
    }
}

/// One is more than two units.
proof fn lemma_two_units()
    ensures
        pow2(1074) * pow2(1074) >= 2 * pow2(1074),
{
    lemma2_to64();
    lemma_pow2_strictly_increases(1, 1074);
    assert(pow2(1074) * pow2(1074) >= 2 * pow2(1074)) by (nonlinear_arith)
        requires pow2(1074) >= 2;
}

/// A factor of one leaves a price of one or more as it is.
pub proof fn a_factor_of_one_keeps_prices(f: FirmView, s: StrategyView, k: int)
    requires
        0 <= k < f.menu.len(),
        plain(f.menu[k].price),
        f.menu[k].price.is_finite(),
        f.menu[k].price.value() >= pow2(1074),
        s.price_factor == spec_real(1),
    ensures
        revised(f, s).menu[k].price == f.menu[k].price,
{
    lemma_one();
    lemma_times_one(f.menu[k].price);
}

/// A manager's answer decides for the manager's restaurant and for no other, and it changes
/// nothing else in the town.
pub proof fn managers_decide_for_their_own(w: WorldView, id: AgentId, text: Seq<char>, i: int)
    requires
        w.wf(),
        0 <= i < w.firms.len(),
    ensures
        after_answer(w, id, text).firms.len() == w.firms.len(),
        after_answer(w, id, text).firms[i].0 == w.firms[i].0,
        w.firms[i].0 != id ==> after_answer(w, id, text).firms[i] == w.firms[i],
        w.firms[i].0 == id ==> after_answer(w, id, text).firms[i].1 == revised(
            w.firms[i].1,
            strategy_of(answer_fields(text), w.firms[i].1.chef_salary),
        ),
        after_answer(w, id, text).customers == w.customers,
        after_answer(w, id, text).market == w.market,
        after_answer(w, id, text).day == w.day,
        after_answer(w, id, text).t == w.t,
{
    lemma_place_of(ids_of(w.firms), id);
    assert(ids_of(w.firms)[i] == w.firms[i].0);
}

/// Answers are carried out one after the other.
pub proof fn answers_follow_each_other(w: WorldView, a: Seq<Answer>, b: Seq<Answer>)
    ensures
        after_answers(w, a + b) == after_answers(after_answers(w, a), b),
        after_answers(w, seq![]) == w,
        forall|e: Answer| #[trigger] after_answers(w, seq![e]) == after_answer(w, e.0, e.1),
    decreases b.len(),
{
    if b.len() == 0 {
        assert(a + b =~= a);
    } else {
        answers_follow_each_other(w, a, b.drop_last());
        assert((a + b).drop_last() =~= a + b.drop_last());
        assert((a + b).last() == b.last());
    }
    assert forall|e: Answer| #[trigger] after_answers(w, seq![e]) == after_answer(w, e.0, e.1) by {
        assert(seq![e].drop_last() =~= Seq::<Answer>::empty());
        assert(after_answers(w, Seq::<Answer>::empty()) == w);
    }
}

/// A restaurant that nobody answers for stays as it is.
pub proof fn silence_changes_nothing(w: WorldView, answers: Seq<Answer>, i: int)
    requires
        w.wf(),
        0 <= i < w.firms.len(),
        forall|k: int| 0 <= k < answers.len() ==> (#[trigger] answers[k]).0 != w.firms[i].0,
    ensures
        after_answers(w, answers).wf(),
        after_answers(w, answers).firms.len() == w.firms.len(),
        after_answers(w, answers).firms[i] == w.firms[i],
    decreases answers.len(),
{
    if answers.len() > 0 {
        let rest = answers.drop_last();
        assert forall|k: int| 0 <= k < rest.len() implies (#[trigger] rest[k]).0 != w.firms[i].0 by {
            assert(rest[k] == answers[k]);
        }
        silence_changes_nothing(w, rest, i);
        let before = after_answers(w, rest);
        let last = answers[answers.len() - 1];
        managers_decide_for_their_own(before, last.0, last.1, i);
        lemma_place_of(ids_of(before.firms), last.0);
        assert(ids_of(after_answers(w, answers).firms) =~= ids_of(before.firms));
    }
}

/// What a list of restaurants offers is what each of those in business shows, in their order.
pub proof fn those_in_business_make_offers(firms: Seq<(AgentId, FirmView)>)
    ensures
        offers_of(firms) == firms.filter(|e: (AgentId, FirmView)| e.1.alive).map_values(
            |e: (AgentId, FirmView)| offer_of(e.0, e.1),
        ),
        alive_ids(firms) == firms.filter(|e: (AgentId, FirmView)| e.1.alive).map_values(
            |e: (AgentId, FirmView)| e.0,
        ),
    decreases firms.len(),
{
    reveal(Seq::filter);
    let p = |e: (AgentId, FirmView)| e.1.alive;
    let f = |e: (AgentId, FirmView)| offer_of(e.0, e.1);
    let g = |e: (AgentId, FirmView)| e.0;
    if firms.len() > 0 {
        those_in_business_make_offers(firms.drop_last());
        let before = firms.drop_last().filter(p);
        assert(before.push(firms.last()).map_values(f) =~= before.map_values(f).push(
            f(firms.last()),
        ));
        assert(before.push(firms.last()).map_values(g) =~= before.map_values(g).push(
            g(firms.last()),
        ));
    }
    assert(offers_of(firms) =~= firms.filter(p).map_values(f));
    assert(alive_ids(firms) =~= firms.filter(p).map_values(g));
}

/// An offer tells of its own restaurant: its identity, its reputation, its advertisement, and
/// its latest comments, of which a new one comes first and at most three are told.
pub proof fn offers_tell_the_latest(id: AgentId, f: FirmView, c: CommentView)
    ensures
        offer_of(id, f).firm == id.0,
        offer_of(id, f).reputation == f.reputation,
        offer_of(id, f).advertisement == f.advertisement,
        offer_of(id, f).recent_comments.len() <= 3,
        f.comments.len() <= 3 ==> offer_of(id, f).recent_comments.len() == f.comments.len(),
        f.comments.len() >= 3 ==> offer_of(id, f).recent_comments.len() == 3,
        forall|k: int|
            0 <= k < offer_of(id, f).recent_comments.len() ==> #[trigger] offer_of(
                id,
                f,
            ).recent_comments[k] == f.comments.reverse()[k].text,
        recent_texts(f.comments.push(c))[0] == c.text,
        f.comments.len() < 3 ==> recent_texts(f.comments.push(c)) == seq![c.text] + recent_texts(
            f.comments,
        ),
        f.comments.len() >= 3 ==> recent_texts(f.comments.push(c)) == seq![c.text] + recent_texts(
            f.comments,
        ).take(2),
{
    let now = recent_texts(f.comments.push(c));
    if f.comments.len() < 3 {
        assert(now =~= seq![c.text] + recent_texts(f.comments));
    } else {
        assert(now =~= seq![c.text] + recent_texts(f.comments).take(2));
    }
}

/// A manager is told of the rivals that are in business, each once, in their order, and never of
/// the manager's own restaurant.
pub proof fn rivals_are_the_others_in_business(
    firms: Seq<(AgentId, FirmView)>,
    yesterday: MarketView,
    id: AgentId,
)
    ensures
        rivals_of(firms, yesterday, id) == firms.filter(
            |e: (AgentId, FirmView)| e.1.alive && e.0 != id,
        ).map_values(|e: (AgentId, FirmView)| rival_info(e.0, e.1, yesterday)),
    decreases firms.len(),
{
    reveal(Seq::filter);
    let p = |e: (AgentId, FirmView)| e.1.alive && e.0 != id;
    let f = |e: (AgentId, FirmView)| rival_info(e.0, e.1, yesterday);
    if firms.len() > 0 {
        rivals_are_the_others_in_business(firms.drop_last(), yesterday, id);
        let before = firms.drop_last().filter(p);
        assert(before.push(firms.last()).map_values(f) =~= before.map_values(f).push(
            f(firms.last()),
        ));
    }
    assert(rivals_of(firms, yesterday, id) =~= firms.filter(p).map_values(f));
}

/// What a manager is told of a restaurant is what the day before brought to it.
pub proof fn briefings_tell_of_yesterday(
    w: WorldView,
    yesterday: MarketView,
    id: AgentId,
    other: AgentId,
    f: FirmView,
)
    ensures
        yesterday.day_customers.contains_key(id.0) ==> briefing_of(w, yesterday, id).own_customers
            == yesterday.day_customers[id.0],
        !yesterday.day_customers.contains_key(id.0) ==> briefing_of(w, yesterday, id).own_customers
            == 0,
        yesterday.day_revenue.contains_key(id.0) ==> briefing_of(w, yesterday, id).own_revenue
            == yesterday.day_revenue[id.0],
        !yesterday.day_revenue.contains_key(id.0) ==> briefing_of(
            w,
            yesterday,
            id,
        ).own_revenue.value() == 0,
        rival_info(other, f, yesterday).day_customers == briefing_of(
            w,
            yesterday,
            other,
        ).own_customers,
        rival_info(other, f, yesterday).day_revenue == briefing_of(w, yesterday, other).own_revenue,
{
}

/// A day opens with nothing sold and the same restaurants and customers; the days are counted
/// from zero, one for each that has begun.
pub proof fn days_open_empty(w: WorldView, firm: u64)
    ensures
        opened(w).market.customers_of(firm) == 0,
        opened(w).market.revenue_of(firm).value() == 0,
        opened(w).firms == w.firms,
        opened(w).customers == w.customers,
        opened(w).t == w.t,
        w.t > 0 ==> opened(w).day + 1 == w.t,
        w.t == 0 ==> opened(w).day == 0,
        opened(opened(w)) == opened(w),
{
}

/// One manager is asked for each restaurant in business.
pub proof fn one_question_for_each_in_business(w: WorldView, yesterday: MarketView)
    ensures
        questions_of(w, yesterday).len() == w.firms.filter(
            |e: (AgentId, FirmView)| e.1.alive,
        ).len(),
        forall|k: int|
            0 <= k < questions_of(w, yesterday).len() ==> (#[trigger] questions_of(
                w,
                yesterday,
            )[k]).0 == w.firms.filter(|e: (AgentId, FirmView)| e.1.alive)[k].0,
{
    those_in_business_make_offers(w.firms);
}

/// A value under a name is the first one under it; none is found only if there is none.
pub proof fn fields_are_found_by_name(fields: Seq<(Seq<char>, JsonView)>, name: Seq<char>)
    ensures
        match field(fields, name) {
            Some(v) => exists|i: int|
                {
                    &&& 0 <= i < fields.len() && #[trigger] fields[i] == (name, v)
                    &&& forall|k: int| 0 <= k < i ==> (#[trigger] fields[k]).0 != name
                },
            None => forall|k: int| 0 <= k < fields.len() ==> (#[trigger] fields[k]).0 != name,
        },
    decreases fields.len(),
{
    if fields.len() > 0 {
        let rest = fields.drop_first();
        fields_are_found_by_name(rest, name);
        if fields[0].0 == name {
            assert(fields[0] == (name, field(fields, name)->0));
        } else {
            match field(rest, name) {
                Some(v) => {
                    let i = choose|i: int|
                        {
                            &&& 0 <= i < rest.len() && #[trigger] rest[i] == (name, v)
                            &&& forall|k: int| 0 <= k < i ==> (#[trigger] rest[k]).0 != name
                        };
                    assert(fields[i + 1] == (name, v));
                    assert forall|k: int| 0 <= k < i + 1 implies (#[trigger] fields[k]).0 != name by {
                        if k > 0 {
                            assert(rest[k - 1] == fields[k]);
                        }
                    }
                },
                None => {
                    assert forall|k: int| 0 <= k < fields.len() implies (#[trigger] fields[k]).0
                        != name by {
                        if k > 0 {
                            assert(rest[k - 1] == fields[k]);
                        }
                    }
                },
            }
        }
    }
}

/// A number is taken from under the first of the names that has one.
pub proof fn earlier_names_are_tried_first(
    fields: Seq<(Seq<char>, JsonView)>,
    names: Seq<Seq<char>>,
    k: int,
)
    requires
        0 <= k < names.len(),
        json_number(field(fields, names[k])) is Some,
        forall|j: int| 0 <= j < k ==> json_number(field(fields, #[trigger] names[j])) is None,
    ensures
        first_number(fields, names) == json_number(field(fields, names[k])),
    decreases names.len(),
{
    if k > 0 {
        assert(json_number(field(fields, names[0])) is None);
        let rest = names.drop_first();
        assert forall|j: int| 0 <= j < k - 1 implies json_number(
            field(fields, #[trigger] rest[j]),
        ) is None by {
            assert(rest[j] == names[j + 1]);
        }
        assert(rest[k - 1] == names[k]);
        earlier_names_are_tried_first(fields, rest, k - 1);
    }
}

/// Where none of the names has a number there is none.
pub proof fn no_name_no_number(fields: Seq<(Seq<char>, JsonView)>, names: Seq<Seq<char>>)
    requires
        forall|j: int|
            0 <= j < names.len() ==> json_number(field(fields, #[trigger] names[j])) is None,
    ensures
        first_number(fields, names) is None,
    decreases names.len(),
{
    if names.len() > 0 {
        assert(json_number(field(fields, names[0])) is None);
        let rest = names.drop_first();
        assert forall|j: int| 0 <= j < rest.len() implies json_number(
            field(fields, #[trigger] rest[j]),
        ) is None by {
            assert(rest[j] == names[j + 1]);
        }
        no_name_no_number(fields, rest);
    }
}

/// The number under a name, if there is one.
pub open spec fn number_under(fields: Seq<(Seq<char>, JsonView)>, name: Seq<char>) -> Option<Real> {
    json_number(field(fields, name))
}

/// The factor of prices stands under `price_factor`, else under `price`, else under `factor`; the
/// salary under `chef_salary`, else under `salary`, else under `chef`. Without a number prices
/// stay, and so does a salary that is not negative.
pub proof fn decisions_are_read_by_name(fields: Seq<(Seq<char>, JsonView)>, salary: Real)
    ensures
        ({
            let s = strategy_of(Some(fields), salary);
            let a = number_under(fields, "price_factor"@);
            let b = number_under(fields, "price"@);
            let c = number_under(fields, "factor"@);
            &&& a is Some ==> s.price_factor == factor_of(a)
            &&& a is None && b is Some ==> s.price_factor == factor_of(b)
            &&& a is None && b is None && c is Some ==> s.price_factor == factor_of(c)
            &&& a is None && b is None && c is None ==> s.price_factor == spec_real(1)
        }),
        ({
            let s = strategy_of(Some(fields), salary);
            let a = number_under(fields, "chef_salary"@);
            let b = number_under(fields, "salary"@);
            let c = number_under(fields, "chef"@);
            &&& a is Some ==> s.chef_salary == a->0.larger(Real { bits: 0 })
            &&& a is None && b is Some ==> s.chef_salary == b->0.larger(Real { bits: 0 })
            &&& a is None && b is None && c is Some ==> s.chef_salary == c->0.larger(
                Real { bits: 0 },
            )
            &&& a is None && b is None && c is None && !salary.is_nan() && salary.value() >= 0
                ==> s.chef_salary.value() == salary.value()
        }),
        strategy_of(None, salary).price_factor == spec_real(1),
        strategy_of(None, salary).chef_salary == salary,
        strategy_of(None, salary).advertisement.len() == 0,
{
    lemma_three(fields, "price_factor"@, "price"@, "factor"@);
    lemma_three(fields, "chef_salary"@, "salary"@, "chef"@);
}

/// Three names, one after the other.
proof fn lemma_three(fields: Seq<(Seq<char>, JsonView)>, x: Seq<char>, y: Seq<char>, z: Seq<char>)
    ensures
        ({
            let a = number_under(fields, x);
            let b = number_under(fields, y);
            let c = number_under(fields, z);
            let n = first_number(fields, seq![x, y, z]);
            &&& a is Some ==> n == a
            &&& a is None && b is Some ==> n == b
            &&& a is None && b is None ==> n == c
        }),
{
    let names = seq![x, y, z];
    assert(names[0] == x && names[1] == y && names[2] == z);
    if number_under(fields, x) is Some {
        earlier_names_are_tried_first(fields, names, 0);
    } else if number_under(fields, y) is Some {
        earlier_names_are_tried_first(fields, names, 1);
    } else if number_under(fields, z) is Some {
        earlier_names_are_tried_first(fields, names, 2);
    } else {
        no_name_no_number(fields, names);
    }
}

/// A factor between a half and one and a half is taken as it is; one outside is taken to the
/// nearer end; NaN changes no price. A salary is taken as it is unless it is negative or NaN:
/// then it is zero.
pub proof fn numbers_in_range_are_taken(x: Real)
    ensures
        spec_ratio(1, 2).at_most(x) && x.at_most(spec_ratio(3, 2)) ==> factor_of(Some(x)) == x,
        x.less(spec_ratio(1, 2)) ==> factor_of(Some(x)) == spec_ratio(1, 2),
        spec_ratio(3, 2).less(x) ==> factor_of(Some(x)) == spec_ratio(3, 2),
        x.is_nan() ==> factor_of(Some(x)) == spec_real(1),
        2 * spec_ratio(1, 2).value() == spec_real(1).value(),
        2 * spec_ratio(3, 2).value() == 3 * spec_real(1).value(),
        !x.is_nan() && x.value() >= 0 ==> x.larger(Real { bits: 0 }) == x,
        !x.is_nan() && x.value() < 0 ==> x.larger(Real { bits: 0 }).value() == 0,
        x.is_nan() ==> x.larger(Real { bits: 0 }).value() == 0,
{
    lemma_halves();
    crate::estimates::lemma_halves_exact();
}

/// An advertisement is the text under `advertisement`, else that under `ad`, without the white
/// space around it; what is no text advertises nothing.
pub proof fn advertisements_are_read_by_name(fields: Seq<(Seq<char>, JsonView)>, salary: Real)
    ensures
        ({
            let ad = strategy_of(Some(fields), salary).advertisement;
            let a = field(fields, "advertisement"@);
            let b = field(fields, "ad"@);
            &&& a matches Some(JsonView::Text(s)) ==> ad == trimmed(s)
            &&& a is Some && !(a->0 is Text) ==> ad.len() == 0
            &&& a is None ==> (b matches Some(JsonView::Text(s)) ==> ad == trimmed(s))
            &&& a is None && b is None ==> ad.len() == 0
            &&& a is None && b is Some && !(b->0 is Text) ==> ad.len() == 0
        }),
{
}

/// What is taken for JSON starts with the first opening brace and ends with the last closing
/// one; there is none where no closing brace follows an opening one.
pub proof fn braces_enclose_the_answer(s: Seq<char>)
    ensures
        match braced(s) {
            Some(t) => exists|a: Seq<char>, b: Seq<char>|
                {
                    &&& s == #[trigger] (a + t + b)
                    &&& t.len() > 0 && t[0] == '{' && t.last() == '}'
                    &&& !a.contains('{')
                    &&& !b.contains('}')
                },
            None => forall|i: int, j: int|
                0 <= i < j < s.len() ==> #[trigger] s[i] != '{' || #[trigger] s[j] != '}',
        },
{
    s.index_of_first_ensures('{');
    s.index_of_last_ensures('}');
    match braced(s) {
        Some(t) => {
            let i = s.index_of_first('{')->0;
            let j = s.index_of_last('}')->0;
            let a = s.take(i);
            let b = s.skip(j + 1);
            assert(s =~= a + t + b);
            if a.contains('{') {
                let k = choose|k: int| 0 <= k < a.len() && a[k] == '{';
                assert(s[k] == '{');
            }
            if b.contains('}') {
                let k = choose|k: int| 0 <= k < b.len() && b[k] == '}';
                assert(s[j + 1 + k] == '}');
            }
        },
        None => {
            assert forall|i: int, j: int| 0 <= i < j < s.len() implies #[trigger] s[i] != '{'
                || #[trigger] s[j] != '}' by {
                if s[i] == '{' && s[j] == '}' {
                    assert(s.contains('{') && s.contains('}'));
                    let p = s.index_of_first('{')->0;
                    let q = s.index_of_last('}')->0;
                    assert(p <= i);
                    assert(q >= j);
                }
            }
        },
    }
}

/// Text in front that has no digit does not matter for the first number in a text, and a number
/// in digits is read up to where its digits end.
pub proof fn the_first_digits_are_read(a: Seq<char>, n: nat, b: Seq<char>)
    requires
        forall|i: int| 0 <= i < a.len() ==> !is_digit(#[trigger] a[i]),
        b.len() > 0 ==> !is_digit(b[0]),
    ensures
        first_integer(a + decimal(n) + b, 0) == Some(n),
        first_integer(a, 0) is None,
{
    let s = a + decimal(n) + b;
    lemma_decimal(n);
    lemma_skip_text(s, a.len() as int, 0);
    lemma_skip_text(a, a.len() as int, 0);
    assert(s[a.len() as int] == decimal(n)[0]);
    lemma_run_ends(s, a.len() as int, (a.len() + decimal(n).len()) as int);
    assert(s.subrange(a.len() as int, (a.len() + decimal(n).len()) as int) =~= decimal(n));
}

/// Text without digits is skipped.
proof fn lemma_skip_text(s: Seq<char>, n: int, i: int)
    requires
        0 <= i <= n <= s.len(),
        forall|k: int| 0 <= k < n ==> !is_digit(#[trigger] s[k]),
    ensures
        first_integer(s, i) == first_integer(s, n),
    decreases n - i,
{
    if i < n {
        assert(!is_digit(s[i]));
        lemma_skip_text(s, n, i + 1);
    }
}

/// A run of digits ends at the first other character.
proof fn lemma_run_ends(s: Seq<char>, i: int, e: int)
    requires
        0 <= i <= e <= s.len(),
        forall|k: int| i <= k < e ==> is_digit(#[trigger] s[k]),
        e < s.len() ==> !is_digit(s[e]),
    ensures
        digit_run(s, i) == e,
    decreases e - i,
{
    if i < e {
        assert(is_digit(s[i]));
        lemma_run_ends(s, i + 1, e);
    }
}

/// A choice stands under `choice`, else under `option`, `index` or `restaurant`, rounded to the
/// nearest integer; without any of these it is the first number in the text. It is no choice if
/// it is not the number of an offer.
pub proof fn choices_are_read_by_name(
    fields: Seq<(Seq<char>, JsonView)>,
    text: Seq<char>,
    n_offers: nat,
    k: nat,
)
    ensures
        ({
            let a = number_under(fields, "choice"@);
            let b = number_under(fields, "option"@);
            let c = number_under(fields, "index"@);
            let d = number_under(fields, "restaurant"@);
            let r = choice_of(Some(fields), text, n_offers);
            let named = if a is Some {
                a
            } else if b is Some {
                b
            } else if c is Some {
                c
            } else {
                d
            };
            &&& named is Some ==> (r == Some(k) <==> named->0.to_nearest_i64() == k && k < n_offers)
            &&& named is None ==> r == choice_of(None, text, n_offers)
        }),
        choice_of(None, text, n_offers) == Some(k) <==> first_integer(text, 0) == Some(k) && k
            < n_offers,
{
    let names = seq!["choice"@, "option"@, "index"@, "restaurant"@];
    assert(names[0] == "choice"@ && names[1] == "option"@ && names[2] == "index"@ && names[3]
        == "restaurant"@);
    if number_under(fields, "choice"@) is Some {
        earlier_names_are_tried_first(fields, names, 0);
    } else if number_under(fields, "option"@) is Some {
        earlier_names_are_tried_first(fields, names, 1);
    } else if number_under(fields, "index"@) is Some {
        earlier_names_are_tried_first(fields, names, 2);
    } else if number_under(fields, "restaurant"@) is Some {
        earlier_names_are_tried_first(fields, names, 3);
    } else {
        no_name_no_number(fields, names);
    }
}

/// A customer who names an offer goes there.
pub proof fn a_named_offer_is_picked(k: nat, offers: Seq<OfferView>)
    ensures
        picked(Some(k), offers) == k,
{
}

} // verus!
