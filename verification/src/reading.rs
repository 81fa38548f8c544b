//! What scripted customers read of the restaurants in a question is what was put into it.
use crate::binary64::Real;
use crate::digits::ten_to;
use crate::numerals::spec_parse_real;
use crate::prompts::{
    advertisement_part, all_offer_lines, choice_prompt, comment_lines, customer_part,
    deliberation_part, last_visit_part, offer_lines, OfferView, CHOICE_MARK,
};
use crate::readback::{
    before_budget, clear_of, lemma_before_budget_clear, lemma_clear, lemma_decimal,
    lemma_find_behind, lemma_fixed_without, lemma_padded, lemma_run_of_digits, without,
};
use crate::reproduce_mock::{
    cheapest_choice, choice, digits_after, field, is_number_char, lemma_line_end, line_at, line_end,
    looks_to_price, number_or, number_run, offer_in, offers_from, preference, Offered, BARGAIN_MARK,
};
use crate::rounding::{units, INF};
use crate::text::{
    decimal, digit_run, find, is_digit, is_white_space, number, occurs_at, trimmed_start,
};
use crate::world::{CustomerView, Visit};
use crate::writing::{fixed, half_even, padded};
use vstd::arithmetic::power2::pow2;
use vstd::prelude::*;
use vstd::string::*;

verus! {

/// A text on one line.
pub open spec fn one_line(s: Seq<char>) -> bool {
    without(s, '\n')
}

/// The number that a word starts with, as a customer reads it.
pub open spec fn told(word: Seq<char>) -> Option<Real> {
    spec_parse_real(word.take(number_run(word, 0)))
}

/// An offer as a customer reads it: its number, and its price, quality and reputation to the
/// places to which they are written.
pub open spec fn read_as(i: int, o: OfferView) -> Offered {
    Offered {
        index: i as usize,
        price: number_or(told(fixed(o.avg_price, 0)), Real { bits: INF }),
        quality: number_or(told(fixed(o.avg_score, 3)), Real { bits: 0 }),
        reputation: number_or(told(fixed(o.reputation, 2)), Real { bits: 0 }),
    }
}

/// A line ends at the same place when something is put before it.
pub proof fn lemma_line_end_behind(a: Seq<char>, t: Seq<char>, i: int)
    requires
        0 <= i <= t.len(),
    ensures
        line_end(a + t, a.len() + i) == a.len() + line_end(t, i),
    decreases t.len() - i,
{
    if i < t.len() && t[i] != '\n' {
        assert((a + t)[a.len() + i] == t[i]);
        lemma_line_end_behind(a, t, i + 1);
    } else if i < t.len() {
        assert((a + t)[a.len() + i] == t[i]);
    }
}

/// Lines tell of the same offers when something is put before them.
pub proof fn lemma_offers_behind(a: Seq<char>, t: Seq<char>, i: int)
    requires
        0 <= i <= t.len() + 1,
    ensures
        offers_from(a + t, a.len() + i) == offers_from(t, i),
    decreases t.len() + 1 - i,
{
    if i < t.len() {
        let e = line_end(t, i);
        lemma_line_end(t, i);
        lemma_line_end_behind(a, t, i);
        assert(line_at(a + t, a.len() + i) =~= line_at(t, i)) by {
            if i < e < t.len() {
                assert((a + t)[a.len() + e - 1] == t[e - 1]);
            }
        }
        lemma_offers_behind(a, t, e + 1);
    }
}

/// Where a line ends that is followed by a line feed.
proof fn lemma_line_end_at(l: Seq<char>, b: Seq<char>, i: int)
    requires
        one_line(l),
        0 <= i <= l.len(),
    ensures
        line_end(l.push('\n') + b, i) == l.len(),
    decreases l.len() - i,
{
    let s = l.push('\n') + b;
    if i < l.len() {
        assert(s[i] == l[i]);
        lemma_line_end_at(l, b, i + 1);
    } else {
        assert(s[i] == '\n');
    }
}

/// A line without the carriage return that it may end with.
spec fn chopped(l: Seq<char>) -> Seq<char> {
    if l.len() > 0 && l.last() == '\r' {
        l.drop_last()
    } else {
        l
    }
}

/// What a text tells of that starts with a line.
proof fn lemma_first_line(l: Seq<char>, b: Seq<char>)
    requires
        one_line(l),
    ensures
        offers_from(l.push('\n') + b, 0) == (match offer_in(chopped(l)) {
            Some(o) => seq![o],
            None => seq![],
        }) + offers_from(b, 0),
{
    let s = l.push('\n') + b;
    lemma_line_end_at(l, b, 0);
    assert(line_at(s, 0) =~= chopped(l)) by {
        if l.len() > 0 {
            assert(s[l.len() - 1] == l[l.len() - 1]);
        }
    }
    lemma_offers_behind(l.push('\n'), b, 0);
}

/// A text that tells of no offer, whatever follows it.
spec fn quiet(t: Seq<char>) -> bool {
    forall|b: Seq<char>| #[trigger] offers_from(t + b, 0) == offers_from(b, 0)
}

/// Two quiet texts make a quiet one.
proof fn lemma_quiet_joined(t: Seq<char>, u: Seq<char>)
    requires
        quiet(t),
        quiet(u),
    ensures
        quiet(t + u),
{
    assert forall|b: Seq<char>| #[trigger] offers_from((t + u) + b, 0) == offers_from(b, 0) by {
        assert((t + u) + b =~= t + (u + b));
        assert(offers_from(t + (u + b), 0) == offers_from(u + b, 0));
    }
}

/// A line that does not start like an offer.
spec fn plain_start(l: Seq<char>) -> bool {
    ||| l.len() == 0
    ||| !is_white_space(l[0]) && l[0] != '-'
    ||| l.len() >= 4 && l[0] == '-' && l[1] == ' ' && l[2] != 'O'
}

/// Such a line is quiet.
proof fn lemma_quiet_line(l: Seq<char>)
    requires
        one_line(l),
        plain_start(l),
    ensures
        quiet(l.push('\n')),
{
    let c = chopped(l);
    let mark = "- Option "@;
    reveal_strlit("- Option ");
    assert(offer_in(c) is None) by {
        if c.len() > 0 {
            assert(c[0] == l[0]);
            assert(trimmed_start(c) == c);
            if occurs_at(c, mark, 0) {
                let here = c.subrange(0, mark.len() as int);
                assert(here[0] == c[0] && here[2] == c[2]);
                assert(c[2] == l[2]);
                assert(mark[0] == '-' && mark[2] == 'O');
            }
        } else {
            assert(trimmed_start(c) == c);
        }
    }
    assert forall|b: Seq<char>| #[trigger] offers_from(l.push('\n') + b, 0) == offers_from(b, 0) by {
        lemma_first_line(l, b);
        assert(Seq::<Offered>::empty() + offers_from(b, 0) =~= offers_from(b, 0));
    }
}

/// No text is quiet.
proof fn lemma_quiet_nothing()
    ensures
        quiet(Seq::<char>::empty()),
{
    assert forall|b: Seq<char>| #[trigger] offers_from(Seq::<char>::empty() + b, 0) == offers_from(
        b,
        0,
    ) by {
        assert(Seq::<char>::empty() + b =~= b);
    }
}

/// Two texts on one line make one.
proof fn lemma_one_line(s: Seq<char>, t: Seq<char>)
    requires
        one_line(s),
        one_line(t),
    ensures
        one_line(s + t),
{
    assert forall|i: int| 0 <= i < (s + t).len() implies #[trigger] (s + t)[i] != '\n' by {
        if i < s.len() {
            assert(s[i] != '\n');
        } else {
            assert(t[i - s.len()] != '\n');
        }
    }
}

/// A line with a comment is quiet.
proof fn lemma_quiet_comment(c: Seq<char>)
    requires
        one_line(c),
    ensures
        quiet("    comment: \""@ + c + "\"\n"@),
{
    reveal_strlit("    comment: \"");
    reveal_strlit("\"\n");
    reveal_strlit("- Option ");
    let head = "    comment: \""@;
    let l = (head + c).push('"');
    lemma_one_line(head, c);
    lemma_one_line(head + c, seq!['"']);
    assert(l =~= head + c + seq!['"']);
    assert(head + c + "\"\n"@ =~= l.push('\n'));
    assert(chopped(l) == l);
    let a = l.skip(1);
    let b = l.skip(2);
    let d = l.skip(3);
    let e = l.skip(4);
    assert(l[0] == head[0] && a[0] == head[1] && b[0] == head[2] && d[0] == head[3] && e[0]
        == head[4]);
    assert(l.drop_first() =~= a && a.drop_first() =~= b && b.drop_first() =~= d && d.drop_first()
        =~= e);
    assert(trimmed_start(e) == e);
    assert(trimmed_start(d) == e);
    assert(trimmed_start(b) == e);
    assert(trimmed_start(a) == e);
    assert(trimmed_start(l) == e);
    assert(offer_in(l) is None) by {
        if occurs_at(e, "- Option "@, 0) {
            assert(e.subrange(0, "- Option "@.len() as int)[0] == e[0]);
        }
    }
    assert forall|t: Seq<char>| #[trigger] offers_from(l.push('\n') + t, 0) == offers_from(t, 0) by {
        lemma_first_line(l, t);
        assert(Seq::<Offered>::empty() + offers_from(t, 0) =~= offers_from(t, 0));
    }
}

/// The lines with comments are quiet.
proof fn lemma_quiet_comments(comments: Seq<Seq<char>>, n: nat)
    requires
        n <= comments.len(),
        forall|k: int| 0 <= k < comments.len() ==> one_line(#[trigger] comments[k]),
    ensures
        quiet(comment_lines(comments, n)),
    decreases n,
{
    if n == 0 {
        lemma_quiet_nothing();
        assert(comment_lines(comments, 0) =~= Seq::<char>::empty());
    } else {
        lemma_quiet_comments(comments, (n - 1) as nat);
        assert(one_line(comments[n - 1]));
        lemma_quiet_comment(comments[n - 1]);
        lemma_quiet_joined(
            comment_lines(comments, (n - 1) as nat),
            "    comment: \""@ + comments[n - 1] + "\"\n"@,
        );
    }
}

/// A run of characters of a number within a longer text.
proof fn lemma_number_run_within(a: Seq<char>, word: Seq<char>, tail: Seq<char>, i: int)
    requires
        0 <= i <= word.len(),
        tail.len() == 0 || !is_number_char(tail[0]),
    ensures
        number_run(a + word + tail, a.len() + i) == a.len() + number_run(word, i),
        i <= number_run(word, i) <= word.len(),
    decreases word.len() - i,
{
    let s = a + word + tail;
    if i < word.len() {
        assert(s[a.len() + i] == word[i]);
        if is_number_char(word[i]) {
            lemma_number_run_within(a, word, tail, i + 1);
        }
    } else if tail.len() > 0 {
        assert(s[a.len() + i] == tail[0]);
    }
}

/// A run of digits within a longer text.
proof fn lemma_digit_run_within(a: Seq<char>, word: Seq<char>, tail: Seq<char>, i: int)
    requires
        0 <= i <= word.len(),
        tail.len() == 0 || !is_digit(tail[0]),
    ensures
        digit_run(a + word + tail, a.len() + i) == a.len() + digit_run(word, i),
        i <= digit_run(word, i) <= word.len(),
    decreases word.len() - i,
{
    let s = a + word + tail;
    if i < word.len() {
        assert(s[a.len() + i] == word[i]);
        if is_digit(word[i]) {
            lemma_digit_run_within(a, word, tail, i + 1);
        }
    } else if tail.len() > 0 {
        assert(s[a.len() + i] == tail[0]);
    }
}

/// What is read behind a marker that nothing before it can be taken for.
proof fn lemma_read_word(
    head: Seq<char>,
    marker: Seq<char>,
    word: Seq<char>,
    tail: Seq<char>,
    distance: int,
)
    requires
        0 < distance < marker.len(),
        clear_of(head, marker[0], marker[distance], distance),
        tail.len() == 0 || !is_number_char(tail[0]),
    ensures
        field(head + marker + word + tail, marker) == told(word),
        digits_after(head + marker + word + tail, marker) == Some(
            word.take(digit_run(word, 0)),
        ),
{
    let s = head + marker + word + tail;
    let a = head + marker;
    assert(s =~= head + marker + (word + tail));
    lemma_find_behind(head, marker, word + tail, distance, 0);
    lemma_number_run_within(a, word, tail, 0);
    lemma_digit_run_within(a, word, tail, 0);
    let b = a.len() as int;
    assert(s.subrange(b, b + number_run(word, 0)) =~= word.take(number_run(word, 0)));
    assert(s.subrange(b, b + digit_run(word, 0)) =~= word.take(digit_run(word, 0)));
}

/// No `a` means that nothing can be taken for a marker that starts with it.
proof fn lemma_without_is_clear(s: Seq<char>, a: char, b: char, distance: int)
    requires
        without(s, a),
    ensures
        clear_of(s, a, b, distance),
{
    assert forall|i: int| 0 <= i < s.len() && #[trigger] s[i] == a implies i + distance < s.len()
        && s[i + distance] != b by {
        assert(s[i] != a);
    }
}

/// What a line on an offer says behind its mark.
spec fn offer_rest(i: int, o: OfferView) -> Seq<char> {
    decimal(i as nat) + ": avg price "@ + fixed(o.avg_price, 0) + ", quality "@ + fixed(
        o.avg_score,
        3,
    ) + ", reputation "@ + fixed(o.reputation, 2) + advertisement_part(o.advertisement)
}

/// The price that a line on an offer tells.
proof fn lemma_price_read(i: int, o: OfferView)
    requires
        0 <= i,
    ensures
        field(offer_rest(i, o), "avg price "@) == told(fixed(o.avg_price, 0)),
{
    reveal_strlit("avg price ");
    reveal_strlit(": avg price ");
    reveal_strlit(", quality ");
    reveal_strlit(": ");
    let d = decimal(i as nat);
    let head = d + ": "@;
    let word = fixed(o.avg_price, 0);
    let tail = ", quality "@ + fixed(o.avg_score, 3) + ", reputation "@ + fixed(o.reputation, 2)
        + advertisement_part(o.advertisement);
    lemma_decimal(i as nat);
    assert(without(head, 'a')) by {
        assert forall|k: int| 0 <= k < head.len() implies #[trigger] head[k] != 'a' by {
            if k < d.len() {
                assert(is_digit(d[k]));
            }
        }
    }
    lemma_without_is_clear(head, 'a', 'v', 1);
    assert(tail[0] == ',');
    lemma_read_word(head, "avg price "@, word, tail, 1);
    assert(": avg price "@ =~= ": "@ + "avg price "@);
    assert(offer_rest(i, o) =~= head + "avg price "@ + word + tail);
}

/// The quality that a line on an offer tells.
proof fn lemma_quality_read(i: int, o: OfferView)
    requires
        0 <= i,
    ensures
        field(offer_rest(i, o), "quality "@) == told(fixed(o.avg_score, 3)),
{
    reveal_strlit("quality ");
    reveal_strlit(": avg price ");
    reveal_strlit(", quality ");
    reveal_strlit(", reputation ");
    reveal_strlit(", ");
    let d = decimal(i as nat);
    let p = fixed(o.avg_price, 0);
    let a = d + ": avg price "@;
    let head = a + p + ", "@;
    let word = fixed(o.avg_score, 3);
    let tail = ", reputation "@ + fixed(o.reputation, 2) + advertisement_part(o.advertisement);
    lemma_decimal(i as nat);
    lemma_fixed_without(o.avg_price, 0, 'q');
    assert(without(head, 'q')) by {
        assert forall|k: int| 0 <= k < head.len() implies #[trigger] head[k] != 'q' by {
            if k < d.len() {
                assert(is_digit(d[k]));
            } else if a.len() <= k < a.len() + p.len() {
                assert(p[k - a.len()] != 'q');
            }
        }
    }
    lemma_without_is_clear(head, 'q', 'u', 1);
    assert(tail[0] == ',');
    lemma_read_word(head, "quality "@, word, tail, 1);
    assert(", quality "@ =~= ", "@ + "quality "@);
    assert(offer_rest(i, o) =~= head + "quality "@ + word + tail);
}

/// The reputation that a line on an offer tells.
proof fn lemma_reputation_read(i: int, o: OfferView)
    requires
        0 <= i,
    ensures
        field(offer_rest(i, o), "reputation "@) == told(fixed(o.reputation, 2)),
{
    reveal_strlit("reputation ");
    reveal_strlit(": avg price ");
    reveal_strlit(", quality ");
    reveal_strlit(", reputation ");
    reveal_strlit(", ");
    reveal_strlit(", ad: \"");
    let d = decimal(i as nat);
    let p = fixed(o.avg_price, 0);
    let q = fixed(o.avg_score, 3);
    let head = d + ": avg price "@ + p + ", quality "@ + q + ", "@;
    let word = fixed(o.reputation, 2);
    let tail = advertisement_part(o.advertisement);
    lemma_decimal(i as nat);
    lemma_fixed_without(o.avg_price, 0, 'r');
    lemma_fixed_without(o.avg_score, 3, 'r');
    assert(without(d, 'r')) by {
        assert forall|k: int| 0 <= k < d.len() implies #[trigger] d[k] != 'r' by {
            assert(is_digit(d[k]));
        }
    }
    lemma_without_is_clear(d, 'r', 'e', 1);
    lemma_without_is_clear(p, 'r', 'e', 1);
    lemma_without_is_clear(q, 'r', 'e', 1);
    assert(clear_of(": avg price "@, 'r', 'e', 1));
    assert(clear_of(", quality "@, 'r', 'e', 1));
    assert(clear_of(", "@, 'r', 'e', 1));
    lemma_clear(d, ": avg price "@, 'r', 'e', 1);
    lemma_clear(d + ": avg price "@, p, 'r', 'e', 1);
    lemma_clear(d + ": avg price "@ + p, ", quality "@, 'r', 'e', 1);
    lemma_clear(d + ": avg price "@ + p + ", quality "@, q, 'r', 'e', 1);
    lemma_clear(d + ": avg price "@ + p + ", quality "@ + q, ", "@, 'r', 'e', 1);
    if o.advertisement.len() > 0 {
        assert(tail[0] == ',');
    }
    lemma_read_word(head, "reputation "@, word, tail, 1);
    assert(", reputation "@ =~= ", "@ + "reputation "@);
    assert(offer_rest(i, o) =~= head + "reputation "@ + word + tail);
}

/// A line on an offer is read as the offer.
proof fn lemma_offer_read(i: int, o: OfferView)
    requires
        0 <= i <= usize::MAX,
        one_line(o.advertisement),
    ensures
        offer_in("- Option "@ + offer_rest(i, o)) == Some(read_as(i, o)),
{
    reveal_strlit("- Option ");
    reveal_strlit(": avg price ");
    let mark = "- Option "@;
    let rest = offer_rest(i, o);
    let l = mark + rest;
    let d = decimal(i as nat);
    assert(l[0] == mark[0]);
    assert(trimmed_start(l) == l);
    assert(l.subrange(0, mark.len() as int) =~= mark);
    assert(l.skip(mark.len() as int) =~= rest);
    lemma_decimal(i as nat);
    let tail = rest.skip(d.len() as int);
    assert(tail[0] == ':') by {
        assert(rest[d.len() as int] == ": avg price "@[0]);
    }
    assert(rest =~= Seq::<char>::empty() + d + tail);
    lemma_digit_run_within(Seq::<char>::empty(), d, tail, 0);
    assert(digit_run(d, 0) == d.len()) by {
        lemma_run_of_digits(d, 0, d.len() as int, 0);
    }
    assert(rest.subrange(0, d.len() as int) =~= d);
    lemma_price_read(i, o);
    lemma_quality_read(i, o);
    lemma_reputation_read(i, o);
}

/// What a line on an offer says stands on one line.
proof fn lemma_offer_on_one_line(i: int, o: OfferView)
    requires
        0 <= i,
        one_line(o.advertisement),
    ensures
        one_line("- Option "@ + offer_rest(i, o)),
        ("- Option "@ + offer_rest(i, o)).last() != '\r',
{
    reveal_strlit("- Option ");
    reveal_strlit(": avg price ");
    reveal_strlit(", quality ");
    reveal_strlit(", reputation ");
    reveal_strlit(", ad: \"");
    reveal_strlit("\"");
    let d = decimal(i as nat);
    let p = fixed(o.avg_price, 0);
    let q = fixed(o.avg_score, 3);
    let r = fixed(o.reputation, 2);
    let ad = advertisement_part(o.advertisement);
    lemma_decimal(i as nat);
    lemma_fixed_without(o.avg_price, 0, '\n');
    lemma_fixed_without(o.avg_score, 3, '\n');
    lemma_fixed_without(o.reputation, 2, '\n');
    assert(one_line(d)) by {
        assert forall|k: int| 0 <= k < d.len() implies #[trigger] d[k] != '\n' by {
            assert(is_digit(d[k]));
        }
    }
    assert(one_line(ad)) by {
        if o.advertisement.len() > 0 {
            lemma_one_line(", ad: \""@, o.advertisement);
            lemma_one_line(", ad: \""@ + o.advertisement, "\""@);
        }
    }
    let a = d + ": avg price "@;
    lemma_one_line(d, ": avg price "@);
    lemma_one_line(a, p);
    lemma_one_line(a + p, ", quality "@);
    lemma_one_line(a + p + ", quality "@, q);
    lemma_one_line(a + p + ", quality "@ + q, ", reputation "@);
    lemma_one_line(a + p + ", quality "@ + q + ", reputation "@, r);
    lemma_one_line(a + p + ", quality "@ + q + ", reputation "@ + r, ad);
    lemma_one_line("- Option "@, offer_rest(i, o));
    let l = "- Option "@ + offer_rest(i, o);
    if o.advertisement.len() > 0 {
        assert(l.last() == '"');
    } else {
        lemma_fixed_end(o.reputation, 2);
        assert(r.len() > 0 && l.last() == r.last());
    }
}

/// A written number is not empty, and does not end a line.
proof fn lemma_fixed_end(x: Real, places: nat)
    ensures
        fixed(x, places).len() > 0,
        fixed(x, places).last() != '\r',
{
    reveal_strlit("NaN");
    reveal_strlit("inf");
    reveal_strlit("-");
    reveal_strlit("");
    let u = units(x.magnitude());
    let scale = ten_to(places);
    let n = half_even(
        u * scale,
        pow2(1074),
    );
    lemma_decimal(n);
    lemma_decimal(n / scale);
    assert(is_digit(decimal(n)[decimal(n).len() - 1]));
    lemma_padded(n % scale, places);
    if x.is_finite() && places > 0 {
        let pad = padded(n % scale, places);
        lemma_padded_len(n % scale, places);
        assert(is_digit(pad[pad.len() - 1]));
    }
}

proof fn lemma_padded_len(n: nat, width: nat)
    ensures
        padded(n, width).len() == width,
    decreases width,
{
    if width > 0 {
        lemma_padded_len(n / 10, (width - 1) as nat);
    }
}

/// The lines on offers stand each on its own.
pub open spec fn lines_apart(offers: Seq<OfferView>) -> bool {
    forall|i: int|
        0 <= i < offers.len() ==> one_line((#[trigger] offers[i]).advertisement) && forall|k: int|
            0 <= k < offers[i].recent_comments.len() ==> one_line(
                #[trigger] offers[i].recent_comments[k],
            )
}

/// The lines on an offer are a line, and lines on comments.
proof fn lemma_offer_lines_split(i: int, o: OfferView)
    ensures
        offer_lines(i, o) == ("- Option "@ + offer_rest(i, o)).push('\n') + comment_lines(
            o.recent_comments,
            o.recent_comments.len(),
        ),
{
    reveal_strlit("\n");
    let d = decimal(i as nat);
    let x = "- Option "@ + d + ": avg price "@ + fixed(o.avg_price, 0) + ", quality "@ + fixed(
        o.avg_score,
        3,
    ) + ", reputation "@ + fixed(o.reputation, 2) + advertisement_part(o.advertisement);
    assert(x =~= "- Option "@ + offer_rest(i, o));
    assert(x + "\n"@ =~= x.push('\n'));
}

/// Texts put together may be put together from the other end.
proof fn lemma_regrouped_three(p: Seq<char>, q: Seq<char>, r: Seq<char>)
    ensures
        (p + q) + r == p + (q + r),
{
    assert((p + q) + r =~= p + (q + r));
}

/// The lines on an offer are read as the offer.
proof fn lemma_offer_lines_read(i: int, o: OfferView, b: Seq<char>)
    requires
        0 <= i <= usize::MAX,
        one_line(o.advertisement),
        forall|k: int|
            0 <= k < o.recent_comments.len() ==> one_line(#[trigger] o.recent_comments[k]),
    ensures
        offers_from(offer_lines(i, o) + b, 0) == seq![read_as(i, o)] + offers_from(b, 0),
{
    let l = "- Option "@ + offer_rest(i, o);
    let comments = comment_lines(o.recent_comments, o.recent_comments.len());
    lemma_offer_lines_split(i, o);
    lemma_regrouped_three(l.push('\n'), comments, b);
    lemma_offer_on_one_line(i, o);
    lemma_offer_read(i, o);
    lemma_first_line(l, comments + b);
    assert(offers_from(comments + b, 0) == offers_from(b, 0)) by {
        lemma_quiet_comments(o.recent_comments, o.recent_comments.len());
    }
}

/// The lines on offers are read as the offers.
proof fn lemma_offers_read(offers: Seq<OfferView>, n: nat, b: Seq<char>)
    requires
        n <= offers.len() <= usize::MAX,
        lines_apart(offers),
    ensures
        offers_from(all_offer_lines(offers, n) + b, 0) == Seq::new(
            n,
            |i: int| read_as(i, offers[i]),
        ) + offers_from(b, 0),
    decreases n,
{
    let all = Seq::new(n, |i: int| read_as(i, offers[i]));
    if n == 0 {
        assert(all_offer_lines(offers, n) + b =~= b);
        assert(all + offers_from(b, 0) =~= offers_from(b, 0));
    } else {
        let i = n - 1;
        let o = offers[i];
        let m = (n - 1) as nat;
        let rest = Seq::new(m, |i: int| read_as(i, offers[i]));
        let lines = offer_lines(i, o);
        assert(one_line(o.advertisement));
        lemma_offers_read(offers, m, lines + b);
        lemma_regrouped_three(all_offer_lines(offers, m), lines, b);
        lemma_offer_lines_read(i, o, b);
        assert(rest + (seq![read_as(i, o)] + offers_from(b, 0)) =~= all + offers_from(b, 0));
    }
}

/// What a customer is told of themselves stands each on its line.
pub open spec fn lines_of(c: CustomerView) -> bool {
    one_line(c.preference) && one_line(c.health)
}

/// The line on the last visit is quiet.
proof fn lemma_quiet_last_visit(visits: Seq<Visit>)
    ensures
        quiet(last_visit_part(visits)),
{
    if visits.len() == 0 {
        lemma_quiet_nothing();
        assert(last_visit_part(visits) =~= Seq::<char>::empty());
    } else {
        let v = visits.last();
        reveal_strlit("- Last visit: restaurant ");
        reveal_strlit(" (spent ");
        reveal_strlit(", satisfaction ");
        reveal_strlit("/5)\n");
        reveal_strlit("/5)");
        let a = "- Last visit: restaurant "@;
        let d = decimal(v.firm as nat);
        let x = fixed(v.spend, 0);
        let y = fixed(v.satisfaction, 1);
        lemma_decimal(v.firm as nat);
        assert(one_line(d)) by {
            assert forall|k: int| 0 <= k < d.len() implies #[trigger] d[k] != '\n' by {
                assert(is_digit(d[k]));
            }
        }
        lemma_fixed_without(v.spend, 0, '\n');
        lemma_fixed_without(v.satisfaction, 1, '\n');
        lemma_one_line(a, d);
        lemma_one_line(a + d, " (spent "@);
        lemma_one_line(a + d + " (spent "@, x);
        lemma_one_line(a + d + " (spent "@ + x, ", satisfaction "@);
        lemma_one_line(a + d + " (spent "@ + x + ", satisfaction "@, y);
        lemma_one_line(a + d + " (spent "@ + x + ", satisfaction "@ + y, "/5)"@);
        let l = a + d + " (spent "@ + x + ", satisfaction "@ + y + "/5)"@;
        assert(l[0] == a[0] && l[1] == a[1] && l[2] == a[2]);
        lemma_quiet_line(l);
        assert("/5)\n"@ =~= "/5)"@.push('\n'));
        assert(last_visit_part(visits) =~= l.push('\n'));
    }
}

/// What a customer is told before the day is quiet.
proof fn lemma_quiet_head(group_deliberation: bool)
    ensures
        quiet(
            "You are a customer in a virtual town deciding which restaurant to visit for dinner today. Pick the single restaurant that best fits your taste, budget and the available information.\n\n"@
                + deliberation_part(group_deliberation),
        ),
{
    let a =
        "You are a customer in a virtual town deciding which restaurant to visit for dinner today. Pick the single restaurant that best fits your taste, budget and the available information.\n\n"@;
    let none = Seq::<char>::empty();
    assert(one_line(none) && plain_start(none));
    lemma_quiet_line(none);
    assert(quiet(a)) by {
        reveal_strlit(
            "You are a customer in a virtual town deciding which restaurant to visit for dinner today. Pick the single restaurant that best fits your taste, budget and the available information.\n\n",
        );
        let l = a.take(a.len() - 2);
        assert(one_line(l));
        lemma_quiet_line(l);
        lemma_quiet_joined(l.push('\n'), none.push('\n'));
        assert(a =~= l.push('\n') + none.push('\n'));
    }
    let b = deliberation_part(group_deliberation);
    assert(quiet(b)) by {
        if group_deliberation {
            let x = "Your "@;
            let y = "group deliberates together"@;
            let z = ": put your own budget and taste before what is popular with others.\n\n"@;
            reveal_strlit("Your ");
            reveal_strlit("group deliberates together");
            reveal_strlit(": put your own budget and taste before what is popular with others.\n\n");
            let e = z.take(z.len() - 2);
            lemma_one_line(x, y);
            assert(one_line(e));
            lemma_one_line(x + y, e);
            let l = x + y + e;
            assert(l[0] == x[0]);
            lemma_quiet_line(l);
            lemma_quiet_joined(l.push('\n'), none.push('\n'));
            assert(b =~= l.push('\n') + none.push('\n'));
        } else {
            lemma_quiet_nothing();
            assert(b =~= none);
        }
    }
    lemma_quiet_joined(a, b);
}

/// What a customer is told of the day and of themselves is quiet.
proof fn lemma_quiet_customer(customer: CustomerView, day: u64, group_deliberation: bool)
    requires
        lines_of(customer),
    ensures
        quiet(customer_part(customer, day, group_deliberation)),
{
    reveal_strlit("## Day ");
    reveal_strlit("\n## You\n- Daily budget: ");
    reveal_strlit("## You");
    reveal_strlit("- Daily budget: ");
    reveal_strlit("\n- Preference: ");
    reveal_strlit("- Preference: ");
    reveal_strlit("\n- Health / diet: ");
    reveal_strlit("- Health / diet: ");
    reveal_strlit("\n");
    let head =
        "You are a customer in a virtual town deciding which restaurant to visit for dinner today. Pick the single restaurant that best fits your taste, budget and the available information.\n\n"@
        + deliberation_part(group_deliberation);
    let d = decimal(day as nat);
    let x = fixed(customer.income, 0);
    let l1 = "## Day "@ + d;
    let l2 = "## You"@;
    let l3 = "- Daily budget: "@ + x;
    let l4 = "- Preference: "@ + customer.preference;
    let l5 = "- Health / diet: "@ + customer.health;
    let last = last_visit_part(customer.visit_memory);
    lemma_quiet_head(group_deliberation);
    lemma_decimal(day as nat);
    assert(one_line(d)) by {
        assert forall|k: int| 0 <= k < d.len() implies #[trigger] d[k] != '\n' by {
            assert(is_digit(d[k]));
        }
    }
    lemma_fixed_without(customer.income, 0, '\n');
    lemma_one_line("## Day "@, d);
    lemma_one_line("- Daily budget: "@, x);
    lemma_one_line("- Preference: "@, customer.preference);
    lemma_one_line("- Health / diet: "@, customer.health);
    assert(l1[0] == '#' && l2[0] == '#');
    assert(l3[0] == '-' && l3[1] == ' ' && l3[2] == 'D');
    assert(l4[0] == '-' && l4[1] == ' ' && l4[2] == 'P');
    assert(l5[0] == '-' && l5[1] == ' ' && l5[2] == 'H');
    lemma_quiet_line(l1);
    lemma_quiet_line(l2);
    lemma_quiet_line(l3);
    lemma_quiet_line(l4);
    lemma_quiet_line(l5);
    lemma_quiet_last_visit(customer.visit_memory);
    let s1 = head + l1.push('\n');
    let s2 = s1 + l2.push('\n');
    let s3 = s2 + l3.push('\n');
    let s4 = s3 + l4.push('\n');
    let s5 = s4 + l5.push('\n');
    lemma_quiet_joined(head, l1.push('\n'));
    lemma_quiet_joined(s1, l2.push('\n'));
    lemma_quiet_joined(s2, l3.push('\n'));
    lemma_quiet_joined(s3, l4.push('\n'));
    lemma_quiet_joined(s4, l5.push('\n'));
    lemma_quiet_joined(s5, last);
    assert("\n## You\n- Daily budget: "@ =~= seq!['\n'] + l2 + seq!['\n'] + "- Daily budget: "@);
    assert("\n- Preference: "@ =~= seq!['\n'] + "- Preference: "@);
    assert("\n- Health / diet: "@ =~= seq!['\n'] + "- Health / diet: "@);
    let t1 = head + "## Day "@ + d + "\n## You\n- Daily budget: "@ + x;
    assert(t1.push('\n') =~= s3);
    let t2 = t1 + "\n- Preference: "@ + customer.preference;
    assert(t2.push('\n') =~= s4);
    let t3 = t2 + "\n- Health / diet: "@ + customer.health + "\n"@;
    assert(t3 =~= s5);
}

/// What a question ends with, the last offer being number `n`.
spec fn end_of_question(n: nat) -> Seq<char> {
    "\n## Decision\nReply with the "@ + CHOICE_MARK@ + " of the restaurant you will visit (0 to "@
        + decimal(n) + ").\nAnswer with JSON only, e.g. {\"choice\": 0}\n"@
}

/// A question is what is told of the customer, a title, the offers and the end.
proof fn lemma_question_split(
    customer: CustomerView,
    day: u64,
    offers: Seq<OfferView>,
    group_deliberation: bool,
)
    ensures
        choice_prompt(customer, day, offers, group_deliberation) == (customer_part(
            customer,
            day,
            group_deliberation,
        ) + "\n## Restaurants\n"@) + (all_offer_lines(offers, offers.len()) + end_of_question(
            if offers.len() == 0 {
                0
            } else {
                (offers.len() - 1) as nat
            },
        )),
{
    let a = customer_part(customer, day, group_deliberation);
    let b = "\n## Restaurants\n"@;
    let c = all_offer_lines(offers, offers.len());
    let end = end_of_question(
        if offers.len() == 0 {
            0
        } else {
            (offers.len() - 1) as nat
        },
    );
    assert(choice_prompt(customer, day, offers, group_deliberation) =~= (a + b) + (c + end));
}

/// The title of the offers is quiet.
proof fn lemma_quiet_title()
    ensures
        quiet("\n## Restaurants\n"@),
{
    let b = "\n## Restaurants\n"@;
    let none = Seq::<char>::empty();
    reveal_strlit("\n## Restaurants\n");
    reveal_strlit("## Restaurants");
    lemma_quiet_line(none);
    lemma_quiet_line("## Restaurants"@);
    lemma_quiet_joined(none.push('\n'), "## Restaurants"@.push('\n'));
    assert(b =~= none.push('\n') + "## Restaurants"@.push('\n'));
}

/// What a question ends with tells of no offer.
proof fn lemma_end_of_question(n: nat)
    ensures
        offers_from(end_of_question(n), 0) == Seq::<Offered>::empty(),
{
    reveal_strlit("\n## Decision\nReply with the ");
    reveal_strlit("option index");
    reveal_strlit(" of the restaurant you will visit (0 to ");
    reveal_strlit(").\nAnswer with JSON only, e.g. {\"choice\": 0}\n");
    reveal_strlit("## Decision");
    reveal_strlit("Reply with the ");
    reveal_strlit(").");
    reveal_strlit("Answer with JSON only, e.g. {\"choice\": 0}");
    let d = decimal(n);
    let none = Seq::<char>::empty();
    let l2 = "## Decision"@;
    let a = "Reply with the "@;
    let b = " of the restaurant you will visit (0 to "@;
    let l3 = a + CHOICE_MARK@ + b + d + ")."@;
    let l4 = "Answer with JSON only, e.g. {\"choice\": 0}"@;
    lemma_decimal(n);
    assert(one_line(d)) by {
        assert forall|k: int| 0 <= k < d.len() implies #[trigger] d[k] != '\n' by {
            assert(is_digit(d[k]));
        }
    }
    lemma_one_line(a, CHOICE_MARK@);
    lemma_one_line(a + CHOICE_MARK@, b);
    lemma_one_line(a + CHOICE_MARK@ + b, d);
    lemma_one_line(a + CHOICE_MARK@ + b + d, ")."@);
    assert(l3[0] == a[0]);
    lemma_quiet_line(none);
    lemma_quiet_line(l2);
    lemma_quiet_line(l3);
    lemma_quiet_line(l4);
    let s1 = none.push('\n') + l2.push('\n');
    let s2 = s1 + l3.push('\n');
    let s3 = s2 + l4.push('\n');
    lemma_quiet_joined(none.push('\n'), l2.push('\n'));
    lemma_quiet_joined(s1, l3.push('\n'));
    lemma_quiet_joined(s2, l4.push('\n'));
    let end = end_of_question(n);
    assert("\n## Decision\nReply with the "@ =~= s1 + a);
    assert(").\nAnswer with JSON only, e.g. {\"choice\": 0}\n"@ =~= ")."@.push('\n') + l4.push(
        '\n',
    ));
    assert(end =~= s3 + none);
    assert(offers_from(s3 + none, 0) == offers_from(none, 0));
}

/// A customer reads the offers of a question as they were put into it, one line for each.
pub proof fn customers_read_their_offers(
    customer: CustomerView,
    day: u64,
    offers: Seq<OfferView>,
    group_deliberation: bool,
)
    requires
        lines_of(customer),
        lines_apart(offers),
        offers.len() <= usize::MAX,
    ensures
        offers_from(choice_prompt(customer, day, offers, group_deliberation), 0) == Seq::new(
            offers.len(),
            |i: int| read_as(i, offers[i]),
        ),
{
    let a = customer_part(customer, day, group_deliberation);
    let b = "\n## Restaurants\n"@;
    let c = all_offer_lines(offers, offers.len());
    let last = if offers.len() == 0 {
        0
    } else {
        (offers.len() - 1) as nat
    };
    let end = end_of_question(last);
    let all = Seq::new(offers.len(), |i: int| read_as(i, offers[i]));
    lemma_question_split(customer, day, offers, group_deliberation);
    lemma_offers_read(offers, offers.len(), end);
    lemma_end_of_question(last);
    assert(offers_from((a + b) + (c + end), 0) == offers_from(c + end, 0)) by {
        lemma_quiet_customer(customer, day, group_deliberation);
        lemma_quiet_title();
        lemma_quiet_joined(a, b);
    }
    assert(all + Seq::<Offered>::empty() =~= all);
}

/// What a customer is told before their preference.
spec fn before_preference(income: Real, day: u64, group_deliberation: bool) -> Seq<char> {
    before_budget(day, group_deliberation) + "\n## You\n- "@ + "Daily budget: "@ + fixed(income, 0)
        + "\n- "@
}

/// What comes before the preference is not taken for its marker.
proof fn lemma_before_preference_clear(income: Real, day: u64, group_deliberation: bool)
    ensures
        clear_of(before_preference(income, day, group_deliberation), 'P', 'r', 1),
{
    let a =
        "You are a customer in a virtual town deciding which restaurant to visit for dinner today. Pick the single restaurant that best fits your taste, budget and the available information.\n\n"@;
    let b = deliberation_part(group_deliberation);
    let c = "## Day "@;
    let d = decimal(day as nat);
    assert(clear_of(a, 'P', 'r', 1)) by {
        reveal_strlit(
            "You are a customer in a virtual town deciding which restaurant to visit for dinner today. Pick the single restaurant that best fits your taste, budget and the available information.\n\n",
        );
    }
    assert(clear_of(b, 'P', 'r', 1)) by {
        let x = "Your "@;
        let y = "group deliberates together"@;
        let z = ": put your own budget and taste before what is popular with others.\n\n"@;
        reveal_strlit("Your ");
        reveal_strlit("group deliberates together");
        reveal_strlit(": put your own budget and taste before what is popular with others.\n\n");
        lemma_clear(x, y, 'P', 'r', 1);
        lemma_clear(x + y, z, 'P', 'r', 1);
    }
    reveal_strlit("## Day ");
    reveal_strlit("\n## You\n- ");
    reveal_strlit("Daily budget: ");
    reveal_strlit("\n- ");
    lemma_decimal(day as nat);
    assert(clear_of(d, 'P', 'r', 1)) by {
        assert forall|k: int| 0 <= k < d.len() implies #[trigger] d[k] != 'P' by {
            assert(is_digit(d[k]));
        }
    }
    let x = fixed(income, 0);
    lemma_fixed_without(income, 0, 'P');
    lemma_without_is_clear(x, 'P', 'r', 1);
    lemma_clear(a, b, 'P', 'r', 1);
    lemma_clear(a + b, c, 'P', 'r', 1);
    lemma_clear(a + b + c, d, 'P', 'r', 1);
    let e = before_budget(day, group_deliberation);
    assert(e == a + b + c + d);
    lemma_clear(e, "\n## You\n- "@, 'P', 'r', 1);
    lemma_clear(e + "\n## You\n- "@, "Daily budget: "@, 'P', 'r', 1);
    lemma_clear(e + "\n## You\n- "@ + "Daily budget: "@, x, 'P', 'r', 1);
    lemma_clear(e + "\n## You\n- "@ + "Daily budget: "@ + x, "\n- "@, 'P', 'r', 1);
}

/// A question is what comes before the preference, its marker, the preference, and more that
/// starts on the next line.
spec fn behind_preference(
    customer: CustomerView,
    offers: Seq<OfferView>,
) -> Seq<char> {
    "\n- Health / diet: "@ + customer.health + "\n"@ + last_visit_part(customer.visit_memory)
        + "\n## Restaurants\n"@ + all_offer_lines(offers, offers.len())
        + "\n## Decision\nReply with the "@ + CHOICE_MARK@
        + " of the restaurant you will visit (0 to "@ + decimal(
        if offers.len() == 0 {
            0
        } else {
            (offers.len() - 1) as nat
        },
    ) + ").\nAnswer with JSON only, e.g. {\"choice\": 0}\n"@
}

proof fn lemma_question_parts(
    customer: CustomerView,
    day: u64,
    offers: Seq<OfferView>,
    group_deliberation: bool,
)
    ensures
        choice_prompt(customer, day, offers, group_deliberation) == before_preference(
            customer.income,
            day,
            group_deliberation,
        ) + "Preference: "@ + customer.preference + behind_preference(customer, offers),
        behind_preference(customer, offers).len() > 0,
        behind_preference(customer, offers)[0] == '\n',
{
    reveal_strlit("\n## You\n- Daily budget: ");
    reveal_strlit("\n## You\n- ");
    reveal_strlit("Daily budget: ");
    reveal_strlit("\n- Preference: ");
    reveal_strlit("\n- ");
    reveal_strlit("Preference: ");
    reveal_strlit("\n- Health / diet: ");
    assert("\n## You\n- Daily budget: "@ =~= "\n## You\n- "@ + "Daily budget: "@);
    assert("\n- Preference: "@ =~= "\n- "@ + "Preference: "@);
    let head = before_budget(day, group_deliberation);
    let x = fixed(customer.income, 0);
    let p = before_preference(customer.income, day, group_deliberation) + "Preference: "@;
    assert(head + "\n## You\n- Daily budget: "@ + x + "\n- Preference: "@ =~= p);
    let tail = behind_preference(customer, offers);
    let health = "\n- Health / diet: "@;
    assert(tail[0] == health[0]);
    assert(choice_prompt(customer, day, offers, group_deliberation) =~= p + customer.preference
        + tail);
}

/// A customer reads their preference as it was told, if it stands on one line.
pub proof fn customers_read_their_preference(
    customer: CustomerView,
    day: u64,
    offers: Seq<OfferView>,
    group_deliberation: bool,
)
    requires
        one_line(customer.preference),
        customer.preference.len() > 0 ==> customer.preference.last() != '\r',
    ensures
        preference(choice_prompt(customer, day, offers, group_deliberation))
            == customer.preference,
{
    let head = before_preference(customer.income, day, group_deliberation);
    let marker = "Preference: "@;
    let l = customer.preference;
    let tail = behind_preference(customer, offers);
    let a = head + marker;
    let s = choice_prompt(customer, day, offers, group_deliberation);
    reveal_strlit("Preference: ");
    lemma_question_parts(customer, day, offers, group_deliberation);
    lemma_before_preference_clear(customer.income, day, group_deliberation);
    assert(s =~= head + marker + (l + tail));
    lemma_find_behind(head, marker, l + tail, 1, 0);
    let rest = tail.skip(1);
    let t = l.push('\n') + rest;
    assert(s =~= a + t);
    lemma_line_end_at(l, rest, 0);
    lemma_line_end_behind(a, t, 0);
    let b = a.len() as int;
    if l.len() > 0 {
        assert(s[b + l.len() - 1] == l[l.len() - 1]);
    }
    assert(line_at(s, b) =~= l);
}

/// A customer who likes bargains looks to the price, whatever their budget.
pub proof fn bargain_hunters_look_to_the_price(
    customer: CustomerView,
    day: u64,
    offers: Seq<OfferView>,
    group_deliberation: bool,
)
    requires
        lines_of(customer),
        customer.preference.len() > 0 ==> customer.preference.last() != '\r',
        find(customer.preference, BARGAIN_MARK@) is Some,
        lines_apart(offers),
        0 < offers.len() <= usize::MAX,
    ensures
        ({
            let s = choice_prompt(customer, day, offers, group_deliberation);
            let told = Seq::new(offers.len(), |i: int| read_as(i, offers[i]));
            looks_to_price(s) && choice(s) == cheapest_choice(told, s)
        }),
{
    customers_read_their_preference(customer, day, offers, group_deliberation);
    customers_read_their_offers(customer, day, offers, group_deliberation);
}

/// What is read of the budget of a customer.
pub proof fn lemma_budget_read(
    customer: CustomerView,
    day: u64,
    offers: Seq<OfferView>,
    group_deliberation: bool,
)
    ensures
        ({
            let s = choice_prompt(customer, day, offers, group_deliberation);
            let word = fixed(customer.income, 0);
            &&& field(s, "Daily budget: "@) == told(word)
            &&& digits_after(s, "Daily budget: "@) == Some(word.take(digit_run(word, 0)))
        }),
{
    reveal_strlit("Daily budget: ");
    reveal_strlit("\n## You\n- ");
    reveal_strlit("\n- ");
    let head = before_budget(day, group_deliberation);
    let lead = head + "\n## You\n- "@;
    let marker = "Daily budget: "@;
    let word = fixed(customer.income, 0);
    let tail = "\n- "@ + "Preference: "@ + customer.preference + behind_preference(
        customer,
        offers,
    );
    lemma_question_parts(customer, day, offers, group_deliberation);
    lemma_before_budget_clear(day, group_deliberation);
    lemma_clear(head, "\n## You\n- "@, 'D', 'i', 2);
    lemma_regrouped(
        lead + marker + word,
        "\n- "@,
        "Preference: "@,
        customer.preference,
        behind_preference(customer, offers),
    );
    lemma_read_word(lead, marker, word, tail, 2);
}

/// Texts put together may be put together from the other end.
proof fn lemma_regrouped(p: Seq<char>, q: Seq<char>, r: Seq<char>, s: Seq<char>, t: Seq<char>)
    ensures
        p + q + r + s + t == p + (q + r + s + t),
        q.len() > 0 ==> (q + r + s + t).len() > 0 && (q + r + s + t)[0] == q[0],
{
    assert(p + q + r + s + t =~= p + (q + r + s + t));
}

} // verus!
