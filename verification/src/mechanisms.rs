//! What happens in the town in the course of a day.
use crate::binary64::{real_of, spec_real, Real};
use crate::config::LlmSettings;
use crate::prompts::{
    answer_fields, firm_strategy_prompt, parse_firm_strategy, strategy_of, strategy_prompt,
    BriefingView, FirmBriefing, FirmOffer, FirmStrategy, OfferView, RivalInfo, StrategyView,
};
use crate::world::{
    alive_ids, comments_view, find_agent, firms_view, ids_of, lemma_place_of, menu_prices,
    menu_scores, place_of, real_mean, texts_view, AgentId, Comment, CommentView, DishView, Firm,
    FirmView, Market, MarketView, MarketWorld, WorldView,
};
use vstd::prelude::*;
use vstd::string::*;

pub use crate::choice::CustomerChoiceMechanism;
pub use crate::patronage::PatronageMechanism;
pub use crate::reflection::ReflectionMechanism;
pub use crate::reward::RevenueRewardMechanism;

verus! {

/// The start of a day: what the day before brought is put aside, and the market opens empty.
pub struct MarketResetMechanism;

/// The town at the start of a day.
pub open spec fn opened(w: WorldView) -> WorldView {
    WorldView { day: w.current_day(), market: MarketView::nothing(), ..w }
}

impl MarketResetMechanism {
    /// Starts the day; gives what the day before brought.
    pub fn apply(&self, world: &mut MarketWorld) -> (yesterday: Market)
        ensures
            yesterday@ == old(world)@.market,
            final(world)@ == opened(old(world)@),
    {
        world.day = world.current_day();
        let mut yesterday = Market::default();
        std::mem::swap(&mut yesterday, &mut world.market);
        yesterday
    }
}

/// The managers' decisions: each restaurant in business revises its prices, the salary of its
/// chef and its advertisement.
pub struct CompetitionMatthewMechanism {
    /// What the managers' questions are asked with.
    pub settings: LlmSettings,
}

/// What a restaurant in business shows to its rivals.
pub open spec fn rival_info(id: AgentId, f: FirmView, yesterday: MarketView) -> RivalInfo {
    RivalInfo {
        day_customers: yesterday.customers_of(id.0),
        day_revenue: yesterday.revenue_of(id.0),
        avg_price: real_mean(menu_prices(f.menu)),
        avg_score: real_mean(menu_scores(f.menu)),
    }
}

/// What the restaurants in business show to a rival.
pub open spec fn rivals_of(
    firms: Seq<(AgentId, FirmView)>,
    yesterday: MarketView,
    id: AgentId,
) -> Seq<RivalInfo>
    decreases firms.len(),
{
    if firms.len() == 0 {
        seq![]
    } else {
        let before = rivals_of(firms.drop_last(), yesterday, id);
        let (other, f) = firms.last();
        if f.alive && other != id {
            before.push(rival_info(other, f, yesterday))
        } else {
            before
        }
    }
}

/// What a manager is told of the day before.
pub open spec fn briefing_of(w: WorldView, yesterday: MarketView, id: AgentId) -> BriefingView {
    BriefingView {
        own_customers: yesterday.customers_of(id.0),
        own_revenue: yesterday.revenue_of(id.0),
        rivals: rivals_of(w.firms, yesterday, id),
    }
}

/// A dish after a decision.
pub open spec fn revised_dish(d: DishView, s: StrategyView) -> DishView {
    DishView {
        price: d.price.times(s.price_factor).larger(spec_real(1)),
        chef_salary: s.chef_salary,
        ..d
    }
}

/// A restaurant after a decision.
pub open spec fn revised(f: FirmView, s: StrategyView) -> FirmView {
    FirmView {
        menu: f.menu.map_values(|d: DishView| revised_dish(d, s)),
        chef_salary: s.chef_salary,
        advertisement: if s.advertisement.len() == 0 {
            f.advertisement
        } else {
            s.advertisement
        },
        ..f
    }
}

/// The town after a manager's answer.
pub open spec fn after_answer(w: WorldView, id: AgentId, text: Seq<char>) -> WorldView {
    match place_of(ids_of(w.firms), id) {
        Some(i) => WorldView {
            firms: w.firms.update(
                i,
                (id, revised(w.firms[i].1, strategy_of(answer_fields(text), w.firms[i].1.chef_salary))),
            ),
            ..w
        },
        None => w,
    }
}

/// What is said to a manager, or by one.
pub type Answer = (AgentId, Seq<char>);

/// The town after managers' answers, in order.
pub open spec fn after_answers(w: WorldView, answers: Seq<Answer>) -> WorldView
    decreases answers.len(),
{
    if answers.len() == 0 {
        w
    } else {
        after_answer(
            after_answers(w, answers.drop_last()),
            answers.last().0,
            answers.last().1,
        )
    }
}

pub open spec fn answers_view(answers: Seq<(AgentId, String)>) -> Seq<Answer> {
    answers.map_values(|e: (AgentId, String)| (e.0, e.1@))
}

/// What a manager is asked in a town.
pub open spec fn question_of(w: WorldView, yesterday: MarketView, id: AgentId) -> Seq<char> {
    strategy_prompt(
        w.firms[place_of(ids_of(w.firms), id)->0].1,
        w.day,
        briefing_of(w, yesterday, id),
    )
}

/// What the managers of the restaurants in business are asked, in order.
pub open spec fn questions_of(w: WorldView, yesterday: MarketView) -> Seq<Answer> {
    alive_ids(w.firms).map_values(|id: AgentId| (id, question_of(w, yesterday, id)))
}

/// What the managers of those of the first `n` restaurants are asked that are in business.
spec fn questions_among(w: WorldView, yesterday: MarketView, n: int) -> Seq<Answer> {
    alive_ids(w.firms.take(n)).map_values(|id: AgentId| (id, question_of(w, yesterday, id)))
}

/// An identity that stands somewhere is found.
proof fn lemma_place_found(ids: Seq<AgentId>, i: int)
    requires
        0 <= i < ids.len(),
    ensures
        place_of(ids, ids[i]) is Some,
    decreases ids.len(),
{
    if i < ids.len() - 1 {
        assert(ids.drop_last()[i] == ids[i]);
        lemma_place_found(ids.drop_last(), i);
    }
}

/// Every restaurant in business has its manager asked.
pub proof fn lemma_alive_asked(firms: Seq<(AgentId, FirmView)>, i: int)
    requires
        0 <= i < firms.len(),
        firms[i].1.alive,
    ensures
        alive_ids(firms).contains(firms[i].0),
    decreases firms.len(),
{
    let rest = alive_ids(firms.drop_last());
    let all = alive_ids(firms);
    if i < firms.len() - 1 {
        lemma_alive_asked(firms.drop_last(), i);
        let k = choose|k: int| 0 <= k < rest.len() && rest[k] == firms[i].0;
        assert(all[k] == firms[i].0);
    } else {
        assert(all[rest.len() as int] == firms[i].0);
    }
}

/// A manager is asked about the town as the night left it: of the restaurant and of its rivals
/// the question tells what they were before anyone answered on the day.
pub proof fn managers_are_asked_about_the_morning(w: WorldView, i: int)
    requires
        w.wf(),
        0 <= i < w.firms.len(),
        w.firms[i].1.alive,
    ensures
        questions_of(opened(w), w.market).contains(
            (
                w.firms[i].0,
                strategy_prompt(
                    w.firms[i].1,
                    w.current_day(),
                    briefing_of(w, w.market, w.firms[i].0),
                ),
            ),
        ),
{
    let ids = alive_ids(w.firms);
    let asked = questions_of(opened(w), w.market);
    lemma_alive_asked(w.firms, i);
    lemma_place_of(ids_of(w.firms), w.firms[i].0);
    assert(ids_of(w.firms)[i] == w.firms[i].0);
    let k = choose|k: int| 0 <= k < ids.len() && ids[k] == w.firms[i].0;
    assert(asked[k].0 == w.firms[i].0);
    assert(asked.contains(asked[k]));
}

/// Carries out a manager's decision.
pub fn apply_strategy(firm: &mut Firm, strategy: &FirmStrategy)
    ensures
        final(firm)@ == revised(old(firm)@, strategy@),
{
    let ghost before = firm@;
    let n: usize = firm.menu.len();
    let mut i: usize = 0;
    while i < n
        invariant
            i <= n == firm.menu@.len(),
            before.menu.len() == n,
            firm@ == (FirmView { menu: firm@.menu, ..before }),
            forall|k: int|
                0 <= k < i ==> #[trigger] firm@.menu[k] == revised_dish(
                    before.menu[k],
                    strategy@,
                ),
            forall|k: int| i <= k < n ==> #[trigger] firm@.menu[k] == before.menu[k],
        decreases n - i,
    {
        proof {
            assert(firm@.menu[i as int] == before.menu[i as int]);
        }
        let ghost menu = firm.menu@;
        let ghost views = firm@.menu;
        let price = firm.menu[i].price;
        let dish = &mut firm.menu[i];
        dish.price = price.times(strategy.price_factor).larger(real_of(1));
        dish.chef_salary = strategy.chef_salary;
        proof {
            assert forall|k: int| 0 <= k < n && k != i implies #[trigger] firm@.menu[k] == views[k] by {
                assert(firm.menu@[k] == menu[k]);
            }
            assert(firm@.menu[i as int] == revised_dish(before.menu[i as int], strategy@));
        }
        i = i + 1;
    }
    firm.chef_salary = strategy.chef_salary;
    if strategy.advertisement.as_str().unicode_len() > 0 {
        firm.advertisement = strategy.advertisement.clone();
    }
    proof {
        assert(firm@.menu =~= revised(before, strategy@).menu);
    }
}

impl CompetitionMatthewMechanism {
    pub fn new(settings: LlmSettings) -> (r: Self)
        ensures
            r.settings == settings,
    {
        CompetitionMatthewMechanism { settings }
    }

    /// What a manager is told of the day before.
    pub fn briefing(&self, world: &MarketWorld, yesterday: &Market, id: AgentId) -> (r:
        FirmBriefing)
        ensures
            r@ == briefing_of(world@, yesterday@, id),
    {
        let ghost firms = world@.firms;
        let mut rivals: Vec<RivalInfo> = Vec::new();
        let mut i: usize = 0;
        while i < world.firms.len()
            invariant
                i <= world.firms@.len(),
                firms == firms_view(world.firms@),
                rivals@ == rivals_of(firms.take(i as int), yesterday@, id),
            decreases world.firms@.len() - i,
        {
            proof {
                assert(firms.take(i + 1).drop_last() =~= firms.take(i as int));
                assert(firms.take(i + 1).last() == firms[i as int]);
            }
            let other = world.firms[i].0;
            let f = &world.firms[i].1;
            if f.alive && other != id {
                rivals.push(
                    RivalInfo {
                        day_customers: yesterday.customers_of(other.0),
                        day_revenue: yesterday.revenue_of(other.0),
                        avg_price: f.avg_price(),
                        avg_score: f.avg_dish_score(),
                    },
                );
            }
            i = i + 1;
        }
        proof {
            assert(firms.take(firms.len() as int) =~= firms);
        }
        FirmBriefing {
            own_customers: yesterday.customers_of(id.0),
            own_revenue: yesterday.revenue_of(id.0),
            rivals,
        }
    }

    /// What a manager is asked; `None` if there is no such restaurant.
    pub fn question(&self, world: &MarketWorld, yesterday: &Market, id: AgentId) -> (r: Option<
        String,
    >)
        ensures
            match place_of(ids_of(world@.firms), id) {
                Some(i) => r matches Some(s) && s@ == strategy_prompt(
                    world@.firms[i].1,
                    world@.day,
                    briefing_of(world@, yesterday@, id),
                ),
                None => r is None,
            },
    {
        proof {
            assert(ids_of(world@.firms) =~= ids_of(world.firms@));
        }
        match find_agent(&world.firms, id) {
            Some(i) => {
                let brief = self.briefing(world, yesterday, id);
                Some(firm_strategy_prompt(&world.firms[i].1, world.day, &brief))
            },
            None => None,
        }
    }

    /// What the managers of the restaurants in business are asked, in order. All are asked
    /// about the same town, so none is told what another one answers on the day.
    pub fn questions(&self, world: &MarketWorld, yesterday: &Market) -> (r: Vec<
        (AgentId, String),
    >)
        ensures
            answers_view(r@) == questions_of(world@, yesterday@),
    {
        let ghost firms = world@.firms;
        let mut r: Vec<(AgentId, String)> = Vec::new();
        let mut i: usize = 0;
        proof {
            assert(answers_view(r@) =~= questions_among(world@, yesterday@, 0));
        }
        while i < world.firms.len()
            invariant
                i <= world.firms@.len(),
                firms == world@.firms,
                firms == firms_view(world.firms@),
                answers_view(r@) == questions_among(world@, yesterday@, i as int),
            decreases world.firms@.len() - i,
        {
            proof {
                assert(firms.take(i + 1).drop_last() =~= firms.take(i as int));
                assert(firms.take(i + 1).last() == firms[i as int]);
                assert(ids_of(firms)[i as int] == firms[i as int].0);
                lemma_place_found(ids_of(firms), i as int);
            }
            if world.firms[i].1.alive {
                let id = world.firms[i].0;
                let ghost before = r@;
                if let Some(s) = self.question(world, yesterday, id) {
                    r.push((id, s));
                    proof {
                        assert(answers_view(r@) =~= answers_view(before).push((id, s@)));
                    }
                }
            }
            proof {
                assert(answers_view(r@) =~= questions_among(world@, yesterday@, i + 1));
            }
            i = i + 1;
        }
        proof {
            assert(firms.take(firms.len() as int) =~= firms);
        }
        r
    }

    /// Carries out what the managers answered, in order.
    pub fn all_answered(&self, world: &mut MarketWorld, answers: &Vec<(AgentId, String)>)
        ensures
            final(world)@ == after_answers(old(world)@, answers_view(answers@)),
    {
        let ghost start = world@;
        let ghost all = answers_view(answers@);
        let mut i: usize = 0;
        while i < answers.len()
            invariant
                i <= answers@.len(),
                all == answers_view(answers@),
                world@ == after_answers(start, all.take(i as int)),
            decreases answers@.len() - i,
        {
            proof {
                assert(all.take(i + 1).drop_last() =~= all.take(i as int));
                assert(all.take(i + 1).last() == all[i as int]);
            }
            self.answered(world, answers[i].0, answers[i].1.as_str());
            i = i + 1;
        }
        proof {
            assert(all.take(all.len() as int) =~= all);
        }
    }

    /// Carries out what a manager answered.
    pub fn answered(&self, world: &mut MarketWorld, id: AgentId, text: &str)
        ensures
            final(world)@ == after_answer(old(world)@, id, text@),
    {
        let ghost before = world@;
        let ghost firms = world.firms@;
        proof {
            assert(ids_of(world@.firms) =~= ids_of(world.firms@));
        }
        if let Some(i) = find_agent(&world.firms, id) {
            let strategy = parse_firm_strategy(text, world.firms[i].1.chef_salary);
            apply_strategy(&mut world.firms[i].1, &strategy);
            proof {
                assert(world@.firms =~= after_answer(before, id, text@).firms);
            }
        }
    }

    /// What the restaurants in business show to customers.
    pub fn offers(&self, world: &MarketWorld) -> (r: Vec<FirmOfferSnapshot>)
        ensures
            snapshots_view(r@) == offers_of(world@.firms),
    {
        let ghost firms = world@.firms;
        let mut r: Vec<FirmOfferSnapshot> = Vec::new();
        let mut i: usize = 0;
        proof {
            assert(snapshots_view(r@) =~= offers_of(firms.take(0)));
        }
        while i < world.firms.len()
            invariant
                i <= world.firms@.len(),
                firms == firms_view(world.firms@),
                snapshots_view(r@) == offers_of(firms.take(i as int)),
            decreases world.firms@.len() - i,
        {
            proof {
                assert(firms.take(i + 1).drop_last() =~= firms.take(i as int));
                assert(firms.take(i + 1).last() == firms[i as int]);
            }
            let f = &world.firms[i].1;
            if f.alive {
                let ghost shown = r@;
                r.push(
                    FirmOfferSnapshot {
                        firm: world.firms[i].0.0,
                        avg_price: f.avg_price(),
                        avg_score: f.avg_dish_score(),
                        reputation: f.reputation,
                        advertisement: f.advertisement.clone(),
                        recent_comments: recent_comments(&f.comments),
                    },
                );
                proof {
                    assert(snapshots_view(r@) =~= snapshots_view(shown).push(
                        offer_of(firms[i as int].0, firms[i as int].1),
                    ));
                }
            }
            i = i + 1;
        }
        proof {
            assert(firms.take(firms.len() as int) =~= firms);
        }
        r
    }
}

/// What a restaurant shows to customers on a day.
#[derive(Clone, Debug)]
pub struct FirmOfferSnapshot {
    pub firm: u64,
    pub avg_price: Real,
    pub avg_score: Real,
    pub reputation: Real,
    pub advertisement: String,
    /// The latest comments, the newest first.
    pub recent_comments: Vec<String>,
}

impl View for FirmOfferSnapshot {
    type V = OfferView;

    open spec fn view(&self) -> OfferView {
        OfferView {
            firm: self.firm,
            avg_price: self.avg_price,
            avg_score: self.avg_score,
            reputation: self.reputation,
            advertisement: self.advertisement@,
            recent_comments: texts_view(self.recent_comments@),
        }
    }
}

pub open spec fn snapshots_view(offers: Seq<FirmOfferSnapshot>) -> Seq<OfferView> {
    offers.map_values(|o: FirmOfferSnapshot| o@)
}

impl FirmOfferSnapshot {
    /// The same as an offer to put into a question.
    pub fn as_offer(&self) -> (r: FirmOffer)
        ensures
            r@ == self@,
    {
        let mut recent_comments: Vec<String> = Vec::new();
        let mut i: usize = 0;
        while i < self.recent_comments.len()
            invariant
                i <= self.recent_comments@.len(),
                recent_comments@.len() == i,
                forall|k: int|
                    0 <= k < i ==> #[trigger] recent_comments@[k]@ == self@.recent_comments[k],
            decreases self.recent_comments@.len() - i,
        {
            recent_comments.push(self.recent_comments[i].clone());
            i = i + 1;
        }
        proof {
            assert(texts_view(recent_comments@) =~= self@.recent_comments);
        }
        FirmOffer {
            firm: self.firm,
            avg_price: self.avg_price,
            avg_score: self.avg_score,
            reputation: self.reputation,
            advertisement: self.advertisement.clone(),
            recent_comments,
        }
    }
}

/// The texts of the latest comments, at most three, the newest first.
pub open spec fn recent_texts(comments: Seq<CommentView>) -> Seq<Seq<char>> {
    Seq::new(
        if comments.len() < 3 {
            comments.len()
        } else {
            3
        },
        |k: int| comments[comments.len() - 1 - k].text,
    )
}

/// The texts of the latest comments, at most three, the newest first.
fn recent_comments(comments: &Vec<Comment>) -> (r: Vec<String>)
    ensures
        texts_view(r@) == recent_texts(comments_view(comments@)),
{
    let n: usize = comments.len();
    let mut r: Vec<String> = Vec::new();
    let mut k: usize = 0;
    while k < 3 && k < n
        invariant
            k <= 3,
            k <= n == comments@.len(),
            r@.len() == k,
            forall|j: int|
                0 <= j < k ==> #[trigger] r@[j]@ == comments_view(comments@)[n - 1 - j].text,
        decreases n - k,
    {
        r.push(comments[n - 1 - k].text.clone());
        k = k + 1;
    }
    proof {
        assert(texts_view(r@) =~= recent_texts(comments_view(comments@)));
    }
    r
}

/// What a restaurant shows to customers.
pub open spec fn offer_of(id: AgentId, f: FirmView) -> OfferView {
    OfferView {
        firm: id.0,
        avg_price: real_mean(menu_prices(f.menu)),
        avg_score: real_mean(menu_scores(f.menu)),
        reputation: f.reputation,
        advertisement: f.advertisement,
        recent_comments: recent_texts(f.comments),
    }
}

/// What the restaurants in business show to customers.
pub open spec fn offers_of(firms: Seq<(AgentId, FirmView)>) -> Seq<OfferView>
    decreases firms.len(),
{
    if firms.len() == 0 {
        seq![]
    } else if firms.last().1.alive {
        offers_of(firms.drop_last()).push(offer_of(firms.last().0, firms.last().1))
    } else {
        offers_of(firms.drop_last())
    }
}

} // verus!
