use competeai_simulation::apportionment::apportion_seats;
use competeai_simulation::binary64::Real;
use competeai_simulation::choice::{pick_or_best, settle_group, CustomerChoiceMechanism};
use competeai_simulation::config::{
    parse_customer_mode, Config, CustomerMode, LlmSettings,
};
use competeai_simulation::mechanisms::{
    CompetitionMatthewMechanism, FirmOfferSnapshot, MarketResetMechanism,
};
use competeai_simulation::metrics::{winner_take_all, DailyMetric};
use competeai_simulation::patronage::{comment_text, keep_last, satisfaction, PatronageMechanism};
use competeai_simulation::reflection::ReflectionMechanism;
use competeai_simulation::reproduce_mock::scripted_reply;
use competeai_simulation::reward::RevenueRewardMechanism;
use competeai_simulation::simulation::{
    compute_quality_improved, conclude, firm_outcomes, init_world, max_share_series, CallStats, CustomerDraw,
    FirmDraw, SimulationResult,
};
use competeai_simulation::world::{
    AgentId, Comment, Customer, Dish, Firm, Market, MarketWorld, CUSTOMER_ID_BASE,
};
use rand::rngs::StdRng;
use rand::{Rng, SeedableRng};

fn r(x: f64) -> Real {
    Real { bits: x.to_bits() }
}

fn f(x: Real) -> f64 {
    f64::from_bits(x.bits)
}

fn draw_world(cfg: &Config, rng: &mut StdRng) -> MarketWorld {
    let firms: Vec<FirmDraw> = (0..cfg.n_firms)
        .map(|_| FirmDraw {
            funds: r(rng.gen_range(0.8..=1.2)),
            prices: (0..cfg.init_menu_size)
                .map(|_| r(rng.gen_range(0.9..=1.1)))
                .collect(),
        })
        .collect();
    let customers: Vec<CustomerDraw> = (0..cfg.n_customers)
        .map(|_| CustomerDraw {
            income: r(rng.gen_range(0.6..=1.6)),
            preference: rng.gen_range(0..5),
            health: rng.gen_range(0..4),
        })
        .collect();
    init_world(cfg, &firms, &customers)
}

fn run_with<F: FnMut(&str) -> String>(cfg: &Config, mut reply: F) -> SimulationResult {
    let mut rng = StdRng::seed_from_u64(cfg.seed.unwrap());
    let mut world = draw_world(cfg, &mut rng);
    let strategies = CompetitionMatthewMechanism::new(LlmSettings::default());
    let choices = CustomerChoiceMechanism::new(LlmSettings::default(), cfg.customer_mode);
    let mut rewards = RevenueRewardMechanism::new(Vec::new());
    let reflection = ReflectionMechanism::new(cfg.days as u64);
    let mut shares: Vec<Real> = Vec::new();
    let mut calls = 0usize;
    loop {
        world.t += 1;
        let yesterday = MarketResetMechanism.apply(&mut world);
        let mut answers: Vec<(AgentId, String)> = Vec::new();
        for (id, prompt) in strategies.questions(&world, &yesterday) {
            calls += 1;
            answers.push((id, reply(&prompt)));
        }
        strategies.all_answered(&mut world, &answers);
        let offers = strategies.offers(&world);
        let mut picks: Vec<usize> = Vec::new();
        let mut keys: Vec<Vec<u32>> = Vec::new();
        if !offers.is_empty() {
            for id in choices.asked(&world) {
                let prompt = choices.question(&world, &offers, id).unwrap();
                calls += 1;
                picks.push(choices.pick(&reply(&prompt), &offers));
            }
        }
        for _ in choices.groups(&world) {
            keys.push(offers.iter().map(|_| rng.gen::<u32>()).collect());
        }
        let made = choices.settle(&world, &offers, &picks, &keys);
        PatronageMechanism.apply(&mut world, &made);
        let (_, share) = rewards.apply(&mut world);
        shares.push(share);
        if reflection.apply(&mut world) {
            break;
        }
    }
    let days = world.t as usize;
    let stats = CallStats {
        total: calls,
        cache_hits: 0,
        cache_hit_rate: r(0.0),
    };
    let outcomes = firm_outcomes(&world);
    conclude(
        rewards.metrics,
        &shares,
        days,
        stats,
        "mock-model".into(),
        "mock://scripted".into(),
        outcomes,
    )
}

fn run_scripted(cfg: &Config, choice: usize, price_factor: f64) -> SimulationResult {
    let firm_reply = format!(
        "{{\"price_factor\": {price_factor}, \"chef_salary\": 2000, \"advertisement\": \"\"}}"
    );
    let customer_reply = format!("{{\"choice\": {choice}}}");
    run_with(cfg, |prompt| {
        if prompt.contains("price_factor") {
            firm_reply.clone()
        } else {
            customer_reply.clone()
        }
    })
}

fn run_mock(cfg: &Config) -> SimulationResult {
    run_with(cfg, scripted_reply)
}

fn base_config() -> Config {
    Config {
        n_firms: 2,
        n_customers: 8,
        days: 6,
        seed: Some(7),
        ..Config::default()
    }
}

fn test_config() -> Config {
    Config {
        n_firms: 2,
        n_customers: 6,
        days: 3,
        seed: Some(42),
        ..Config::default()
    }
}

fn repro_config(mode: CustomerMode) -> Config {
    Config {
        n_firms: 2,
        n_customers: 50,
        customer_mode: mode,
        group_size: 4,
        days: 15,
        llm: LlmSettings {
            temperature: r(0.0),
            seed: 0,
            cache_path: None,
        },
        ..Config::default()
    }
}

fn last_day_of(metrics: &[DailyMetric]) -> u64 {
    metrics.iter().map(|m| m.day).max().unwrap()
}

#[test]
fn comment_text_tiers() {
    assert!(comment_text(r(4.5)).contains("recommend"));
    assert!(comment_text(r(3.0)).contains("Decent"));
    assert!(comment_text(r(1.0)).contains("Overpriced"));
    assert_eq!(
        comment_text(r(4.0)),
        "Excellent food and great value — highly recommend!"
    );
    assert_eq!(comment_text(r(2.5)), "Decent meal, fair for the price.");
    assert_eq!(comment_text(r(2.4999)), "Overpriced and underwhelming.");
    assert_eq!(comment_text(r(f64::NAN)), "Overpriced and underwhelming.");
}

#[test]
fn scripted_run_produces_daily_metrics() {
    let result = run_scripted(&test_config(), 0, 1.0);
    assert!(!result.metrics_history.is_empty());
    assert!(result.final_day >= 1);
}

#[test]
fn core_is_deterministic_given_mock() {
    let cfg = test_config();
    let a = run_scripted(&cfg, 0, 1.0);
    let b = run_scripted(&cfg, 0, 1.0);
    let ra: Vec<f64> = a.metrics_history.iter().map(|m| f(m.cumulative_revenue)).collect();
    let rb: Vec<f64> = b.metrics_history.iter().map(|m| f(m.cumulative_revenue)).collect();
    assert_eq!(ra, rb, "同一シードは完全再現すべき");
}

#[test]
fn produces_metrics_with_sane_ranges() {
    let result = run_scripted(&base_config(), 0, 1.0);
    assert!(
        !result.metrics_history.is_empty(),
        "メトリクス行が生成される"
    );
    for m in &result.metrics_history {
        assert!(
            (0.0..=1.0).contains(&f(m.revenue_gini)),
            "Gini は [0,1] (got {})",
            f(m.revenue_gini)
        );
        assert!(
            (0.0..=1.0).contains(&f(m.market_share_max)),
            "最大シェアは [0,1] (got {})",
            f(m.market_share_max)
        );
        assert!(
            (0.0..=1.0).contains(&f(m.menu_similarity)),
            "メニュー類似度は [0,1]"
        );
        assert!(f(m.avg_dish_score) >= 0.0, "スコアは非負");
        assert!(f(m.day_revenue) >= 0.0, "収益は非負");
    }
}

#[test]
fn all_customers_to_one_firm_yields_monopoly() {
    let result = run_scripted(&base_config(), 0, 1.0);
    let last_day = last_day_of(&result.metrics_history);
    let share = f(result
        .metrics_history
        .iter()
        .find(|m| m.day == last_day)
        .unwrap()
        .market_share_max);
    assert!(
        (share - 1.0).abs() < 1e-9,
        "独占なら最大シェア 1 (got {share})"
    );
    let series = max_share_series(&result.metrics_history);
    assert_eq!(series.len(), 6);
    assert!(
        winner_take_all(&series, 0, r(0.8)),
        "全期間独占なら WTA (start=0)"
    );
    assert!(result.winner_take_all, "result.winner_take_all も true");
}

#[test]
fn revenue_accrues_to_chosen_firm() {
    let result = run_scripted(&base_config(), 1, 1.0);
    let last_day = last_day_of(&result.metrics_history);
    let rows: Vec<&DailyMetric> = result
        .metrics_history
        .iter()
        .filter(|m| m.day == last_day)
        .collect();
    let total_rev: f64 = rows.iter().map(|m| f(m.cumulative_revenue)).sum();
    assert!(total_rev > 0.0, "累積収益が発生する");
    assert_eq!(f(rows[0].cumulative_revenue), 0.0);
}

#[test]
fn core_is_deterministic_given_fixed_mock() {
    let cfg = base_config();
    let a = run_scripted(&cfg, 0, 1.0);
    let b = run_scripted(&cfg, 0, 1.0);
    let ra: Vec<f64> = a.metrics_history.iter().map(|m| f(m.cumulative_revenue)).collect();
    let rb: Vec<f64> = b.metrics_history.iter().map(|m| f(m.cumulative_revenue)).collect();
    let sa: Vec<f64> = a.metrics_history.iter().map(|m| f(m.market_share_max)).collect();
    let sb: Vec<f64> = b.metrics_history.iter().map(|m| f(m.market_share_max)).collect();
    assert_eq!(ra, rb, "同一シードは累積収益を完全再現すべき");
    assert_eq!(sa, sb, "同一シードは市場シェアを完全再現すべき");
}

#[test]
fn group_mode_runs_and_matches() {
    let mut cfg = base_config();
    cfg.customer_mode = CustomerMode::Group;
    cfg.group_size = 4;
    let result = run_scripted(&cfg, 0, 1.0);
    assert!(
        !result.metrics_history.is_empty(),
        "グループ客でも行が生成される"
    );
}

fn wta_frequency(mode: CustomerMode, runs: usize, base_seed: u64) -> f64 {
    let mut wta = 0usize;
    for run_idx in 0..runs {
        let mode_offset = if mode == CustomerMode::Group { 1000 } else { 0 };
        let mut seeds = StdRng::seed_from_u64(base_seed.wrapping_add(mode_offset));
        let mut seed: u64 = seeds.gen();
        for _ in 0..run_idx {
            seed = seeds.gen();
        }
        let mut cfg = repro_config(mode);
        cfg.seed = Some(seed);
        if run_mock(&cfg).winner_take_all {
            wta += 1;
        }
    }
    wta as f64 / runs.max(1) as f64
}

#[test]
fn reproduce_mock_group_dampens_winner_take_all() {
    let individual = wta_frequency(CustomerMode::Individual, 9, 42);
    let group = wta_frequency(CustomerMode::Group, 6, 42);
    assert!(
        individual > group,
        "グループ化は勝者総取りを緩和する (individual={individual}, group={group})"
    );
    assert!(
        group <= 0.34,
        "グループ客の勝者総取りは低頻度 (got {group})"
    );
}

#[test]
fn reproduce_mock_quality_improves() {
    let mut cfg = repro_config(CustomerMode::Individual);
    cfg.seed = Some(123);
    let result = run_mock(&cfg);
    assert!(result.quality_improved, "品質改善が観測される");
}

#[test]
fn reproduce_mock_is_bit_deterministic() {
    let mut cfg = repro_config(CustomerMode::Group);
    cfg.seed = Some(2024);
    let a = run_mock(&cfg);
    let b = run_mock(&cfg);
    let rev = |r: &SimulationResult| {
        r.metrics_history
            .iter()
            .map(|m| (m.day, m.firm, f(m.cumulative_revenue), f(m.market_share_max)))
            .collect::<Vec<_>>()
    };
    assert_eq!(
        rev(&a),
        rev(&b),
        "同一 seed の reproduce mock は完全再現すべき"
    );
}

#[test]
fn individual_default_path_is_unchanged() {
    let result = run_scripted(&base_config(), 0, 1.0);
    let last_day = last_day_of(&result.metrics_history);
    let share = f(result
        .metrics_history
        .iter()
        .find(|m| m.day == last_day)
        .unwrap()
        .market_share_max);
    assert!(
        (share - 1.0).abs() < 1e-9,
        "個別客で全員 choice 0 → 独占 (Individual 分岐は不変; got {share})"
    );
}

#[test]
fn stops_at_final_day() {
    let cfg = base_config();
    let result = run_scripted(&cfg, 0, 1.0);
    assert!(
        last_day_of(&result.metrics_history) < cfg.days as u64,
        "日インデックスは days 未満 (0 始まり)"
    );
    assert!(result.final_day <= cfg.days, "完了ステップ数は days 以下");
    assert_eq!(result.final_day, 6);
    assert_eq!(result.metrics_history.len(), 12);
    assert_eq!(result.metadata.total, 6 * (2 + 8));
    assert_eq!(result.firm_outcomes.len(), 2);
    assert!(result.firm_outcomes[0].alive);
}

fn dish(name: &str, cost: f64, price: f64, salary: f64) -> Dish {
    Dish {
        name: name.into(),
        cost: r(cost),
        price: r(price),
        chef_salary: r(salary),
    }
}

fn small_town() -> MarketWorld {
    let a = Firm::new(
        r(1000.0),
        vec![
            dish("x", 40.0, 100.0, 3000.0),
            dish("y", 30.0, 60.0, 3000.0),
            dish("z", 10.0, 60.0, 3000.0),
        ],
        r(3000.0),
    );
    let b = Firm::new(r(50.0), vec![dish("x", 20.0, 80.0, 300.0)], r(300.0));
    let person = |income: f64| Customer::new(r(income), "p".into(), "h".into());
    MarketWorld {
        t: 0,
        firms: vec![(AgentId(0), a), (AgentId(1), b)],
        customers: vec![
            (AgentId(CUSTOMER_ID_BASE), person(1000.0)),
            (AgentId(CUSTOMER_ID_BASE + 1), person(30.0)),
        ],
        market: Market::default(),
        day: 0,
    }
}

#[test]
fn a_day_by_hand() {
    let mut world = small_town();
    world.t = 1;
    let c0 = CUSTOMER_ID_BASE;
    let c1 = CUSTOMER_ID_BASE + 1;
    PatronageMechanism.apply(&mut world, &vec![(c0, 0), (c1, 0), (c1, 1), (99, 1), (c0, 7)]);
    // The cheapest dish of the first restaurant, the first of two.
    assert_eq!(world.market.customers_of(0), 2);
    assert_eq!(f(world.market.revenue_of(0)), 120.0);
    assert_eq!(world.market.customers_of(1), 2);
    assert_eq!(f(world.market.revenue_of(1)), 160.0);
    assert_eq!(world.market.customers_of(7), 0);
    let score = 0.5 * (30.0 / 60.0) + 0.5 * (3000.0 / 5000.0);
    let liked = 5.0 * score * 1.0;
    let visits = &world.customers[0].1.visit_memory;
    assert_eq!(visits.len(), 1);
    assert_eq!(visits[0].firm, 0);
    assert_eq!(f(visits[0].spend), 60.0);
    assert_eq!(f(visits[0].satisfaction), liked);
    let poor: f64 = 5.0 * score * (30.0 / 60.0);
    assert_eq!(f(world.customers[1].1.visit_memory[0].satisfaction), poor);
    assert_eq!(world.customers[1].1.visit_memory.len(), 2);
    assert_eq!(world.firms[0].1.comments.len(), 2);
    assert_eq!(world.firms[0].1.comments[1].customer, c1);
    assert_eq!(world.firms[0].1.comments[1].text, "Overpriced and underwhelming.");
    assert_eq!(f(world.firms[1].1.comments[1].rating), 0.0);

    let mut rewards = RevenueRewardMechanism::new(Vec::new());
    let (gini, share) = rewards.apply(&mut world);
    let mean_cost = (40.0 + 30.0 + 10.0) / 3.0;
    assert_eq!(f(world.firms[0].1.funds), 1000.0 + (120.0 - mean_cost * 2.0 - 3000.0 / 30.0));
    assert_eq!(f(world.firms[1].1.funds), 50.0 + (160.0 - 20.0 * 2.0 - 300.0 / 30.0));
    assert_eq!(world.firms[0].1.cumulative_customers, 2);
    assert_eq!(f(world.firms[1].1.cumulative_revenue), 160.0);
    assert_eq!(
        f(world.firms[0].1.reputation),
        0.7 * 0.0 + 0.3 * ((liked + poor) / 2.0)
    );
    assert_eq!(f(share), 0.5);
    assert_eq!(f(gini), 80.0 / (2.0 * 2.0 * 280.0));
    assert_eq!(rewards.metrics.len(), 2);
    let row = rewards.metrics[1];
    assert_eq!(row.firm, 1);
    assert_eq!(row.firm_alive, 1);
    assert_eq!(row.day_customers, 2);
    assert_eq!(f(row.day_revenue), 160.0);
    assert_eq!(f(row.avg_price), 80.0);
    assert_eq!(row.n_alive_firms, 2);
    assert_eq!(f(row.menu_similarity), 1.0 / 3.0);
    assert_eq!(f(max_share_series(&rewards.metrics)[0]), f(row.market_share_max));

    world.firms[1].1.funds = r(-0.5);
    assert!(ReflectionMechanism::new(100).apply(&mut world));
    assert!(!world.firms[1].1.alive);
    assert!(world.firms[0].1.alive);
    assert_eq!(
        world.firms[1].1.memory,
        vec!["day 0: 2 customers, revenue 160, funds -0, avg price 80"]
    );
    // Nobody comes back, and nobody visits.
    world.firms[1].1.funds = r(100.0);
    assert!(!ReflectionMechanism::new(100).apply(&mut world));
    assert!(!world.firms[1].1.alive);
    assert_eq!(world.firms[1].1.memory.len(), 1);
    PatronageMechanism.apply(&mut world, &vec![(c0, 1)]);
    assert_eq!(world.market.customers_of(1), 2);
    assert_eq!(world.alive_firm_ids(), vec![AgentId(0)]);
    assert_eq!(world.n_alive_firms(), 1);
    assert_eq!(world.n_firms(), 2);
    assert_eq!(world.n_customers(), 2);
    assert_eq!(
        world.agent_ids(),
        vec![AgentId(0), AgentId(1), AgentId(c0), AgentId(c1)]
    );

    world.t = 2;
    let yesterday = MarketResetMechanism.apply(&mut world);
    assert_eq!(world.day, 1);
    assert_eq!(yesterday.customers_of(0), 2);
    assert_eq!(world.market.customers_of(0), 0);
    assert_eq!(f(world.market.revenue_of(0)), 0.0);
}

#[test]
fn managers_do_not_see_what_others_answer_on_the_day() {
    let mut world = small_town();
    world.t = 1;
    let yesterday = MarketResetMechanism.apply(&mut world);
    let rules = CompetitionMatthewMechanism::new(LlmSettings::default());
    let asked = rules.questions(&world, &yesterday);
    assert_eq!(asked.len(), 2);
    assert_eq!(asked[0].0, AgentId(0));
    assert_eq!(asked[1].0, AgentId(1));
    for (id, question) in &asked {
        assert_eq!(Some(question), rules.question(&world, &yesterday, *id).as_ref());
    }
    // The first manager halves their prices; the second was told of those of the morning.
    let shown = "- Rival 1: 0 customers, revenue 0, avg price 73,";
    assert!(asked[1].1.contains(shown), "{}", asked[1].1);
    let answers = vec![
        (AgentId(0), String::from("{\"price_factor\": 0.5, \"chef_salary\": 3000}")),
        (AgentId(1), String::from("{\"price_factor\": 1.5, \"chef_salary\": 400}")),
    ];
    rules.all_answered(&mut world, &answers);
    assert_eq!(f(world.firms[0].1.menu[0].price), 50.0);
    assert_eq!(f(world.firms[1].1.menu[0].price), 120.0);
    assert_eq!(f(world.firms[1].1.chef_salary), 400.0);
    assert!(!rules.questions(&world, &yesterday)[1].1.contains(shown));
    // One who gave up is not asked.
    world.firms[0].1.alive = false;
    let asked = rules.questions(&world, &yesterday);
    assert_eq!(asked.len(), 1);
    assert_eq!(asked[0].0, AgentId(1));
}

#[test]
fn a_run_is_recorded_day_by_day() {
    for mode in [CustomerMode::Individual, CustomerMode::Group] {
        let mut cfg = repro_config(mode);
        cfg.n_firms = 3;
        cfg.n_customers = 20;
        cfg.seed = Some(11);
        let result = run_mock(&cfg);
        let rows = &result.metrics_history;
        assert!(1 <= result.final_day && result.final_day <= cfg.days);
        assert_eq!(rows.len(), result.final_day * 3);
        for (k, row) in rows.iter().enumerate() {
            assert_eq!(row.day, (k / 3) as u64);
            assert_eq!(row.firm, (k % 3) as u64);
            assert_eq!(row.firm_alive, 1);
            assert!((0.0..=1.0).contains(&f(row.revenue_gini)));
            assert!((0.0..=1.0).contains(&f(row.market_share_max)));
            assert!((0.0..=1.0).contains(&f(row.menu_similarity)));
            if k >= 3 {
                assert!(f(rows[k - 3].cumulative_revenue) <= f(row.cumulative_revenue));
            }
        }
        let series = max_share_series(rows);
        assert_eq!(series.len(), result.final_day);
        for (d, share) in series.iter().enumerate() {
            assert_eq!(*share, rows[3 * d].market_share_max);
        }
        assert_eq!(result.winner_take_all, winner_take_all(&series, 5, r(0.8)));
        assert_eq!(result.quality_improved, compute_quality_improved(rows));
        assert_eq!(result.metadata.total, result.final_day * (3 + 20));
    }
}

#[test]
fn the_same_answers_lead_to_the_same_run() {
    for mode in [CustomerMode::Individual, CustomerMode::Group] {
        let mut cfg = repro_config(mode);
        cfg.n_customers = 12;
        cfg.seed = Some(5);
        let mut said: Vec<(String, String)> = Vec::new();
        let first = run_with(&cfg, |q| {
            let a = scripted_reply(q);
            said.push((q.to_string(), a.clone()));
            a
        });
        // One that looks its answers up says the same.
        let second = run_with(&cfg, |q| {
            said.iter().find(|(p, _)| p == q).unwrap().1.clone()
        });
        assert_eq!(first.metrics_history, second.metrics_history);
        assert_eq!(first.final_day, second.final_day);
        assert_eq!(first.winner_take_all, second.winner_take_all);
        assert_eq!(first.quality_improved, second.quality_improved);
        assert_eq!(first.metadata, second.metadata);
        assert_eq!(first.firm_outcomes, second.firm_outcomes);
    }
}

#[test]
fn revenue_does_not_fall_whatever_the_first_prices() {
    for price in [-4000.0, 0.0, f64::NAN, 0.25] {
        let mut cfg = repro_config(CustomerMode::Individual);
        cfg.n_customers = 12;
        cfg.seed = Some(3);
        cfg.init_price = r(price);
        let rows = run_mock(&cfg).metrics_history;
        for k in 2..rows.len() {
            assert!(f(rows[k - 2].cumulative_revenue) <= f(rows[k].cumulative_revenue));
        }
        for row in &rows {
            assert!((0.0..=1.0).contains(&f(row.revenue_gini)));
            assert!(f(row.avg_price) >= 1.0);
        }
    }
}

#[test]
fn towns_can_be_copied() {
    let mut world = small_town();
    let copy = world.clone();
    PatronageMechanism.apply(&mut world, &vec![(CUSTOMER_ID_BASE, 0)]);
    assert_eq!(world.market.clone().customers_of(0), 1);
    assert_eq!(copy.market.customers_of(0), 0);
    assert_eq!(copy.firms.len(), world.firms.len());
    let shown = CompetitionMatthewMechanism::new(LlmSettings::default()).offers(&copy);
    assert_eq!(shown[0].clone().firm, shown[0].firm);
}

#[test]
fn the_last_day_stops_a_run() {
    let mut world = small_town();
    world.day = 3;
    assert!(!ReflectionMechanism::new(5).apply(&mut world));
    assert!(ReflectionMechanism::new(4).apply(&mut world));
    for _ in 0..20 {
        ReflectionMechanism::new(5).apply(&mut world);
    }
    assert_eq!(world.firms[0].1.memory.len(), 10);
}

#[test]
fn comments_are_kept_up_to_a_limit() {
    let mut world = small_town();
    let visits: Vec<(u64, u64)> = (0..60).map(|k| (k, 0)).collect();
    PatronageMechanism.apply(&mut world, &visits);
    assert_eq!(world.firms[0].1.comments.len(), 50);
    assert_eq!(world.firms[0].1.comments[0].customer, 10);
    assert_eq!(world.market.customers_of(0), 60);
    // The next ones push out the oldest, and say how satisfied their authors were.
    let c0 = CUSTOMER_ID_BASE;
    PatronageMechanism.apply(&mut world, &vec![(c0, 0), (c0, 0), (c0, 9)]);
    let kept: Vec<u64> = world.firms[0].1.comments.iter().map(|c| c.customer).collect();
    let mut expected: Vec<u64> = (12..60).collect();
    expected.push(c0);
    expected.push(c0);
    assert_eq!(kept, expected);
    let visits = &world.customers[0].1.visit_memory;
    assert_eq!(visits.len(), 2);
    assert_eq!(world.firms[0].1.comments[49].rating, visits[1].satisfaction);
    let mut v = vec![1, 2, 3];
    keep_last(&mut v, 2);
    assert_eq!(v, vec![2, 3]);
    keep_last(&mut v, 5);
    assert_eq!(v, vec![2, 3]);
}

#[test]
fn satisfaction_is_at_most_five() {
    let d = dish("x", 5000.0, 1000.0, 90_000.0);
    assert_eq!(f(satisfaction(&d, r(2000.0))), 5.0);
    let d = dish("x", -5000.0, 1000.0, 0.0);
    assert_eq!(f(satisfaction(&d, r(2000.0))), 0.0);
    let d = dish("x", 0.2, 0.5, 0.0);
    assert_eq!(f(satisfaction(&d, r(0.25))), 5.0 * (0.5 * (0.2 / 0.5)) * 0.25);
    // Means below zero satisfy nobody; with the best chef there is no telling without means.
    assert_eq!(f(satisfaction(&d, r(-3.0))), 0.0);
    let d = dish("x", 400.0, 1000.0, f64::INFINITY);
    assert_eq!(f(satisfaction(&d, r(1.0))), 5.0);
    assert!(f(satisfaction(&d, r(0.0))).is_nan());
}

#[test]
fn managers_revise_their_restaurants() {
    let mut world = small_town();
    let mech = CompetitionMatthewMechanism::new(LlmSettings::default());
    let mut yesterday = Market::default();
    yesterday.day_customers.insert(1, 4);
    yesterday.day_revenue.insert(1, r(320.0));
    let brief = mech.briefing(&world, &yesterday, AgentId(0));
    assert_eq!(brief.own_customers, 0);
    assert_eq!(brief.rivals.len(), 1);
    assert_eq!(brief.rivals[0].day_customers, 4);
    assert_eq!(f(brief.rivals[0].avg_price), 80.0);
    assert!(mech.question(&world, &yesterday, AgentId(5)).is_none());
    assert!(mech
        .question(&world, &yesterday, AgentId(1))
        .unwrap()
        .contains("Yesterday: 4 customers, revenue 320"));
    mech.answered(
        &mut world,
        AgentId(1),
        "{\"price_factor\": 0.5, \"chef_salary\": 700, \"advertisement\": \"New\"}",
    );
    assert_eq!(f(world.firms[1].1.menu[0].price), 40.0);
    assert_eq!(f(world.firms[1].1.menu[0].chef_salary), 700.0);
    assert_eq!(f(world.firms[1].1.chef_salary), 700.0);
    assert_eq!(world.firms[1].1.advertisement, "New");
    for _ in 0..10 {
        mech.answered(&mut world, AgentId(1), "{\"price_factor\": 0.5}");
    }
    assert_eq!(f(world.firms[1].1.menu[0].price), 1.0);
    assert_eq!(f(world.firms[1].1.chef_salary), 700.0);
    assert_eq!(world.firms[1].1.advertisement, "New");
    assert_eq!(f(world.firms[0].1.menu[0].price), 100.0);
    for k in 0..5u64 {
        world.firms[0].1.comments.push(Comment {
            customer: k,
            text: format!("c{k}"),
            rating: r(1.0),
            day: 0,
        });
    }
    world.firms[1].1.alive = false;
    let offers = mech.offers(&world);
    assert_eq!(offers.len(), 1);
    assert_eq!(offers[0].recent_comments, vec!["c4", "c3", "c2"]);
    assert_eq!(f(offers[0].avg_score), f(world.firms[0].1.avg_dish_score()));
    let offer = offers[0].as_offer();
    assert_eq!(offer.firm, 0);
    assert_eq!(offer.recent_comments, vec!["c4", "c3", "c2"]);
}

fn offer(firm: u64, score: f64) -> FirmOfferSnapshot {
    FirmOfferSnapshot {
        firm,
        avg_price: r(1.0),
        avg_score: r(score),
        reputation: r(0.0),
        advertisement: "".into(),
        recent_comments: vec![],
    }
}

#[test]
fn without_a_choice_the_best_offer_is_taken() {
    let offers = vec![offer(5, 0.1), offer(6, 0.7), offer(7, 0.7), offer(8, 0.2)];
    assert_eq!(pick_or_best(None, &offers), 1);
    assert_eq!(pick_or_best(Some(3), &offers), 3);
    assert_eq!(pick_or_best(None, &vec![]), 0);
    let mech = CustomerChoiceMechanism::new(LlmSettings::default(), CustomerMode::Individual);
    assert_eq!(mech.pick("no idea", &offers), 1);
    assert_eq!(mech.pick("{\"choice\": 9}", &offers), 1);
    assert_eq!(mech.pick("{\"choice\": 2}", &offers), 2);
}

#[test]
fn groups_are_spread_by_votes() {
    assert_eq!(apportion_seats(&[0, 0], 3, &[1, 2]), vec![0, 0]);
    assert_eq!(apportion_seats(&[2, 2], 0, &[1, 2]), vec![0, 0]);
    assert_eq!(apportion_seats(&[3, 1, 0], 4, &[9, 9, 9]), vec![3, 1, 0]);
    assert_eq!(apportion_seats(&[5, 0], 4, &[1, 2]), vec![4, 0]);
    // Shares of 5/3 and 10/3: the larger remainder first.
    assert_eq!(apportion_seats(&[1, 2], 5, &[9, 0]), vec![2, 3]);
    // Equal remainders: the smaller key first, then the first.
    assert_eq!(apportion_seats(&[1, 1], 3, &[5, 4]), vec![1, 2]);
    assert_eq!(apportion_seats(&[1, 1], 3, &[4, 5]), vec![2, 1]);
    assert_eq!(apportion_seats(&[1, 1], 3, &[4, 4]), vec![2, 1]);
    assert_eq!(apportion_seats(&[1, 4, 1], 4, &[2, 0, 1]), vec![0, 3, 1]);
    let offers = vec![offer(5, 0.1), offer(6, 0.7)];
    let members = vec![AgentId(10), AgentId(11), AgentId(12)];
    assert_eq!(
        settle_group(&members, &offers, &[1, 0, 1], &[0, 0]),
        vec![(10, 5), (11, 6), (12, 6)]
    );
}

#[test]
fn customers_are_asked_and_settled_in_order() {
    let mut world = small_town();
    for k in 2..7u64 {
        world
            .customers
            .push((AgentId(CUSTOMER_ID_BASE + k), Customer::new(r(1.0), "p".into(), "h".into())));
    }
    let groups = [Some(9), None, Some(2), Some(9), None, Some(2), Some(9)];
    for (k, g) in groups.iter().enumerate() {
        world.customers[k].1.group = *g;
    }
    let offers = vec![offer(0, 0.1), offer(1, 0.7)];
    let ids = |v: Vec<AgentId>| v.iter().map(|a| a.0 - CUSTOMER_ID_BASE).collect::<Vec<_>>();
    let alone = CustomerChoiceMechanism::new(LlmSettings::default(), CustomerMode::Individual);
    assert_eq!(ids(alone.asked(&world)), vec![0, 1, 2, 3, 4, 5, 6]);
    assert_eq!(alone.groups(&world).len(), 0);
    let picks = vec![0, 1, 0, 1, 0, 1, 0];
    let made = alone.settle(&world, &offers, &picks, &vec![]);
    let short: Vec<(u64, u64)> = made.iter().map(|c| (c.0 - CUSTOMER_ID_BASE, c.1)).collect();
    assert_eq!(
        short,
        vec![(0, 0), (1, 1), (2, 0), (3, 1), (4, 0), (5, 1), (6, 0)]
    );
    let grouped = CustomerChoiceMechanism::new(LlmSettings::default(), CustomerMode::Group);
    assert_eq!(ids(grouped.asked(&world)), vec![1, 4, 2, 5, 0, 3, 6]);
    assert_eq!(grouped.groups(&world), vec![2, 9]);
    let picks = vec![1, 0, 1, 0, 1, 1, 0];
    let keys = vec![vec![0, 0], vec![0, 0]];
    let made = grouped.settle(&world, &offers, &picks, &keys);
    let short: Vec<(u64, u64)> = made.iter().map(|c| (c.0 - CUSTOMER_ID_BASE, c.1)).collect();
    assert_eq!(
        short,
        vec![(1, 1), (4, 0), (2, 0), (5, 1), (0, 0), (3, 1), (6, 1)]
    );
    assert!(grouped
        .question(&world, &offers, AgentId(CUSTOMER_ID_BASE))
        .unwrap()
        .contains("group deliberates together"));
    assert!(!alone
        .question(&world, &offers, AgentId(CUSTOMER_ID_BASE))
        .unwrap()
        .contains("group deliberates together"));
    assert!(alone.question(&world, &offers, AgentId(3)).is_none());
    assert_eq!(alone.settle(&world, &vec![], &vec![], &vec![]).len(), 0);
}

#[test]
fn the_town_starts_as_drawn() {
    let cfg = Config {
        n_firms: 2,
        n_customers: 3,
        customer_mode: CustomerMode::Group,
        group_size: 2,
        init_menu_size: 2,
        ..Config::default()
    };
    let firms = vec![
        FirmDraw {
            funds: r(0.9),
            prices: vec![r(1.0), r(1.1)],
        },
        FirmDraw {
            funds: r(1.2),
            prices: vec![r(0.95), r(1.0)],
        },
    ];
    let customers: Vec<CustomerDraw> = (0..3)
        .map(|k| CustomerDraw {
            income: r(0.6 + k as f64 * 0.5),
            preference: k + 1,
            health: k + 1,
        })
        .collect();
    let world = init_world(&cfg, &firms, &customers);
    assert_eq!(world.firms[1].0, AgentId(1));
    assert_eq!(f(world.firms[0].1.funds), 100_000.0 * 0.9);
    let d = &world.firms[1].1.menu[1];
    assert_eq!(d.name, "tempura");
    assert_eq!(f(world.firms[1].1.menu[0].price), 4000.0 * 0.95);
    assert_eq!(f(world.firms[1].1.menu[0].cost), 4000.0 * 0.95 * 0.4);
    assert_eq!(f(d.chef_salary), 2000.0);
    assert_eq!(world.firms[0].1.advertisement, "A welcoming neighborhood restaurant.");
    assert_eq!(world.customers[2].0, AgentId(CUSTOMER_ID_BASE + 2));
    assert_eq!(f(world.customers[2].1.income), 8000.0 * 1.6);
    assert_eq!(world.customers[0].1.preference, "prefers light and healthy meals");
    assert_eq!(world.customers[2].1.health, "gluten-free");
    assert_eq!(world.customers[0].1.group, Some(0));
    assert_eq!(world.customers[1].1.group, Some(0));
    assert_eq!(world.customers[2].1.group, Some(1));
    assert_eq!(world.current_day(), 0);
}

#[test]
fn quality_improves_where_a_score_rises() {
    let row = |day: u64, firm: u64, score: f64| DailyMetric {
        day,
        firm,
        firm_alive: 1,
        day_customers: 1,
        day_revenue: r(0.0),
        cumulative_revenue: r(0.0),
        avg_dish_score: r(score),
        avg_price: r(0.0),
        reputation: r(0.0),
        revenue_gini: r(0.0),
        market_share_max: r(0.0),
        menu_similarity: r(0.0),
        n_alive_firms: 1,
    };
    assert!(!compute_quality_improved(&[]));
    assert!(!compute_quality_improved(&[row(1, 0, 0.1), row(1, 0, 0.9)]));
    assert!(compute_quality_improved(&[row(1, 0, 0.1), row(2, 0, 0.2)]));
    assert!(!compute_quality_improved(&[row(1, 0, 0.1), row(2, 0, 0.1 + 1e-10)]));
    assert!(!compute_quality_improved(&[row(1, 0, 0.1), row(2, 1, 0.9)]));
    assert!(!compute_quality_improved(&[row(1, 0, 0.1), row(2, 0, 0.9), row(3, 0, 0.1)]));
    assert!(compute_quality_improved(&[row(3, 1, 0.9), row(1, 0, 0.5), row(1, 1, 0.2), row(3, 0, 0.5)]));
    let mut rows = vec![row(4, 0, 0.0), row(2, 0, 0.0), row(2, 1, 0.0)];
    rows[2].day_customers = 3;
    let series: Vec<f64> = max_share_series(&rows).iter().map(|x| f(*x)).collect();
    assert_eq!(series, vec![0.75, 1.0]);
}

#[test]
fn modes_have_names() {
    assert_eq!(CustomerMode::Individual.label(), "individual");
    assert_eq!(CustomerMode::Group.label(), "group");
    assert_eq!(parse_customer_mode("individual").unwrap(), CustomerMode::Individual);
    assert_eq!(parse_customer_mode("group").unwrap(), CustomerMode::Group);
    assert_eq!(parse_customer_mode(" Single ").unwrap(), CustomerMode::Individual);
    assert_eq!(parse_customer_mode("GROUPED").unwrap(), CustomerMode::Group);
    assert_eq!(
        parse_customer_mode("x").unwrap_err(),
        "不正な顧客構成モード: \"x\" (individual / group)"
    );
    let json = Config::default().to_run_config_json();
    assert_eq!(json.command, "run");
    assert_eq!(json.customer_mode, "individual");
    assert_eq!(f(json.init_cost_ratio), 0.4);
}
