use competeai_simulation::binary64::Real;
use competeai_simulation::config::{Config, CustomerMode};
use competeai_simulation::experiments::{
    anchors, final_row, firm_counts, groups_soften, in_band, llm_settings, n_customers_range,
    near_count, observed, paper_values, parse_count, repro_cell, sizes, split_csv, sweep_cells,
    sweep_summary, trial, trial_count, value_of, Sizes, Trial,
};
use competeai_simulation::metrics::DailyMetric;
use competeai_simulation::record::{llm_block, log_simulation, unit_id};
use competeai_simulation::simulation::{
    run_metadata, wta_threshold, CallStats, FirmOutcome, SimulationResult,
};

fn r(x: f64) -> Real {
    Real { bits: x.to_bits() }
}

fn f(x: Real) -> f64 {
    f64::from_bits(x.bits)
}

fn row(day: u64, firm: u64) -> DailyMetric {
    DailyMetric {
        day,
        firm,
        firm_alive: 1,
        day_customers: 10 * firm + day,
        day_revenue: r(100.0),
        cumulative_revenue: r(200.0),
        avg_dish_score: r(0.4),
        avg_price: r(4000.0),
        reputation: r(1.5),
        revenue_gini: r(0.1 * day as f64),
        market_share_max: r(0.6),
        menu_similarity: r(0.25),
        n_alive_firms: 2,
    }
}

fn result() -> SimulationResult {
    SimulationResult {
        metrics_history: vec![row(0, 0), row(0, 1), row(1, 0), row(1, 1)],
        metadata: CallStats {
            total: 8,
            cache_hits: 2,
            cache_hit_rate: r(0.25),
        },
        llm_model: "m".into(),
        llm_endpoint: "mock://scripted".into(),
        final_day: 2,
        winner_take_all: true,
        quality_improved: false,
        firm_outcomes: vec![
            FirmOutcome {
                firm: 0,
                alive: true,
                funds: r(5.0),
            },
            FirmOutcome {
                firm: 1,
                alive: false,
                funds: r(-1.0),
            },
        ],
    }
}

#[test]
fn the_provider_comes_from_the_endpoint() {
    assert_eq!(llm_block("m", "mock://scripted", r(0.0)).provider, "mock");
    assert_eq!(
        llm_block("m", "https://api.openai.com/v1", r(0.0)).provider,
        "openai"
    );
    assert_eq!(
        llm_block("m", "http://localhost:11434", r(0.0)).provider,
        "ollama"
    );
    assert_eq!(llm_block("m", "http://mock://openai", r(0.0)).provider, "openai");
    assert_eq!(llm_block("m", "", r(0.0)).provider, "ollama");
    let block = llm_block("llama", "mock://x", r(0.5));
    assert_eq!(block.model_snapshot, "llama");
    assert_eq!(block.temperature.map(f), Some(0.5));
    assert!(block.system_prompt_hash.is_none());
}

#[test]
fn a_run_is_recorded_whole() {
    let log = log_simulation(&result());
    assert_eq!(log.aggregates.len(), 2);
    assert_eq!(log.aggregates[1].day, 1);
    assert_eq!(f(log.aggregates[1].revenue_gini), 0.1);
    assert_eq!(f(log.aggregates[0].n_alive_firms), 2.0);
    assert_eq!(log.observations.len(), 4);
    assert_eq!(log.observations[3].unit_id, "firm-1");
    assert_eq!(log.observations[3].t, 1);
    assert_eq!(log.observations[3].t_unit, "round");
    assert_eq!(log.observations[3].day_customers, 11);
    assert_eq!(f(log.observations[3].reputation), 1.5);
    let values: Vec<(&str, f64)> = log.run_scope.iter().map(|(n, x)| (*n, f(*x))).collect();
    assert_eq!(
        values,
        vec![
            ("n_units", 2.0),
            ("final_day", 2.0),
            ("winner_take_all", 1.0),
            ("quality_improved", 0.0),
            ("llm_calls", 8.0),
            ("llm_cache_hits", 2.0),
            ("llm_cache_hit_rate", 0.25),
        ]
    );
    assert_eq!(log.terminals.len(), 2);
    assert_eq!(log.terminals[0].outcome, "survive");
    assert!(log.terminals[0].censored);
    assert_eq!(log.terminals[0].t, 1);
    assert_eq!(log.terminals[0].budget, 1);
    assert_eq!(log.terminals[1].outcome, "exit");
    assert!(!log.terminals[1].censored);
    assert_eq!(f(log.terminals[1].funds), -1.0);
    assert_eq!(unit_id(123), "firm-123");
}

#[test]
fn a_run_without_days_or_calls() {
    let mut empty = result();
    empty.metrics_history.clear();
    empty.metadata.total = 0;
    let log = log_simulation(&empty);
    assert_eq!(log.aggregates.len(), 0);
    assert_eq!(log.observations.len(), 0);
    assert_eq!(log.terminals.len(), 0);
    assert_eq!(log.run_scope.len(), 6);
}

#[test]
fn the_metadata_of_a_run() {
    let cfg = Config::default();
    let meta = run_metadata(&result(), &cfg);
    assert_eq!(meta.total_calls, 8);
    assert_eq!(meta.cache_hits, 2);
    assert_eq!(f(meta.cache_hit_rate), 0.25);
    assert!(meta.winner_take_all);
    assert!(meta.determinism_note.starts_with("LLM output is outside"));
    assert!(meta.determinism_note.ends_with("deterministic given the seed."));
    assert_eq!(f(wta_threshold()), 0.8);
}

#[test]
fn lists_are_split_at_commas() {
    assert_eq!(split_csv("2,3,4"), vec!["2", "3", "4"]);
    assert_eq!(split_csv(" 2 ,, x y , "), vec!["2", "x y"]);
    assert_eq!(split_csv("").len(), 0);
    assert_eq!(split_csv(",").len(), 0);
    assert_eq!(firm_counts("2, +3,04").unwrap(), vec![2, 3, 4]);
    assert_eq!(firm_counts("2,x,y").unwrap_err(), "x");
    for t in ["", "+", "-1", "1.0", "12", "+7", "18446744073709551616", " 1"] {
        assert_eq!(parse_count(t), t.parse::<usize>().ok(), "{t}");
    }
}

#[test]
fn ranges_go_up_in_steps() {
    assert_eq!(n_customers_range(20, 80, 20), vec![20, 40, 60, 80]);
    assert_eq!(n_customers_range(20, 79, 20), vec![20, 40, 60]);
    assert_eq!(n_customers_range(5, 5, 1), vec![5]);
    assert_eq!(n_customers_range(5, 4, 1), vec![5]);
    assert_eq!(n_customers_range(5, 9, 0), vec![5]);
    assert_eq!(
        n_customers_range(0, usize::MAX, usize::MAX / 2),
        vec![0, usize::MAX / 2, usize::MAX - 1]
    );
}

#[test]
fn settings_of_an_experiment() {
    let s = llm_settings(r(0.5), 3, "cache.json", false);
    assert_eq!(f(s.temperature), 0.5);
    assert_eq!(s.seed, 3);
    assert_eq!(s.cache_path.as_deref(), Some("cache.json"));
    assert!(llm_settings(r(0.5), 3, "cache.json", true).cache_path.is_none());
    let asked = Sizes {
        n_customers: 50,
        days: 15,
        individual_runs: 9,
        group_runs: 6,
    };
    assert_eq!(sizes(asked, false), asked);
    assert_eq!(
        sizes(asked, true),
        Sizes {
            n_customers: 12,
            days: 6,
            individual_runs: 3,
            group_runs: 2,
        }
    );
}

#[test]
fn trials_add_up() {
    let t = trial(&result());
    assert!(t.winner_take_all);
    assert!(!t.quality_improved);
    assert_eq!(t.last.unwrap().firm, 0);
    assert_eq!(t.last.unwrap().day, 1);
    assert!(final_row(&[]).is_none());
    let none = Trial {
        winner_take_all: false,
        quality_improved: true,
        last: None,
    };
    let cell = repro_cell(CustomerMode::Individual, &[t, t, none]);
    assert_eq!(cell.runs, 3);
    assert_eq!(cell.wta_count, 2);
    assert_eq!(f(cell.wta_freq), 2.0 / 3.0);
    assert_eq!(cell.quality_count, 1);
    assert_eq!(f(cell.quality_freq), 1.0 / 3.0);
    assert_eq!(f(cell.mean_menu_similarity), 0.5 / 3.0);
    assert_eq!(f(cell.mean_final_gini), (0.1 + 0.1) / 3.0);
    assert_eq!(f(cell.mean_final_share_max), (0.6 + 0.6) / 3.0);
    let group = repro_cell(CustomerMode::Group, &[none]);
    let seen = observed(&cell, &group);
    assert_eq!(seen.len(), 13);
    let by_name = |name: &str| f(seen.iter().find(|(n, _)| *n == name).unwrap().1);
    assert_eq!(by_name("wta_freq_individual"), 2.0 / 3.0);
    assert_eq!(by_name("wta_freq_group"), 0.0);
    assert_eq!(by_name("quality_freq_all"), 2.0 / 4.0);
    assert_eq!(by_name("menu_similarity_all"), (0.5 / 3.0 * 3.0 + 0.0 * 1.0) / 4.0);
    assert_eq!(by_name("wta_freq_gap_individual_minus_group"), 2.0 / 3.0 - 0.0);
    for pv in paper_values() {
        assert!(seen.iter().any(|(n, _)| *n == pv.name));
    }
}

#[test]
fn the_paper_reports_four_values() {
    let pv = paper_values();
    assert_eq!(pv.len(), 4);
    assert_eq!(f(pv[0].value), 0.667);
    assert_eq!(f(pv[0].band.0), 0.667 - 0.15);
    assert_eq!(f(pv[0].band.1), 0.667 + 0.15);
    assert_eq!(f(pv[1].band.0), 0.0);
    assert_eq!(f(pv[2].value), 0.8667);
    assert_eq!(f(pv[2].band.0), 0.8667 - 0.10);
    assert_eq!(f(pv[2].band.1), 1.0);
    assert_eq!(f(pv[3].band.1), 0.36 + 0.10);
    assert!(in_band(&pv[0], r(0.667)));
    assert!(in_band(&pv[0], pv[0].band.0));
    assert!(!in_band(&pv[0], r(0.9)));
    assert!(!in_band(&pv[0], r(f64::NAN)));
}

#[test]
fn observations_are_held_against_the_paper() {
    let won = Trial {
        winner_take_all: true,
        quality_improved: true,
        last: Some(DailyMetric {
            menu_similarity: r(0.4),
            ..row(14, 0)
        }),
    };
    let lost = Trial {
        winner_take_all: false,
        ..won
    };
    let individual = repro_cell(CustomerMode::Individual, &[won, won, lost]);
    let group = repro_cell(CustomerMode::Group, &[lost]);
    let seen = observed(&individual, &group);
    assert_eq!(value_of(&seen, "wta_freq_individual").map(f), Some(2.0 / 3.0));
    assert_eq!(value_of(&seen, "quality_freq_all").map(f), Some(1.0));
    assert_eq!(value_of(&seen, "wta_freq"), None);
    assert_eq!(anchors(&seen), vec![true, true, true, true]);
    assert_eq!(near_count(&anchors(&seen)), 4);
    assert!(groups_soften(&individual, &group));

    let always = repro_cell(CustomerMode::Group, &[won]);
    let seen = observed(&always, &always);
    assert_eq!(anchors(&seen), vec![false, false, true, true]);
    assert_eq!(near_count(&anchors(&seen)), 2);
    assert!(!groups_soften(&always, &always));
    assert_eq!(near_count(&[]), 0);
}

#[test]
fn a_sweep_is_summed_up_by_restaurants() {
    let runs = vec![(2, true, r(0.2)), (3, true, r(0.9)), (2, false, r(0.4))];
    let (freq, gini) = sweep_summary(&runs, 2).unwrap();
    assert_eq!(f(freq), 0.5);
    assert_eq!(f(gini), (0.2 + 0.4) / 2.0);
    assert!(sweep_summary(&runs, 4).is_none());
}

#[test]
fn trials_and_cells_are_counted() {
    assert_eq!(trial_count(0), 1);
    assert_eq!(trial_count(1), 1);
    assert_eq!(trial_count(9), 9);
    assert_eq!(
        sweep_cells(&[2, 3], &[20, 40], 2),
        vec![
            (2, 20, 0),
            (2, 20, 1),
            (2, 40, 0),
            (2, 40, 1),
            (3, 20, 0),
            (3, 20, 1),
            (3, 40, 0),
            (3, 40, 1),
        ]
    );
    assert_eq!(sweep_cells(&[2, 3], &[20], 0), vec![]);
    assert_eq!(sweep_cells(&[], &[20], 3), vec![]);
    assert_eq!(sweep_cells(&[2], &[], 3), vec![]);
}
