use competeai_simulation::binary64::Real;
use competeai_simulation::metrics::{
    market_share_max, mean, menu_similarity, revenue_gini, winner_take_all,
};
use competeai_simulation::world::{AgentId, AgentKind, Dish, Firm, MarketWorld, CUSTOMER_ID_BASE};

fn r(x: f64) -> Real {
    Real { bits: x.to_bits() }
}

fn f(x: Real) -> f64 {
    f64::from_bits(x.bits)
}

fn rs(v: &[f64]) -> Vec<Real> {
    v.iter().map(|x| r(*x)).collect()
}

fn firm_with_menu(names: &[&str]) -> Firm {
    let menu: Vec<Dish> = names
        .iter()
        .map(|n| Dish {
            name: (*n).into(),
            cost: r(1600.0),
            price: r(4000.0),
            chef_salary: r(2000.0),
        })
        .collect();
    Firm::new(r(100_000.0), menu, r(2000.0))
}

#[test]
fn gini_of_equal_is_zero() {
    assert!(f(revenue_gini(&rs(&[100.0, 100.0]))) < 1e-9);
}

#[test]
fn gini_of_monopoly_positive() {
    let g = f(revenue_gini(&rs(&[0.0, 100.0])));
    assert!((g - 0.5).abs() < 1e-9, "got {g}");
}

#[test]
fn gini_cannot_be_defined_of_everything() {
    assert_eq!(f(revenue_gini(&[])), 0.0);
    assert_eq!(f(revenue_gini(&rs(&[0.0, 0.0]))), 0.0);
    assert_eq!(f(revenue_gini(&rs(&[1e-13]))), 0.0);
    assert_eq!(f(revenue_gini(&rs(&[-50.0, 100.0]))), 0.0);
    assert_eq!(f(revenue_gini(&rs(&[-50.0, -100.0]))), 0.0);
}

#[test]
fn gini_is_between_zero_and_one() {
    let g = f(revenue_gini(&rs(&[1.0, 2.0, 3.0, 10.0])));
    // All distances: 2 * (1 + 2 + 9 + 1 + 8 + 7) = 56, by 2 * 4 * 16.
    assert_eq!(g, 0.4375);
    assert_eq!(f(revenue_gini(&rs(&[0.0, 0.0, 0.0, 9.0]))), 0.75);
}

#[test]
fn market_share_range_and_monopoly() {
    assert!((f(market_share_max(&[0, 50])) - 1.0).abs() < 1e-9);
    assert!((f(market_share_max(&[25, 25])) - 0.5).abs() < 1e-9);
    assert_eq!(f(market_share_max(&[0, 0])), 0.0);
    assert_eq!(f(market_share_max(&[])), 0.0);
    assert_eq!(f(market_share_max(&[1, 2, 4])), 4.0 / 7.0);
}

#[test]
fn winner_take_all_detection() {
    let shares = rs(&[0.5, 0.6, 0.7, 0.85, 0.9, 0.95]);
    assert!(winner_take_all(&shares, 5, r(0.8)));
    let shares2 = rs(&[0.5, 0.6, 0.7, 0.85, 0.9, 0.80]);
    assert!(!winner_take_all(&shares2, 5, r(0.8)));
    assert!(!winner_take_all(&rs(&[0.9, 0.9]), 5, r(0.8)));
}

#[test]
fn menu_similarity_jaccard() {
    let a = firm_with_menu(&["sushi", "ramen", "tempura"]);
    let b = firm_with_menu(&["sushi", "ramen", "curry"]);
    let sim = f(menu_similarity(&[&a, &b]));
    assert!((sim - 0.5).abs() < 1e-9, "got {sim}");
    assert_eq!(f(menu_similarity(&[&b, &a])), sim);
}

#[test]
fn menu_similarity_identical_is_one() {
    let a = firm_with_menu(&["sushi", "ramen"]);
    let b = firm_with_menu(&["sushi", "ramen"]);
    assert!((f(menu_similarity(&[&a, &b])) - 1.0).abs() < 1e-9);
}

#[test]
fn menu_similarity_of_few_or_of_nothing() {
    let a = firm_with_menu(&["sushi", "sushi", "ramen"]);
    let b = firm_with_menu(&["ramen", "ramen"]);
    let empty = firm_with_menu(&[]);
    assert_eq!(f(menu_similarity(&[])), 0.0);
    assert_eq!(f(menu_similarity(&[&a])), 0.0);
    assert_eq!(f(menu_similarity(&[&a, &b])), 0.5);
    assert_eq!(f(menu_similarity(&[&a, &empty])), 0.0);
    assert_eq!(f(menu_similarity(&[&empty, &empty])), 0.0);
    assert_eq!(f(menu_similarity(&[&a, &b, &empty])), 0.5 / 3.0);
}

#[test]
fn metric_helpers_hand_calc() {
    assert!((f(revenue_gini(&rs(&[0.0, 100.0]))) - 0.5).abs() < 1e-9);
    assert!((f(market_share_max(&[30, 10])) - 0.75).abs() < 1e-9);
    assert!(winner_take_all(&rs(&[0.9, 0.95, 0.99]), 0, r(0.8)));
    assert!(!winner_take_all(&rs(&[0.9, 0.5, 0.99]), 0, r(0.8)));
}

#[test]
fn means() {
    assert_eq!(f(mean(&[])), 0.0);
    assert_eq!(f(mean(&rs(&[1.0, 2.0, 6.0]))), 3.0);
    assert_eq!(f(mean(&rs(&[0.1, 0.2]))), (0.1 + 0.2) / 2.0);
}

#[test]
fn dish_score_formula() {
    let d = Dish {
        name: "x".into(),
        cost: r(2000.0),
        price: r(4000.0),
        chef_salary: r(2500.0),
    };
    assert!((f(d.score()) - 0.5).abs() < 1e-9);
}

#[test]
fn dish_score_zero_price_safe() {
    let d = Dish {
        name: "x".into(),
        cost: r(100.0),
        price: r(0.0),
        chef_salary: r(0.0),
    };
    assert!(f(d.score()).abs() < 1e-9);
}

#[test]
fn dish_score_formula_matches_paper() {
    let d = Dish {
        name: "x".into(),
        cost: r(1600.0),
        price: r(4000.0),
        chef_salary: r(2000.0),
    };
    assert!((f(d.score()) - 0.4).abs() < 1e-9, "got {}", f(d.score()));
}

#[test]
fn agent_kind_partitioned_by_id() {
    assert_eq!(MarketWorld::kind_of(AgentId(0)), AgentKind::Firm);
    assert_eq!(MarketWorld::kind_of(AgentId(5)), AgentKind::Firm);
    assert_eq!(
        MarketWorld::kind_of(AgentId(CUSTOMER_ID_BASE)),
        AgentKind::Customer
    );
    assert_eq!(
        MarketWorld::kind_of(AgentId(CUSTOMER_ID_BASE + 9)),
        AgentKind::Customer
    );
}

#[test]
fn means_of_a_menu() {
    let mut a = firm_with_menu(&["sushi", "ramen"]);
    a.menu[1].price = r(5000.0);
    a.menu[1].cost = r(2600.0);
    assert_eq!(f(a.avg_price()), 4500.0);
    assert_eq!(f(a.avg_cost()), 2100.0);
    let expected = (0.5 * (1600.0 / 4000.0) + 0.5 * (2000.0 / 5000.0)
        + (0.5 * (2600.0 / 5000.0) + 0.5 * (2000.0 / 5000.0)))
        / 2.0;
    assert_eq!(f(a.avg_dish_score()), expected);
    assert_eq!(f(firm_with_menu(&[]).avg_price()), 0.0);
}

#[test]
fn gini_ignores_order_and_scale() {
    let values = [0.1, 7.0, 3.3, 1e6, 0.0, 2.5e-3, 12_345.678];
    let g = f(revenue_gini(&rs(&values)));
    let mut turned = values;
    for _ in 0..values.len() {
        turned.rotate_left(1);
        assert!((f(revenue_gini(&rs(&turned))) - g).abs() < 1e-9);
    }
    turned.reverse();
    assert!((f(revenue_gini(&rs(&turned))) - g).abs() < 1e-9);
    for c in [1.0, 1.5, 3.0, 1e9, 1e100] {
        let larger: Vec<f64> = values.iter().map(|x| x * c).collect();
        assert!((f(revenue_gini(&rs(&larger))) - g).abs() < 1e-9);
    }
    let many: Vec<f64> = (0..1_499).map(|k| ((k * 7919) % 1_499) as f64 * 0.37).collect();
    let mut sorted = many.clone();
    sorted.sort_by(|a, b| a.partial_cmp(b).unwrap());
    let g = f(revenue_gini(&rs(&many)));
    assert!((f(revenue_gini(&rs(&sorted))) - g).abs() < 1e-9);
    assert!((g - 1.0 / 3.0).abs() < 1e-3);
}

#[test]
fn gini_is_largest_where_one_has_all() {
    for n in 1..50usize {
        let mut values = vec![0.0; n];
        values[n / 2] = 123.0;
        let g = f(revenue_gini(&rs(&values)));
        let bound = (n as f64 - 1.0) / n as f64;
        assert!((g - bound).abs() < 1e-9);
        assert!(g <= bound + 1e-9);
        assert_eq!(g == 0.0, n == 1);
    }
    assert_eq!(f(revenue_gini(&rs(&[0.1, 0.1, 0.1]))), 0.0);
    assert_eq!(f(revenue_gini(&rs(&[1e300, 1e300]))), 0.0);
    let next = f64::from_bits(1e6f64.to_bits() + 1);
    assert!(f(revenue_gini(&rs(&[1e6, next]))) > 0.0);
}
