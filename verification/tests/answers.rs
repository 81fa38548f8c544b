use competeai_simulation::binary64::Real;
use competeai_simulation::prompts::{
    customer_choice_prompt, extract_json_object, firm_strategy_prompt, number_field,
    parse_customer_choice, parse_firm_strategy, read_answer, strategy_from_fields, FirmBriefing,
    FirmOffer, JsonField, RivalInfo,
};
use competeai_simulation::reproduce_mock::{choose_option, is_thrifty, option_lines};
use competeai_simulation::world::{Customer, Dish, Firm, Visit};

fn r(x: f64) -> Real {
    Real { bits: x.to_bits() }
}

fn f(x: Real) -> f64 {
    f64::from_bits(x.bits)
}

#[test]
fn parses_firm_strategy_json() {
    let st = parse_firm_strategy(
        "{\"price_factor\": 1.1, \"chef_salary\": 2500, \"advertisement\": \"Best ramen!\"}",
        r(2000.0),
    );
    assert!((f(st.price_factor) - 1.1).abs() < 1e-9);
    assert!((f(st.chef_salary) - 2500.0).abs() < 1e-9);
    assert_eq!(st.advertisement, "Best ramen!");
}

#[test]
fn firm_strategy_clamps_price_factor() {
    let st = parse_firm_strategy("{\"price_factor\": 9.0, \"chef_salary\": -5}", r(2000.0));
    assert!((f(st.price_factor) - 1.5).abs() < 1e-9);
    assert!(f(st.chef_salary).abs() < 1e-9);
}

#[test]
fn firm_strategy_fallback_holds() {
    let st = parse_firm_strategy("I am not sure.", r(1800.0));
    assert!((f(st.price_factor) - 1.0).abs() < 1e-9);
    assert!((f(st.chef_salary) - 1800.0).abs() < 1e-9);
}

#[test]
fn parses_customer_choice_json() {
    assert_eq!(parse_customer_choice("{\"choice\": 1}", 2), Some(1));
    assert_eq!(
        parse_customer_choice("I will go to {\"choice\": 0} today", 2),
        Some(0)
    );
}

#[test]
fn customer_choice_out_of_range_is_none() {
    assert_eq!(parse_customer_choice("{\"choice\": 5}", 2), None);
}

#[test]
fn customer_choice_prose_fallback() {
    assert_eq!(parse_customer_choice("option 1 please", 2), Some(1));
    assert_eq!(parse_customer_choice("no idea", 2), None);
}

#[test]
fn strategies_are_read_under_other_names_and_from_texts() {
    let st = parse_firm_strategy(
        "Sure: {\"price\": \" 0.2 \", \"salary\": \"3000\", \"ad\": \"  Hi!  \"} ok",
        r(2000.0),
    );
    assert_eq!(f(st.price_factor), 0.5);
    assert_eq!(f(st.chef_salary), 3000.0);
    assert_eq!(st.advertisement, "Hi!");
    // A field that is no number is passed over; another type of advertisement is none.
    let st = parse_firm_strategy(
        "{\"price_factor\": true, \"factor\": 1.25, \"chef\": null, \"advertisement\": 5, \"ad\": \"x\"}",
        r(2000.0),
    );
    assert_eq!(f(st.price_factor), 1.25);
    assert_eq!(f(st.chef_salary), 2000.0);
    assert_eq!(st.advertisement, "");
    // An object without fields keeps things as they are, but a negative salary is none.
    let st = parse_firm_strategy("{}", r(-3.0));
    assert_eq!(f(st.price_factor), 1.0);
    assert_eq!(f(st.chef_salary), 0.0);
    // A factor that is not a number leaves the prices; a salary that is not one is zero.
    let st = parse_firm_strategy("{\"price_factor\": \"NaN\", \"salary\": \"nan\"}", r(2000.0));
    assert_eq!(f(st.price_factor), 1.0);
    assert_eq!(f(st.chef_salary), 0.0);
    let st = parse_firm_strategy("{\"chef_salary\": \"NaN\", \"salary\": 2500}", r(2000.0));
    assert_eq!(f(st.chef_salary), 0.0);
    let st = parse_firm_strategy("{\"price_factor\": \"-inf\"}", r(2000.0));
    assert_eq!(f(st.price_factor), 0.5);
    // No object.
    let st = parse_firm_strategy("{\"price_factor\": 1.1", r(-3.0));
    assert_eq!(f(st.price_factor), 1.0);
    assert_eq!(f(st.chef_salary), -3.0);
    let st = parse_firm_strategy("{price_factor: 1.1}", r(7.0));
    assert_eq!(f(st.price_factor), 1.0);
    assert_eq!(f(st.chef_salary), 7.0);
}

#[test]
fn answers_are_read_field_by_field() {
    let answer = read_answer("x {\"a\": 1.5, \"b\": \"t\", \"c\": [1], \"a\": -2} y").unwrap();
    let mut shown: Vec<String> = Vec::new();
    for (name, value) in &answer {
        shown.push(match value {
            JsonField::Number(x) => format!("{name}={}", f(*x)),
            JsonField::Text(t) => format!("{name}:{t}"),
            JsonField::Other => format!("{name}?"),
        });
    }
    assert_eq!(shown, vec!["a=-2", "b:t", "c?"]);
    assert!(read_answer("[1, 2]").is_none());
    assert!(read_answer("{\"a\": }").is_none());
    assert!(read_answer("} {").is_none());
    assert_eq!(extract_json_object("a {b} c} d").as_deref(), Some("{b} c}"));
    assert_eq!(extract_json_object("a }b{"), None);
    let fields = vec![
        (String::from("x"), JsonField::Text(String::from("no"))),
        (String::from("y"), JsonField::Number(r(2.5))),
    ];
    assert_eq!(number_field(&fields, &["x", "y"]).map(f), Some(2.5));
    assert_eq!(number_field(&fields, &["z"]).map(f), None);
    let st = strategy_from_fields(&Some(fields), r(9.0));
    assert_eq!(f(st.price_factor), 1.0);
    assert_eq!(f(st.chef_salary), 9.0);
}

#[test]
fn choices_are_rounded_and_fall_back_to_numbers_in_the_text() {
    assert_eq!(parse_customer_choice("{\"choice\": 0.6}", 2), Some(1));
    assert_eq!(parse_customer_choice("{\"choice\": 1.5}", 3), Some(2));
    assert_eq!(parse_customer_choice("{\"choice\": \"1\"}", 2), Some(1));
    assert_eq!(parse_customer_choice("{\"index\": 1}", 2), Some(1));
    assert_eq!(parse_customer_choice("{\"restaurant\": 1, \"option\": 0}", 2), Some(0));
    assert_eq!(parse_customer_choice("{\"choice\": -1}", 2), None);
    assert_eq!(parse_customer_choice("{\"choice\": 5} or 1", 2), None);
    assert_eq!(parse_customer_choice("{\"other\": 1}", 2), Some(1));
    assert_eq!(parse_customer_choice("{\"choice\": \"nan\"}", 2), Some(0));
    assert_eq!(parse_customer_choice("99999999999999999999 or 1", 2), None);
    assert_eq!(parse_customer_choice("7 or 1", 2), None);
    assert_eq!(parse_customer_choice("1 or 7", 2), Some(1));
    assert_eq!(parse_customer_choice("{\"choice\": 0}", 0), None);
}

#[test]
fn questions_to_managers_tell_everything() {
    let dish = Dish {
        name: "ramen".into(),
        cost: r(1600.0),
        price: r(4000.0),
        chef_salary: r(2000.0),
    };
    let mut firm = Firm::new(r(100_000.4), vec![dish], r(2000.0));
    let mut brief = FirmBriefing {
        own_customers: 17,
        own_revenue: r(51_000.0),
        rivals: vec![],
    };
    let head = "You are the manager of a restaurant competing for customers in a virtual town. \
                Each day you may adjust your prices, the salary you pay your chef (which raises dish \
                quality), and your advertisement. Your goal is to maximize cumulative revenue while \
                staying solvent.\n\n## Day 3\n## Your restaurant\n- Funds: 100000\n\
                - Average price: 4000\n- Chef salary: 2000\n- Average dish quality score: 0.400\n\
                - Reputation: 0.00\n- Yesterday: 17 customers, revenue 51000\n";
    let tail = "\n## Decision\nChoose a price_factor (multiply all dish prices, 0.5 = halve, \
                1.5 = raise by 50%), a chef_salary (>= 0; higher raises quality), and a short \
                advertisement.\nAnswer with JSON only, e.g. {\"price_factor\": 1.05, \
                \"chef_salary\": 2200, \"advertisement\": \"Fresh sushi daily!\"}\n";
    assert_eq!(
        firm_strategy_prompt(&firm, 3, &brief),
        format!("{head}{tail}")
    );
    brief.rivals.push(RivalInfo {
        day_customers: 4,
        day_revenue: r(12_000.5),
        avg_price: r(3000.0),
        avg_score: r(0.45678),
    });
    firm.memory.push("day 1: fine".into());
    firm.memory.push("day 2: better".into());
    let rivals = "\n## Rivals (yesterday)\n\
                  - Rival 1: 4 customers, revenue 12000, avg price 3000, avg quality 0.457\n";
    let memory = "\n## Your reflections\n- day 1: fine\n- day 2: better\n";
    assert_eq!(
        firm_strategy_prompt(&firm, 3, &brief),
        format!("{head}{rivals}{memory}{tail}")
    );
}

#[test]
fn questions_to_customers_tell_everything() {
    let mut customer = Customer::new(r(7999.6), "likes fish".into(), "vegetarian".into());
    let offers = vec![
        FirmOffer {
            firm: 0,
            avg_price: r(4000.0),
            avg_score: r(0.4),
            reputation: r(1.25),
            advertisement: "Hi".into(),
            recent_comments: vec!["good".into(), "bad".into()],
        },
        FirmOffer {
            firm: 1,
            avg_price: r(3500.0),
            avg_score: r(0.5),
            reputation: r(0.0),
            advertisement: "".into(),
            recent_comments: vec![],
        },
    ];
    let head = "You are a customer in a virtual town deciding which restaurant to visit for dinner \
                today. Pick the single restaurant that best fits your taste, budget and the \
                available information.\n\n";
    let you = "## Day 2\n## You\n- Daily budget: 8000\n- Preference: likes fish\n\
               - Health / diet: vegetarian\n";
    let shown = "\n## Restaurants\n\
                 - Option 0: avg price 4000, quality 0.400, reputation 1.25, ad: \"Hi\"\n    \
                 comment: \"good\"\n    comment: \"bad\"\n\
                 - Option 1: avg price 3500, quality 0.500, reputation 0.00\n\
                 \n## Decision\nReply with the option index of the restaurant you will visit (0 to 1).\n\
                 Answer with JSON only, e.g. {\"choice\": 0}\n";
    assert_eq!(
        customer_choice_prompt(&customer, 2, &offers, false),
        format!("{head}{you}{shown}")
    );
    customer.visit_memory.push(Visit {
        day: 1,
        firm: 1,
        spend: r(3500.0),
        satisfaction: r(2.25),
    });
    let last = "- Last visit: restaurant 1 (spent 3500, satisfaction 2.2/5)\n";
    assert_eq!(
        customer_choice_prompt(&customer, 2, &offers, false),
        format!("{head}{you}{last}{shown}")
    );
    let grouped = customer_choice_prompt(&customer, 2, &offers, true);
    assert!(grouped.contains("group deliberates together"));
    assert!(grouped.starts_with(head));
    assert!(grouped.ends_with(shown));
    assert!(customer_choice_prompt(&customer, 2, &[], false).contains("(0 to 0)"));
}

#[test]
fn scripted_customers_read_what_they_are_told() {
    let hall = |reputation: f64, ad: &str| {
        vec![
            FirmOffer {
                firm: 0,
                avg_price: r(4000.4),
                avg_score: r(0.4567),
                reputation: r(reputation),
                advertisement: ad.into(),
                recent_comments: vec!["- Option 5: avg price 1".into()],
            },
            FirmOffer {
                firm: 4,
                avg_price: r(4200.0),
                avg_score: r(0.5),
                reputation: r(-0.25),
                advertisement: "".into(),
                recent_comments: vec![],
            },
            FirmOffer {
                firm: 7,
                avg_price: r(3999.6),
                avg_score: r(f64::NAN),
                reputation: r(1.0),
                advertisement: "reputation 9".into(),
                recent_comments: vec!["fine".into()],
            },
        ]
    };
    let customer = Customer::new(r(9000.0), "likes fish".into(), "none".into());
    let question = customer_choice_prompt(&customer, 3, &hall(1.256, "avg price 7"), false);
    let read = option_lines(&question);
    assert_eq!(read.len(), 3);
    assert_eq!(read[0].index, 0);
    assert_eq!(f(read[0].price), 4000.0);
    assert_eq!(f(read[0].quality), 0.457);
    assert_eq!(f(read[0].reputation), 1.26);
    assert_eq!(read[1].index, 1);
    assert_eq!(f(read[1].reputation), -0.25);
    assert_eq!(f(read[2].price), 4000.0);
    assert_eq!(f(read[2].quality), 0.0);
    assert_eq!(f(read[2].reputation), 1.0);
    // In a group the reputation makes no difference.
    let calm = customer_choice_prompt(&customer, 3, &hall(0.0, ""), true);
    let loud = customer_choice_prompt(&customer, 3, &hall(5.0, "Best!"), true);
    assert_eq!(choose_option(&calm), choose_option(&loud));
    // A bargain hunter is known by the preference.
    let hunter = Customer::new(
        r(9000.0),
        "is a budget-conscious bargain hunter".into(),
        "none".into(),
    );
    assert!(is_thrifty(&customer_choice_prompt(&hunter, 3, &hall(1.0, ""), false)));
    assert!(!is_thrifty(&question));
}
