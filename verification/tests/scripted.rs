use competeai_simulation::binary64::Real;
use competeai_simulation::hashing::{hash_bytes, hash_number, label_hash};
use competeai_simulation::reproduce_mock::{
    can_decide, choose_option, field_after, is_price_sensitive, is_thrifty, option_lines, parse_chef_salary,
    parse_own_customers, preference_seed, reproduce_customer_reply, reproduce_firm_reply,
    scripted_reply, split_seed,
};
use competeai_simulation::text::chars_of;

fn f(x: Real) -> f64 {
    f64::from_bits(x.bits)
}

fn fnv(bytes: &[u8]) -> u64 {
    let mut h: u64 = 0xcbf29ce484222325;
    for b in bytes {
        h ^= *b as u64;
        h = h.wrapping_mul(0x100000001b3);
    }
    h
}

#[test]
fn firm_invests_proportional_to_traffic() {
    let losing = reproduce_firm_reply(
        "- Chef salary: 2000\n- Yesterday: 0 customers, revenue 0\nprice_factor",
    );
    assert!(losing.contains("2080"), "got {losing}");
    let winning = reproduce_firm_reply(
        "- Chef salary: 2000\n- Yesterday: 30 customers, revenue 90000\nprice_factor",
    );
    assert!(winning.contains("2440"), "got {winning}");
    assert!(losing.contains("\"price_factor\": 1.0"), "got {losing}");
    assert!(winning.contains("\"price_factor\": 1.0"), "got {winning}");
}

#[test]
fn customer_herds_to_higher_reputation() {
    let prompt = "Daily budget: 12000\n\
                  Preference: values classic comfort food\n\
                  option index\n\
                  - Option 0: avg price 4000, quality 0.500, reputation 1.00\n\
                  - Option 1: avg price 4000, quality 0.500, reputation 4.00\n";
    assert_eq!(reproduce_customer_reply(prompt), "{\"choice\": 1}");
}

#[test]
fn price_sensitive_picks_cheapest() {
    let prompt = "Daily budget: 5000\n\
                  Preference: values classic comfort food\n\
                  option index\n\
                  - Option 0: avg price 5000, quality 0.500, reputation 4.00\n\
                  - Option 1: avg price 3000, quality 0.500, reputation 1.00\n";
    assert_eq!(reproduce_customer_reply(prompt), "{\"choice\": 1}");
}

#[test]
fn tied_reputation_breaks_by_budget_parity() {
    let mk = |budget: u64| {
        format!(
            "Daily budget: {budget}\nPreference: values classic comfort food\noption index\n\
             - Option 0: avg price 4000, quality 0.500, reputation 0.00\n\
             - Option 1: avg price 4000, quality 0.500, reputation 0.00\n"
        )
    };
    let a = reproduce_customer_reply(&mk(12000));
    let b = reproduce_customer_reply(&mk(12000));
    assert_eq!(a, b, "同一予算は同一選択 (決定論)");
    assert!(a == "{\"choice\": 0}" || a == "{\"choice\": 1}");
    for budget in 6000..6040u64 {
        let k = fnv(&budget.to_le_bytes()) % 2;
        assert_eq!(
            reproduce_customer_reply(&mk(budget)),
            format!("{{\"choice\": {k}}}")
        );
    }
}

#[test]
fn parse_own_customers_reads_value() {
    assert_eq!(
        parse_own_customers("- Yesterday: 17 customers, revenue 51000"),
        17
    );
    assert_eq!(parse_own_customers("no yesterday line"), 0);
}

#[test]
fn firm_replies_are_exact() {
    assert_eq!(
        reproduce_firm_reply("- Chef salary: 2000\n- Yesterday: 3 customers\nprice_factor"),
        "{\"price_factor\": 1.0, \"chef_salary\": 2116, \"advertisement\": \
         \"Come discover us — fresh quality every day!\"}"
    );
    assert_eq!(
        reproduce_firm_reply("Chef salary: 2000.5\nYesterday: 15 customers"),
        "{\"price_factor\": 1.0, \"chef_salary\": 2260.5, \"advertisement\": \
         \"A customer favorite — quality you can taste.\"}"
    );
    assert!(reproduce_firm_reply("Chef salary: 4990\nYesterday: 9 c").contains(": 5000,"));
    assert!(reproduce_firm_reply("Chef salary: 6000\nYesterday: 9 c").contains(": 6000,"));
    assert!(reproduce_firm_reply("nothing").contains(": 2080,"));
    assert_eq!(parse_own_customers("Yesterday: 99999999999999999999 x"), 0);
    assert_eq!(parse_own_customers("Yesterday: x"), 0);
    assert_eq!(f(parse_chef_salary("Chef salary: 12-3")), 2000.0);
    assert_eq!(f(parse_chef_salary("Chef salary: -12.5\n")), -12.5);
}

#[test]
fn hashes_are_fnv() {
    assert_eq!(hash_bytes(&[]), 0xcbf29ce484222325);
    for t in ["", "individual", "group", "é—x"] {
        assert_eq!(label_hash(t), fnv(t.as_bytes()));
    }
    for n in [0u64, 1, 8000, u64::MAX, 0x0102030405060708] {
        assert_eq!(hash_number(n), fnv(&n.to_le_bytes()));
    }
    let prompt = "- Preference: rich — food\r\nx";
    assert_eq!(preference_seed(prompt), fnv("rich — food".as_bytes()));
    assert_eq!(preference_seed("none"), fnv(b""));
    assert_eq!(preference_seed("Preference: last\r"), fnv(b"last\r"));
    assert_eq!(split_seed("Daily budget: 8123\n"), fnv(&8123u64.to_le_bytes()));
    assert_eq!(split_seed("x"), fnv(&0u64.to_le_bytes()));
}

#[test]
fn offers_are_read_line_by_line() {
    let o = option_lines(
        "x\n  - Option 3: avg price 4000.5, quality 0.5, reputation -1\r\n- Option : avg price 1\n\
         - Option 7 nothing\n-Option 8: avg price 2\n- Option 99999999999999999999: avg price 2",
    );
    assert_eq!(o.len(), 2);
    assert_eq!(o[0].index, 3);
    assert_eq!(f(o[0].price), 4000.5);
    assert_eq!(f(o[0].quality), 0.5);
    assert_eq!(f(o[0].reputation), -1.0);
    assert_eq!(o[1].index, 7);
    assert_eq!(f(o[1].price), f64::INFINITY);
    assert_eq!(f(o[1].quality), 0.0);
    assert_eq!(f(o[1].reputation), 0.0);
    assert_eq!(option_lines("").len(), 0);
    assert_eq!(field_after(&chars_of("a: 1.5x"), "a: ").map(f), Some(1.5));
    assert_eq!(field_after(&chars_of("a: x"), "a: ").map(f), None);
    assert_eq!(field_after(&chars_of("b"), "a: ").map(f), None);
}

#[test]
fn customers_decide_by_what_they_read() {
    assert!(is_price_sensitive("Daily budget: 5999"));
    assert!(!is_price_sensitive("Daily budget: 6000"));
    assert!(!is_price_sensitive("Daily budget: x"));
    // A bargain hunter goes by the price whatever the budget, alone or in a group.
    let hunter = "Daily budget: 12000\nPreference: is a budget-conscious bargain hunter\n\
                  option index\n\
                  - Option 0: avg price 5000, quality 0.500, reputation 4.00\n\
                  - Option 1: avg price 3000, quality 0.500, reputation 1.00\n";
    assert!(!is_price_sensitive(hunter));
    assert!(is_thrifty(hunter));
    assert_eq!(reproduce_customer_reply(hunter), "{\"choice\": 1}");
    assert_eq!(choose_option(&format!("group deliberates together\n{hunter}")), Some(1));
    // An offer that draws by no number is compared with nothing.
    let big = "9".repeat(400);
    let odd = format!(
        "Daily budget: 9000\n- Option 0: quality 1, reputation 1\n\
         - Option 1: quality {big}, reputation -{big}\n"
    );
    assert!(can_decide(&odd));
    assert_eq!(choose_option(&odd), Some(0));
    // No offers: the first.
    assert_eq!(reproduce_customer_reply("option index"), "{\"choice\": 0}");
    assert_eq!(choose_option("option index"), None);
    // One offer, and nothing to compare it with.
    let one = "Daily budget: 9000\n- Option 4: avg price 10, quality 1, reputation 1";
    assert!(!can_decide(one));
    assert_eq!(
        reproduce_customer_reply("Daily budget: 10\n- Option 4: avg price 10, quality 1"),
        "{\"choice\": 4}"
    );
    // In a group, by taste, whatever the reputation.
    let grouped = "group deliberates together\nDaily budget: 9000\nPreference: p\n\
                   - Option 0: quality 1, reputation 5\n- Option 1: quality 0, reputation 0\n\
                   - Option 2: quality 0, reputation 0\n";
    let k = fnv(b"p") % 3;
    assert_eq!(choose_option(grouped), Some(k as usize));
    // A gap of exactly what it takes is enough.
    let gap = |r: &str| {
        format!("Daily budget: 9000\n- Option 0: quality 0, reputation 0\n- Option 1: quality 0, reputation {r}\n")
    };
    let tie = (fnv(&9000u64.to_le_bytes()) % 2) as usize;
    assert_eq!(choose_option(&gap("0.04")), Some(1));
    assert_eq!(choose_option(&gap("0.03")), Some(tie));
    // Equal prices are split by the budget; unreadable ones are none.
    let price = |b: u64, p: &str| {
        format!("Daily budget: {b}\n- Option 0: avg price {p}\n- Option 1: avg price {p}\n")
    };
    for b in 100..120u64 {
        let k = (fnv(&b.to_le_bytes()) % 2) as usize;
        assert_eq!(choose_option(&price(b, "50")), Some(k));
        assert_eq!(choose_option(&price(b, "x")), None);
    }
}

#[test]
fn replies_go_by_the_marks() {
    assert!(scripted_reply("price_factor option index").contains("chef_salary"));
    assert_eq!(
        scripted_reply("option index\nDaily budget: 10\n- Option 1: avg price 3"),
        "{\"choice\": 1}"
    );
    assert_eq!(scripted_reply("hello"), "{\"choice\": 0}");
}

#[test]
fn reputations_do_not_sway_those_who_deliberate() {
    let question = |a: &str, b: &str, c: &str| {
        format!(
            "Your group deliberates together.\n\
             - Daily budget: 9000\n- Preference: loves spicy food\n\
             - Option 0: avg price 4000, quality 0.500, reputation {a}\n\
             \x20   comment: \"quite a reputation {c}\"\n\
             - Option 1: avg price 3000, quality 0.900, reputation {b}, ad: \"reputation {a}\"\n\
             - Option 2: avg price 3500, quality 0.100, reputation {c}\n"
        )
    };
    let first = question("0.00", "5.00", "1.25");
    let chosen = choose_option(&first);
    assert_eq!(
        chosen,
        Some((fnv("loves spicy food".as_bytes()) % 3) as usize)
    );
    for (a, b, c) in [("5", "0", "-1"), ("", "", ""), ("4.99", "-", "123456789.")] {
        let other = question(a, b, c);
        assert_ne!(first, other);
        assert_eq!(choose_option(&other), chosen);
        let thrifty = |s: &str| s.replace("9000", "3000").replace("group deliberates", "x");
        assert_eq!(choose_option(&thrifty(&first)), Some(1));
        assert_eq!(choose_option(&thrifty(&other)), Some(1));
    }
    // The preference is read to the end of its line.
    let told = |x: &str| {
        format!(
            "group deliberates together\nPreference: a reputation {x}\n\
             - Option 0: avg price 1\n- Option 1: avg price 2\n"
        )
    };
    assert_eq!(preference_seed(&told("7")), fnv("a reputation 7".as_bytes()));
    assert_ne!(preference_seed(&told("7")), preference_seed(&told("8")));
}
