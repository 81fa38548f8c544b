use competeai_simulation::binary64::{ratio, real_of, real_of_wide, Real};
use competeai_simulation::numerals::parse_real;
use competeai_simulation::shortest::push_shortest;
use competeai_simulation::text::{
    chars_of, contains, find_part, lower_case, number_of, push_decimal, string_of, trim,
    white_space,
};
use competeai_simulation::writing::push_fixed;

fn r(x: f64) -> Real {
    Real { bits: x.to_bits() }
}

fn f(x: Real) -> f64 {
    f64::from_bits(x.bits)
}

fn same(a: Real, b: f64) -> bool {
    (f(a).is_nan() && b.is_nan()) || a.bits == b.to_bits()
}

fn next(state: &mut u64) -> u64 {
    *state = state.wrapping_mul(6364136223846793005).wrapping_add(1442695040888963407);
    let x = *state;
    (x >> 33) ^ x.rotate_left(17)
}

fn samples() -> Vec<f64> {
    let mut v = vec![
        0.0,
        -0.0,
        1.0,
        -1.0,
        0.1,
        0.2,
        0.3,
        0.5,
        1.5,
        2.5,
        3.0,
        1e-9,
        1e-300,
        5e-324,
        -5e-324,
        2.2250738585072014e-308,
        2.225073858507201e-308,
        1.7976931348623157e308,
        -1.7976931348623157e308,
        9007199254740991.0,
        9007199254740992.0,
        9007199254740993.0,
        1e22,
        1e23,
        123456789.125,
        f64::INFINITY,
        f64::NEG_INFINITY,
        f64::NAN,
        4000.0,
        0.45,
        2.675,
    ];
    let mut state = 7u64;
    for _ in 0..60 {
        v.push(f64::from_bits(next(&mut state)));
        v.push((next(&mut state) % 1_000_000) as f64 / 1000.0);
    }
    v
}

#[test]
fn arithmetic_is_that_of_binary64() {
    let v = samples();
    for &a in &v {
        for &b in &v {
            assert!(same(r(a).plus(r(b)), a + b), "{a:e} + {b:e}");
            assert!(same(r(a).minus(r(b)), a - b), "{a:e} - {b:e}");
            assert!(same(r(a).times(r(b)), a * b), "{a:e} * {b:e}");
            assert!(same(r(a).over(r(b)), a / b), "{a:e} / {b:e}");
            assert_eq!(r(a).less(r(b)), a < b);
            assert_eq!(r(a).same(r(b)), a == b);
            assert_eq!(r(a).at_most(r(b)), a <= b);
            if a != b {
                assert!(same(r(a).larger(r(b)), a.max(b)), "max {a:e} {b:e}");
                assert!(same(r(a).smaller(r(b)), a.min(b)), "min {a:e} {b:e}");
            }
        }
        assert!(same(r(a).absolute(), a.abs()));
        if !a.is_nan() {
            assert!(same(r(a).negated(), -a));
        }
        assert!(same(r(a).clamped(r(0.0), r(1.0)), a.clamp(0.0, 1.0)));
        assert_eq!(r(a).to_u64(), a as u64, "{a:e}");
        assert_eq!(r(a).to_nearest_i64(), a.round() as i64, "{a:e}");
    }
}

#[test]
fn integers_are_the_nearest_numbers() {
    let mut state = 3u64;
    for n in [0, 1, 2, 12, 9007199254740993, u64::MAX, u64::MAX - 1, 1 << 63] {
        assert!(same(real_of(n), n as f64));
    }
    for _ in 0..200 {
        let n = next(&mut state);
        assert!(same(real_of(n), n as f64));
        let w = (n as u128) * (next(&mut state) as u128);
        assert!(same(real_of_wide(w), w as f64));
    }
    assert!(same(ratio(4, 10), 0.4));
    assert!(same(ratio(8, 10), 0.8));
    assert!(same(ratio(7, 10), 0.7));
    assert!(same(ratio(3, 10), 0.3));
    assert!(same(ratio(667, 1_000), 0.667));
    assert!(same(ratio(8_667, 10_000), 0.8667));
    assert!(same(ratio(1, 1_000_000_000), 1e-9));
    assert!(same(ratio(1, 1_000_000_000_000), 1e-12));
    assert!(same(ratio(1, 1_000_000), 1e-6));
    assert!(same(ratio(4, 100), 0.04));
    assert!(same(ratio(25, 10), 2.5));
}

#[test]
fn numbers_are_written_as_by_the_standard_library() {
    for x in samples() {
        let mut s = String::new();
        push_shortest(&mut s, r(x));
        assert_eq!(s, format!("{x}"));
        let mut t = String::from("x");
        push_fixed(&mut t, r(x), 0);
        assert_eq!(t, format!("x{x:.0}"));
        let mut t = String::new();
        push_fixed(&mut t, r(x), 1);
        assert_eq!(t, format!("{x:.1}"));
        let mut t = String::new();
        push_fixed(&mut t, r(x), 2);
        assert_eq!(t, format!("{x:.2}"));
        let mut t = String::new();
        push_fixed(&mut t, r(x), 3);
        assert_eq!(t, format!("{x:.3}"));
    }
}

#[test]
fn numbers_are_read_as_by_the_standard_library() {
    let mut texts: Vec<String> = vec![
        "", "+", "-", ".", "1", "1.", ".5", "+1.5", "-1.5", "1e5", "1E5", "1e+5", "1e-5", "e5",
        "1e", "1e+", "inf", "-inf", "+infinity", "INFINITY", "nan", "NaN", "-nan", "1 ", " 1",
        "1_0", "1.2.3", "--1", "0x10", "1e400", "1e-400", "0e999999999999", "1e99999999999999999",
        "179769313486231580793728971405301e276", "2.4703282292062327e-324",
        "2.4703282292062328e-324", "9007199254740993", "9007199254740992.99999999999999999999",
        "0.1", "0.30000000000000004", "123456789012345678901234567890", "12-3", "infinit",
    ]
    .into_iter()
    .map(String::from)
    .collect();
    for x in samples() {
        texts.push(format!("{x}"));
        texts.push(format!("{x:e}"));
        texts.push(format!("{x:.3}"));
    }
    for t in texts {
        let got = parse_real(&chars_of(&t));
        match t.parse::<f64>() {
            Ok(x) => assert!(got.is_some() && same(got.unwrap(), x), "{t}"),
            Err(_) => assert!(got.is_none(), "{t}"),
        }
    }
}

#[test]
fn texts_are_handled_as_by_the_standard_library() {
    for n in 0..0x11_0000u32 {
        if let Some(c) = char::from_u32(n) {
            assert_eq!(white_space(c), c.is_whitespace(), "{n:x}");
        }
    }
    for t in ["", "  a b\t\n", "\u{3000}x\u{a0}", "abc", " \r\n "] {
        assert_eq!(string_of(&trim(&chars_of(t))), t.trim());
    }
    assert_eq!(string_of(&lower_case(&chars_of("AbZ09é"))), "abz09é");
    for (t, p) in [("hello", "l"), ("hello", ""), ("", ""), ("", "x"), ("aab", "ab"), ("a—b", "b")] {
        assert_eq!(contains(t, p), t.contains(p));
        let at = find_part(&chars_of(t), &chars_of(p));
        assert_eq!(at, t.find(p).map(|i| t[..i].chars().count()));
    }
    for n in [0, 7, 10, 99, 100, 12345, u64::MAX] {
        let mut s = String::new();
        push_decimal(&mut s, n);
        assert_eq!(s, format!("{n}"));
        let v = chars_of(&s);
        assert_eq!(number_of(&v, 0, v.len()), Some(n));
    }
    let v = chars_of("18446744073709551616");
    assert_eq!(number_of(&v, 0, v.len()), None);
}
