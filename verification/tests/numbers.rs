//! Numbers agree with 64-bit floating point, digit for digit.

use ddquery_core::literal::read_number;
use ddquery_core::rendering::{render_number, render_scalar};
use ddquery_core::Binary64;

struct Random(u64);

impl Random {
    fn next(&mut self) -> u64 {
        self.0 ^= self.0 << 13;
        self.0 ^= self.0 >> 7;
        self.0 ^= self.0 << 17;
        self.0
    }
}

fn number(x: f64) -> Binary64 {
    Binary64 { bits: x.to_bits() }
}

fn check_text(text: &str) {
    let want = text.parse::<f64>().ok().map(|x| x.to_bits());
    assert_eq!(read_number(text).map(|x| x.bits), want, "{text}");
}

fn check_value(x: f64) {
    assert_eq!(render_number(number(x)), format!("{x}"));
    let scalar = if x.fract() == 0.0 && x.is_finite() {
        format!("{}", x as i64)
    } else {
        format!("{x}")
    };
    assert_eq!(render_scalar(number(x)), scalar);
    if x.is_finite() {
        check_text(&format!("{x}"));
        check_text(&format!("{x:e}"));
        check_text(&format!("{x:.3e}"));
    }
}

const EDGES: [f64; 24] = [
    0.0,
    -0.0,
    1.0,
    -1.0,
    0.1,
    0.5,
    1.5,
    2.5,
    100.0,
    1e21,
    1e22,
    1e23,
    123456789.125,
    9007199254740993.0,
    4.9e-324,
    2.2250738585072014e-308,
    2.225073858507201e-308,
    f64::MAX,
    f64::MIN,
    f64::MIN_POSITIVE,
    1125899906842624.25,
    1125899906842624.75,
    1.180591620717411303424e21,
    f64::EPSILON,
];

#[test]
fn edges_render_and_read() {
    for x in EDGES {
        check_value(x);
    }
    for x in [f64::INFINITY, f64::NEG_INFINITY, f64::NAN] {
        check_value(x);
    }
}

#[test]
fn random_values_render_and_read() {
    let mut r = Random(0x9e3779b97f4a7c15);
    for _ in 0..400 {
        let x = f64::from_bits(r.next());
        if !x.is_nan() {
            check_value(x);
        }
    }
}

#[test]
fn everyday_values_render_and_read() {
    let mut r = Random(12345);
    for _ in 0..400 {
        let whole = (r.next() % 2_000_000) as f64 - 1_000_000.0;
        check_value(whole);
        check_value(whole / 1000.0);
        check_value(whole / 7.0);
    }
    for e in 0..64 {
        let p = 2f64.powi(e);
        for x in [p, p - 1.0, p + 1.0, -p, p + 0.5] {
            check_value(x);
        }
    }
}

#[test]
fn texts_at_the_ties_and_the_limits() {
    for text in [
        "9007199254740993",
        "9007199254740992.5",
        "9007199254740993.00000000000000000000000000001",
        "9007199254740995",
        "1.7976931348623157e308",
        "1.7976931348623158e308",
        "1.7976931348623159e308",
        "1e309",
        "-1e309",
        "1e99999999999999999999",
        "1e-99999999999999999999",
        "0e99999999999999999999",
        "2.4703282292062327e-324",
        "2.4703282292062328e-324",
        "2.47032822920623272088284396434110686182e-324",
        "2.2250738585072011e-308",
        "2.2250738585072012e-308",
        "0.000000000000000000000000000000000000000000000000000000000000000001",
        "123456789012345678901234567890123456789012345678901234567890",
        "1.",
        ".5",
        "+5",
        "-.5e+3",
        "5e3",
        "5E-3",
        "00012.3400",
        "-0",
        "",
        "+",
        ".",
        "e5",
        "1e",
        "1e+",
        "1.2.3",
        "1e2e3",
        "--1",
        "1 ",
        "0x10",
        "1_000",
    ] {
        check_text(text);
    }
}

#[test]
fn random_texts_read() {
    let mut r = Random(777);
    for _ in 0..400 {
        let digits = 1 + r.next() % 30;
        let mut text = String::new();
        for _ in 0..digits {
            text.push(char::from(b'0' + (r.next() % 10) as u8));
        }
        if r.next() % 2 == 0 {
            let at = (r.next() % (digits + 1)) as usize;
            text.insert(at, '.');
        }
        let exponent = (r.next() % 700) as i64 - 350;
        text.push_str(&format!("e{exponent}"));
        check_text(&text);
    }
}

#[test]
fn a_rendered_number_reads_back() {
    let mut r = Random(31337);
    for _ in 0..200 {
        let x = Binary64 { bits: r.next() };
        let text = render_number(x);
        match read_number(&text) {
            Some(y) => assert_eq!(y.bits, x.bits, "{text}"),
            None => assert!(text == "NaN" || text == "inf" || text == "-inf"),
        }
    }
}

/// The digits of `5^n`.
fn digits_of_power_of_five(n: usize) -> Vec<u8> {
    let mut digits: Vec<u8> = vec![1];
    for _ in 0..n {
        let mut carry = 0;
        for d in digits.iter_mut() {
            let x = *d * 5 + carry;
            *d = x % 10;
            carry = x / 10;
        }
        if carry > 0 {
            digits.push(carry);
        }
    }
    digits.reverse();
    digits
}

#[test]
fn long_literals_at_a_tie() {
    // Half of the least number: 2^-1075, which is 5^1075 / 10^1075.
    let text: String =
        digits_of_power_of_five(1075).iter().map(|d| char::from(b'0' + d)).collect();
    let half = format!("{text}e-1075");
    assert_eq!(read_number(&half), Some(number(0.0)));
    let zeros = "0".repeat(3000);
    for (tail, want) in [("", 0.0), ("1", f64::from_bits(1)), ("0009", f64::from_bits(1))] {
        let above = format!("0.{}{text}{zeros}{tail}", "0".repeat(1075 - text.len()));
        assert_eq!(read_number(&above), Some(number(want)), "{tail}");
        check_text(&above);
        let scaled = format!("{text}{zeros}{tail}e-{}", 1075 + 3000 + tail.len());
        assert_eq!(read_number(&scaled), Some(number(want)), "{tail}");
        check_text(&scaled);
    }
    // Just below the tie: the last digit less by one, and then nines.
    let mut below = text.clone();
    assert_eq!(below.pop(), Some('5'));
    below.push('4');
    let below = format!("{below}{}e-{}", "9".repeat(2000), 1075 + 2000);
    assert_eq!(read_number(&below), Some(number(0.0)));
    check_text(&below);
    // Halfway between 2^53 and its successor.
    for tail in ["", "1"] {
        let middle = format!("9007199254740993.{zeros}{tail}");
        check_text(&middle);
    }
}

#[test]
fn long_literals_of_every_length() {
    let mut r = Random(4242);
    for len in [1498, 1499, 1500, 1501, 1502, 1510, 2500] {
        for exponent in [-5000, -2575, -2574, -1823, -1822, -1500, -1200, -900, -1, 0, 5] {
            let mut text = String::from("0000");
            text.push(char::from(b'1' + (r.next() % 9) as u8));
            for _ in 1..len {
                text.push(char::from(b'0' + (r.next() % 10) as u8));
            }
            check_text(&format!("{text}e{exponent}"));
            text.insert((r.next() % 600) as usize, '.');
            check_text(&format!("{text}e{exponent}"));
        }
    }
}

#[test]
fn very_long_literals_are_read_soon() {
    let n = 1000000;
    assert_eq!(read_number(&"7".repeat(n)), Some(number(f64::INFINITY)));
    let x = read_number(&format!("{}e-{n}", "3".repeat(n))).unwrap();
    assert_eq!(x, number(1.0 / 3.0));
    let x = read_number(&format!("0.{}1", "0".repeat(n))).unwrap();
    assert_eq!(x, number(0.0));
    let x = read_number(&format!("0.{}1e{}", "0".repeat(n), n + 1)).unwrap();
    assert_eq!(x, number(1.0));
    let x = read_number(&format!("{}25.{}", "0".repeat(n), "0".repeat(n))).unwrap();
    assert_eq!(x, number(25.0));
}
