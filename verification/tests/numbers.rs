use lib::text::{chars_of, parse_i64_of, parses_as_f64_of, push_decimal};

fn parse(s: &str) -> Option<i64> {
    parse_i64_of(&chars_of(s))
}

#[test]
fn decimal_parses_back() {
    for n in [0u64, 7, 10, 99, 1000, 123456789, i64::MAX as u64] {
        let mut s = String::new();
        push_decimal(&mut s, n);
        assert_eq!(s, n.to_string());
        assert_eq!(parse(&s), Some(n as i64));
    }
}

#[test]
fn parse_i64_as_std_does() {
    for t in ["0", "-0", "+5", "-9223372036854775808", "9223372036854775807", "9223372036854775808",
              "-9223372036854775809", "", "+", "-", "1 2", "12a", " 1", "007"] {
        assert_eq!(parse(t), t.parse::<i64>().ok(), "{:?}", t);
    }
}

#[test]
fn double_check_agrees_with_std_parse() {
    let cases = [
        "1.25", "1.", ".5", "+1.2", "-1.", "1e5", "1E-5", "2.5e+10", "7", "inf", "-Infinity", "NaN",
        "+nan", "INF", "", "+", "-", ".", "1e", "e5", "1.2.3", "infin", " 1", "1 ", "1.5e", "1.5e+",
        "++1", "0x10", "1_0", "1.e3", ".e3", "é", "c\n 1.5",
    ];
    for c in cases {
        let chars: Vec<char> = c.chars().collect();
        assert_eq!(parses_as_f64_of(&chars), c.parse::<f64>().is_ok(), "{:?}", c);
    }
}

#[test]
fn double_check_values() {
    let ok = |c: &str| parses_as_f64_of(&c.chars().collect());
    assert!(ok("+1.2"));
    assert!(ok("-0.5e-3"));
    assert!(ok("iNfInItY"));
    assert!(!ok("1.2.3"));
    assert!(!ok("+-1"));
}
