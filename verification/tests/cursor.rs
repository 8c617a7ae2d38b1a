//! The cursor: what each step consumes and returns.

use ddquery_core::cursor::Cursor;
use ddquery_core::Binary64;

fn number(x: f64) -> Binary64 {
    Binary64 { bits: x.to_bits() }
}

#[test]
fn test_should_eat_literal_after_whitespace() {
    let mut c = Cursor::new("   :rest");
    assert!(c.eat(":"));
    assert_eq!(c.rest(), "rest");
}

#[test]
fn test_should_take_while_predicate() {
    let mut c = Cursor::new("abc123 .x");
    assert_eq!(c.take_while(|ch| ch.is_ascii_alphanumeric()), "abc123");
    assert_eq!(c.rest(), " .x");
}

#[test]
fn test_should_unescape_quoted_string() {
    let mut c = Cursor::new(r#""a \"b\" c""#);
    assert_eq!(c.take_quoted().unwrap(), r#"a "b" c"#);
}

#[test]
fn test_should_preserve_unknown_escapes_in_quoted_string() {
    let mut c = Cursor::new(r#""status:\w+""#);
    assert_eq!(c.take_quoted().unwrap(), r"status:\w+");
}

#[test]
fn test_should_error_on_unterminated_string() {
    let mut c = Cursor::new("\"oops");
    assert!(c.take_quoted().is_err());
}

#[test]
fn test_should_parse_numbers() {
    assert_eq!(Cursor::new("300").take_number().unwrap(), number(300.0));
    assert_eq!(Cursor::new("-2.5").take_number().unwrap(), number(-2.5));
    assert_eq!(Cursor::new("1e3").take_number().unwrap(), number(1000.0));
}

#[test]
fn test_should_report_offset_on_error() {
    let mut c = Cursor::new("avg");
    c.take_while(|ch| ch.is_ascii_alphabetic());
    let err = c.expect("(").unwrap_err();
    assert_eq!(err.offset(), 3);
}

#[test]
fn expect_names_the_missing_literal() {
    let mut c = Cursor::new("  x");
    let err = c.expect(")").unwrap_err();
    assert_eq!(err.reason(), "expected `)`");
    assert_eq!(err.offset(), 2);
    assert_eq!(c.rest(), "x");
    assert!(c.expect("x").is_ok());
    assert!(c.is_done());
}

#[test]
fn skipping_stops_at_what_is_not_ascii() {
    let mut c = Cursor::new(" \t\r\n\u{b}\u{c}\u{a0}x");
    c.skip_ws();
    assert_eq!(c.rest(), "\u{a0}x");
    assert_eq!(c.peek(), Some('x'));
    assert!(!c.eat("x"));
    assert!(!c.is_done());
    let blank = Cursor::new(" \u{2003}\u{3000}\u{85} ");
    assert!(blank.is_done());
    assert_eq!(blank.peek(), None);
}

#[test]
fn peeking_consumes_nothing() {
    let c = Cursor::new("  :x");
    assert_eq!(c.peek(), Some(':'));
    assert_eq!(c.rest(), "  :x");
    let copy = c.clone();
    assert_eq!(copy.rest(), c.rest());
}

#[test]
fn runs_count_bytes_of_wide_characters() {
    let mut c = Cursor::new(" é漢🦀)x");
    assert_eq!(c.take_while(|ch| ch != ')'), "é漢🦀");
    assert_eq!(c.rest(), ")x");
    let err = c.error("here");
    assert_eq!(err.offset(), 1 + 2 + 3 + 4);
    assert_eq!(err.to_text(), "parse error at byte 10: here");
}

#[test]
fn quoted_strings_of_both_quotes() {
    assert_eq!(Cursor::new("'it\\'s \"x\" \\\\ é'").take_quoted().unwrap(), "it's \"x\" \\ é");
    let mut c = Cursor::new("  'a'rest");
    assert_eq!(c.take_quoted().unwrap(), "a");
    assert_eq!(c.rest(), "rest");
    assert_eq!(Cursor::new("\"\"").take_quoted().unwrap(), "");
    let err = Cursor::new("  x").take_quoted().unwrap_err();
    assert_eq!((err.offset(), err.reason()), (2, "expected a quoted string"));
    let err = Cursor::new(" 'x\\'").take_quoted().unwrap_err();
    assert_eq!((err.offset(), err.reason()), (1, "unterminated quoted string"));
}

#[test]
fn malformed_numbers_are_named() {
    let err = Cursor::new(" x").take_number().unwrap_err();
    assert_eq!((err.offset(), err.reason()), (1, "expected a number"));
    let err = Cursor::new("-.").take_number().unwrap_err();
    assert_eq!(err.reason(), "expected a number");
    let mut c = Cursor::new(" 1e2e+3 y");
    let err = c.take_number().unwrap_err();
    assert_eq!((err.offset(), err.reason()), (1, "invalid number `1e2e+3`"));
    assert_eq!(c.rest(), "1e2e+3 y");
    let mut c = Cursor::new("+1.5e-3.7");
    let err = c.take_number().unwrap();
    assert_eq!(err, number(0.0015));
    assert_eq!(c.rest(), ".7");
    let mut c = Cursor::new("5m");
    assert_eq!(c.take_number().unwrap(), number(5.0));
    assert_eq!(c.rest(), "m");
    assert_eq!(Cursor::new("1e400").take_number().unwrap(), number(f64::INFINITY));
}
