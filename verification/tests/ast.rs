//! Windows, scalars and the tokens of the enumerations.

use ddquery_core::{
    ArithOp, Binary64, BoolOp, ChangeKind, CmpOp, FuncKind, FuncParam, MonitorQuery, ParamValue,
    ParseError, Scalar, SpaceAgg, TimeAgg, Window,
};

fn number(x: f64) -> Binary64 {
    Binary64 { bits: x.to_bits() }
}

#[test]
fn test_should_normalize_window() {
    for (raw, seconds, display) in [
        ("last_5m", 300, "last 5 minutes"),
        ("last_1m", 60, "last 1 minute"),
        ("last_1d", 86_400, "last 1 day"),
        ("last_1w", 604_800, "last 1 week"),
        ("last_30s", 30, "last 30 seconds"),
        ("4h", 14_400, "last 4 hours"),
    ] {
        let window = Window::parse(raw).expect("valid window");
        assert_eq!(window.seconds, seconds);
        assert_eq!(window.display, display);
        assert_eq!(window.raw, raw);
    }
}

#[test]
fn test_should_reject_invalid_window() {
    for raw in ["", "last_", "5x", "m", "last_5mm", "abc"] {
        assert!(Window::parse(raw).is_none());
    }
}

#[test]
fn test_should_reject_overflowing_window() {
    assert!(Window::parse("18446744073709551615w").is_none());
}

#[test]
fn test_should_render_scalar_without_trailing_zero() {
    assert_eq!(Scalar::new(number(90.0)).to_text(), "90");
    assert_eq!(Scalar::new(number(0.5)).to_text(), "0.5");
    assert_eq!(Scalar::new(number(-3.0)).to_text(), "-3");
}

#[test]
fn windows_at_the_limit() {
    let w = Window::parse("18446744073709551615s").expect("fits");
    assert_eq!(w.seconds, u64::MAX);
    assert!(Window::parse("18446744073709551616s").is_none());
    let months = Window::parse("current_1mo").expect("months");
    assert_eq!((months.seconds, months.display.as_str()), (2_592_000, "current 1 month"));
    let zero = Window::parse("last_0h").expect("zero");
    assert_eq!((zero.seconds, zero.display.as_str()), (0, "last 0 hours"));
}

#[test]
fn scalars_that_are_not_whole_or_not_finite() {
    assert_eq!(Scalar::new(number(-0.0)).to_text(), "0");
    assert_eq!(Scalar::new(number(0.1)).to_text(), "0.1");
    assert_eq!(Scalar::new(number(1e300)).to_text(), "9223372036854775807");
    assert_eq!(Scalar::new(number(-1e300)).to_text(), "-9223372036854775808");
    assert_eq!(Scalar::new(number(f64::INFINITY)).to_text(), "inf");
    assert_eq!(Scalar::new(number(f64::NEG_INFINITY)).to_text(), "-inf");
    assert_eq!(Scalar::new(number(f64::NAN)).to_text(), "NaN");
    assert_eq!(Scalar::new(number(1e-7)).to_text(), "0.0000001");
}

#[test]
fn tokens_of_all_enumerations() {
    for (t, v) in [
        ("avg", TimeAgg::Avg),
        ("sum", TimeAgg::Sum),
        ("min", TimeAgg::Min),
        ("max", TimeAgg::Max),
        ("count", TimeAgg::Count),
        ("percentile", TimeAgg::Percentile),
    ] {
        assert_eq!(v.as_token(), t);
        assert_eq!(TimeAgg::from_token(t), Some(v));
    }
    for (t, v) in [
        ("anomalies", FuncKind::Anomalies),
        ("outliers", FuncKind::Outliers),
        ("forecast", FuncKind::Forecast),
    ] {
        assert_eq!(v.as_token(), t);
        assert_eq!(FuncKind::from_token(t), Some(v));
    }
    for (t, v) in [
        ("+", ArithOp::Add),
        ("-", ArithOp::Sub),
        ("*", ArithOp::Mul),
        ("/", ArithOp::Div),
    ] {
        assert_eq!(v.as_token(), t);
        assert_eq!(ArithOp::from_token(t), Some(v));
    }
    for (t, v) in [("change", ChangeKind::Change), ("pct_change", ChangeKind::PctChange)] {
        assert_eq!(v.as_token(), t);
        assert_eq!(ChangeKind::from_token(t), Some(v));
    }
    for (t, v) in [("&&", BoolOp::And), ("||", BoolOp::Or)] {
        assert_eq!(v.as_token(), t);
        assert_eq!(BoolOp::from_token(t), Some(v));
    }
    for (t, v) in [
        (">=", CmpOp::Ge),
        ("<=", CmpOp::Le),
        ("==", CmpOp::Eq),
        ("!=", CmpOp::Ne),
        (">", CmpOp::Gt),
        ("<", CmpOp::Lt),
    ] {
        assert_eq!(v.as_token(), t);
        assert_eq!(CmpOp::from_token(t), Some(v));
    }
    assert_eq!(TimeAgg::from_token("Avg"), None);
    assert_eq!(CmpOp::from_token("="), None);
}

#[test]
fn space_aggregations_and_percentiles() {
    assert_eq!(SpaceAgg::from_token("avg"), Some(SpaceAgg::Avg));
    assert_eq!(SpaceAgg::from_token("p95"), Some(SpaceAgg::Percentile("95".into())));
    assert_eq!(SpaceAgg::from_token("p99.9"), Some(SpaceAgg::Percentile("99.9".into())));
    assert_eq!(SpaceAgg::from_token("p100"), Some(SpaceAgg::Percentile("100".into())));
    assert_eq!(SpaceAgg::from_token("p0"), Some(SpaceAgg::Percentile("0".into())));
    for t in ["p", "p100.5", "p-1", "pct", "p1x", "mean", "", "pinf", "pNaN"] {
        assert_eq!(SpaceAgg::from_token(t), None, "{t}");
    }
    for t in ["avg", "sum", "min", "max", "count", "p50", "p99.99"] {
        assert_eq!(SpaceAgg::from_token(t).unwrap().as_token(), t);
    }
}

#[test]
fn parameters_as_text() {
    assert_eq!(ParamValue::Bool(true).to_text(), "true");
    assert_eq!(ParamValue::Bool(false).to_text(), "false");
    assert_eq!(ParamValue::Str("agile".into()).to_text(), "agile");
    assert_eq!(ParamValue::Number(number(5.0)).to_text(), "5");
    assert_eq!(ParamValue::Number(number(0.25)).to_text(), "0.25");
    let p = FuncParam::positional(ParamValue::Bool(true));
    assert_eq!((p.key, p.value), (None, ParamValue::Bool(true)));
    let k = FuncParam::keyword("interval", ParamValue::Number(number(300.0)));
    assert_eq!(k.key.as_deref(), Some("interval"));
    assert_eq!(k.value, ParamValue::Number(number(300.0)));
}

#[test]
fn errors_carry_offset_and_reason() {
    let e = ParseError::new(7, "expected `)`");
    assert_eq!((e.offset(), e.reason()), (7, "expected `)`"));
    assert_eq!(e.to_text(), "parse error at byte 7: expected `)`");
    assert_eq!(e.clone(), e);
    let q = MonitorQuery::unparsed("raw text", &e);
    assert_eq!(
        q,
        MonitorQuery::Unparsed { raw: "raw text".into(), reason: "expected `)`".into(), offset: 7 }
    );
}

#[test]
fn equality_of_numbers_is_that_of_floating_point() {
    assert_eq!(number(0.0), number(-0.0));
    assert_ne!(number(f64::NAN), number(f64::NAN));
    assert_ne!(number(1.0), number(2.0));
}
