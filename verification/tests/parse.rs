//! Syntax trees across every dialect, and the errors.

use ddquery_core::{
    parse, parse_or_unparsed, ArithOp, Binary64, BoolOp, ChangeKind, CmpOp, CompositeExpr, Filter,
    FuncKind, MetricExpr, MetricQuery, MonitorQuery, ParamValue, SearchSource, Series, SpaceAgg,
    TimeAgg,
};

fn number(x: f64) -> Binary64 {
    Binary64 { bits: x.to_bits() }
}

fn metric(query: &str) -> MetricQuery {
    match parse(query) {
        Ok(MonitorQuery::Metric(m)) => m,
        Ok(other) => panic!("expected metric, got {other:?}"),
        Err(e) => panic!("parse failed for `{query}`: {}", e.to_text()),
    }
}

fn series(query: &str) -> Series {
    match metric(query).expr {
        MetricExpr::Series(s) => s,
        other => panic!("expected a series, got {other:?}"),
    }
}

fn failure(query: &str) -> (usize, String) {
    match parse(query) {
        Ok(q) => panic!("`{query}` parsed to {q:?}"),
        Err(e) => (e.offset(), e.reason().to_string()),
    }
}

#[test]
fn test_should_parse_simple_metric_query() {
    let m = metric("avg(last_5m):avg:system.cpu.user{env:production} > 90");
    assert_eq!(m.time_aggregation.as_token(), "avg");
    assert_eq!(m.window.seconds, 300);
    assert_eq!(m.condition.operator, CmpOp::Gt);
    assert_eq!(m.condition.critical.value, number(90.0));

    let MetricExpr::Series(series) = &m.expr else {
        panic!("expected a series expression");
    };
    assert_eq!(series.metric, "system.cpu.user");
    assert_eq!(series.space_aggregation.as_token(), "avg");
    assert_eq!(
        series.filter,
        vec![Filter::Tag {
            negated: false,
            key: "env".into(),
            value: "production".into(),
        }]
    );
}

#[test]
fn test_should_parse_flagship_anomaly_query() {
    let q = "avg(last_1d):anomalies(sum:app.service.latency{platform:macos , \
             country:us}.as_count(), 'agile', 5, direction='below', interval=300, \
             alert_window='last_4h', count_default_zero='true', seasonality='daily', \
             timezone='America/Los_Angeles') >= 1";
    let m = metric(q);
    assert_eq!(m.condition.operator, CmpOp::Ge);

    let MetricExpr::Function { name, arg, params } = &m.expr else {
        panic!("expected a function expression");
    };
    assert_eq!(*name, FuncKind::Anomalies);

    // Positional params come first, then keywords.
    assert_eq!(params[0].key, None);
    assert_eq!(params[0].value, ParamValue::Str("agile".into()));
    assert_eq!(params[1].key, None);
    assert_eq!(params[1].value, ParamValue::Number(number(5.0)));
    assert_eq!(params[2].key.as_deref(), Some("direction"));
    assert_eq!(params[2].value, ParamValue::Str("below".into()));

    let MetricExpr::Series(series) = arg.as_ref() else {
        panic!("anomaly arg should be a series");
    };
    assert_eq!(series.metric, "app.service.latency");
    assert_eq!(series.filter.len(), 2);
    assert_eq!(series.modifiers[0].name, "as_count");
}

#[test]
fn test_should_treat_comma_and_space_filter_separators_equivalently() {
    for filter in [
        "{platform:macos , country:us}",
        "{platform:macos,country:us}",
        "{platform:macos country:us}",
    ] {
        let s = series(&format!("avg(last_5m):sum:app.metric{filter} > 1"));
        assert_eq!(s.filter.len(), 2);
    }
}

#[test]
fn test_should_parse_negated_wildcard_and_glob_filters() {
    // `!result:ok` is a negated tag; `*` matches all; `service:web-*` is a tag
    // with a wildcard value; a colon-less `web-pool` is a bare glob.
    let m = metric("avg(last_5m):sum:app.metric{!result:ok, *, service:web-*, web-pool} > 1");
    let MetricExpr::Series(series) = &m.expr else {
        panic!("expected a series");
    };
    assert_eq!(
        series.filter,
        vec![
            Filter::Tag {
                negated: true,
                key: "result".into(),
                value: "ok".into(),
            },
            Filter::All,
            Filter::Tag {
                negated: false,
                key: "service".into(),
                value: "web-*".into(),
            },
            Filter::Glob("web-pool".into()),
        ]
    );
}

#[test]
fn test_should_parse_group_by_and_modifiers() {
    let m = metric(
        "sum(last_15m):sum:app.service.requests{*} by {host, route}.as_count().rollup(sum, 60) > 5",
    );
    let MetricExpr::Series(series) = &m.expr else {
        panic!("expected a series");
    };
    assert_eq!(series.group_by, vec!["host", "route"]);
    assert_eq!(series.modifiers.len(), 2);
    assert_eq!(series.modifiers[0].name, "as_count");
    assert_eq!(series.modifiers[1].name, "rollup");
    assert_eq!(series.modifiers[1].args, vec!["sum", "60"]);
}

#[test]
fn test_should_honor_arithmetic_precedence() {
    // a + b * c  ⇒  a + (b * c)
    let m = metric("sum(last_5m):sum:a.x{*} + sum:b.x{*} * sum:c.x{*} > 1");
    let MetricExpr::Arith { op, rhs, .. } = &m.expr else {
        panic!("expected arithmetic at the root");
    };
    assert_eq!(*op, ArithOp::Add);
    assert!(matches!(
        rhs.as_ref(),
        MetricExpr::Arith {
            op: ArithOp::Mul,
            ..
        }
    ));
}

#[test]
fn test_should_respect_explicit_parentheses() {
    let m = metric("sum(last_5m):(sum:a.x{*}.as_count() / sum:b.x{*}.as_count()) * 100 > 5");
    let MetricExpr::Arith { op, lhs, .. } = &m.expr else {
        panic!("expected arithmetic at the root");
    };
    assert_eq!(*op, ArithOp::Mul);
    assert!(matches!(
        lhs.as_ref(),
        MetricExpr::Arith {
            op: ArithOp::Div,
            ..
        }
    ));
}

#[test]
fn test_should_parse_nested_outlier_over_median_transform() {
    let m = metric(
        "avg(last_5m):outliers(median_5(sum:app.service.requests{*} by {host}.as_count()), \
         'DBSCAN', 3) >= 1",
    );
    let MetricExpr::Function { name, arg, params } = &m.expr else {
        panic!("expected a function");
    };
    assert_eq!(*name, FuncKind::Outliers);
    assert_eq!(params[0].value, ParamValue::Str("DBSCAN".into()));
    assert_eq!(params[1].value, ParamValue::Number(number(3.0)));
    assert!(matches!(arg.as_ref(), MetricExpr::Transform { .. }));
}

#[test]
fn test_should_parse_change_metric() {
    let m = metric("change(avg(last_5m),last_1h):avg:system.load.1{*} > 10");
    assert_eq!(m.window.seconds, 300);
    let MetricExpr::Change {
        kind, shift, arg, ..
    } = &m.expr
    else {
        panic!("expected a change node");
    };
    assert_eq!(*kind, ChangeKind::Change);
    assert_eq!(shift.seconds, 3600);
    assert!(matches!(arg.as_ref(), MetricExpr::Series(_)));
}

#[test]
fn test_should_parse_log_search_query() {
    let q = r#"logs("status:error @http.status_code:403").index("main").rollup("count").by("service").last("5m") > 100"#;
    let MonitorQuery::Search(s) = parse(q).unwrap() else {
        panic!("expected a search query");
    };
    assert_eq!(s.source, SearchSource::Logs);
    assert_eq!(s.raw_search, "status:error @http.status_code:403");
    assert_eq!(s.index.as_deref(), Some("main"));
    assert_eq!(s.rollup_method, "count");
    assert_eq!(s.group_by, vec!["service"]);
    assert_eq!(s.last, "5m");
    assert_eq!(s.condition.operator, CmpOp::Gt);
}

#[test]
fn test_should_parse_error_tracking_source() {
    let q = r#"error-tracking("@issue.id:abc").rollup("count").last("1h") >= 5"#;
    let MonitorQuery::Search(s) = parse(q).unwrap() else {
        panic!("expected a search query");
    };
    assert_eq!(s.source, SearchSource::ErrorTracking);
    assert!(s.index.is_none());
}

#[test]
fn test_should_parse_service_check_query() {
    let q = r#""datadog.agent.up".over("env:prod").by("host").last(3).count_by_status()"#;
    let MonitorQuery::ServiceCheck(c) = parse(q).unwrap() else {
        panic!("expected a check query");
    };
    assert_eq!(c.check, "datadog.agent.up");
    assert_eq!(c.over, vec!["env:prod"]);
    assert_eq!(c.by, vec!["host"]);
    assert_eq!(c.last, 3);
}

#[test]
fn test_should_parse_slo_query() {
    let MonitorQuery::Slo(s) = parse(r#"error_budget("slo-123").over("7d") > 0.5"#).unwrap() else {
        panic!("expected an SLO query");
    };
    assert_eq!(s.id, "slo-123");
    assert_eq!(s.over, "7d");
    assert_eq!(s.condition.critical.value, number(0.5));
}

#[test]
fn test_should_parse_composite_with_precedence() {
    // && binds tighter than || ⇒ (123 && !456) || 789
    let MonitorQuery::Composite(c) = parse("123 && !456 || 789").unwrap() else {
        panic!("expected a composite query");
    };
    let CompositeExpr::Binary { op, lhs, rhs } = &c else {
        panic!("expected a binary root");
    };
    assert_eq!(op.as_token(), "||");
    assert!(matches!(rhs.as_ref(), CompositeExpr::Ref(r) if r.id == "789"));
    assert!(matches!(
        lhs.as_ref(),
        CompositeExpr::Binary { op, .. } if op.as_token() == "&&"
    ));
}

#[test]
fn test_should_parse_parenthesized_composite() {
    let MonitorQuery::Composite(c) = parse("123 && (456 || 789)").unwrap() else {
        panic!("expected a composite query");
    };
    let CompositeExpr::Binary { op, rhs, .. } = &c else {
        panic!("expected a binary root");
    };
    assert_eq!(op.as_token(), "&&");
    assert!(matches!(
        rhs.as_ref(),
        CompositeExpr::Binary { op, .. } if op.as_token() == "||"
    ));
}

#[test]
fn test_should_return_error_not_panic() {
    for query in [
        "",
        "avg(last_5m)",
        "avg(last_5m):",
        "avg(last_5m):avg:metric{} >",
        "notakeyword(last_5m):avg:x{*} > 1",
        "avg(bogus):avg:x{*} > 1",
        "logs(\"x\").last(\"5m\") > 1",
    ] {
        let err = parse(query).unwrap_err();
        assert!(!err.reason().is_empty());
    }
}

#[test]
fn test_should_reject_unbalanced_parens_with_offset() {
    let err = parse("sum(last_5m):(sum:a.x{*} > 1").unwrap_err();
    assert!(err.reason().contains("expected `)`"), "{}", err.reason());
}

#[test]
fn test_should_degrade_unparsable_query_to_unparsed() {
    let q = "some brand new datadog syntax we don't model yet";
    let parsed = parse_or_unparsed(q);
    let MonitorQuery::Unparsed { raw, reason, .. } = parsed else {
        panic!("expected unparsed");
    };
    assert_eq!(raw, q);
    assert!(!reason.is_empty());
}

#[test]
fn test_should_reject_pathologically_nested_input() {
    let deep = format!(
        "sum(last_5m):{}sum:a.x{{*}}{} > 1",
        "(".repeat(500),
        ")".repeat(500)
    );
    // Must return an error, never overflow the stack.
    assert!(parse(&deep).is_err());
}

#[test]
fn readme_example_parses() {
    let ast = parse("avg(last_5m):avg:system.cpu.user{env:production} > 90").unwrap();
    assert!(matches!(ast, MonitorQuery::Metric(_)));
    let q = parse_or_unparsed("this is not a valid query !!!");
    assert!(matches!(q, MonitorQuery::Unparsed { .. }));
}

#[test]
fn transforms_take_numbers_strings_and_words() {
    let m = metric("avg(last_5m):moving_rollup(avg:a{*}, 60, 'avg') > 1");
    let MetricExpr::Transform { name, arg, args } = m.expr else {
        panic!("expected a transform");
    };
    assert_eq!(name, "moving_rollup");
    assert!(matches!(*arg, MetricExpr::Series(_)));
    assert_eq!(args, vec![ParamValue::Number(number(60.0)), ParamValue::Str("avg".into())]);
    let m = metric("avg(last_5m):clamp_min(clamp_max(avg:a{*}, 10), -1.5) > 1");
    let MetricExpr::Transform { name, arg, args } = m.expr else {
        panic!("expected a transform");
    };
    assert_eq!((name.as_str(), args), ("clamp_min", vec![ParamValue::Number(number(-1.5))]));
    assert!(matches!(*arg, MetricExpr::Transform { .. }));
    let m = metric("avg(last_5m):top(avg:a{*}, true, mean) > 1");
    let MetricExpr::Transform { args, .. } = m.expr else {
        panic!("expected a transform");
    };
    assert_eq!(args, vec![ParamValue::Bool(true), ParamValue::Str("mean".into())]);
}

#[test]
fn aggregators_combine_several_expressions() {
    let m = metric("avg(last_5m):max(avg:a{*}, avg:b{*} + 1, 2) > 1");
    let MetricExpr::Combine { name, args } = m.expr else {
        panic!("expected a combination");
    };
    assert_eq!(name, "max");
    assert_eq!(args.len(), 3);
    assert!(matches!(args[0], MetricExpr::Series(_)));
    assert!(matches!(args[1], MetricExpr::Arith { op: ArithOp::Add, .. }));
    assert!(matches!(args[2], MetricExpr::Scalar(_)));
    for (text, numbers) in [("sum(avg:a{*})", vec![]), ("min(avg:a{*}, 5, 6)", vec![5.0, 6.0])] {
        let m = metric(&format!("avg(last_5m):{text} > 1"));
        let MetricExpr::Transform { args, .. } = m.expr else {
            panic!("expected a transform");
        };
        let expected: Vec<ParamValue> =
            numbers.into_iter().map(|x| ParamValue::Number(number(x))).collect();
        assert_eq!(args, expected);
    }
}

#[test]
fn percentiles_whole_and_fractional() {
    let s = series("avg(last_5m):p95:trace.latency{*} > 1");
    assert_eq!(s.space_aggregation, SpaceAgg::Percentile("95".into()));
    let s = series("avg(last_5m):p99.9:trace.latency{*} > 1");
    assert_eq!(s.space_aggregation, SpaceAgg::Percentile("99.9".into()));
    assert_eq!(s.metric, "trace.latency");
    let (at, reason) = failure("avg(last_5m):p100.5:x{*} > 1");
    assert_eq!((at, reason.as_str()), (19, "invalid space aggregation `p100.5`"));
    let (_, reason) = failure("avg(last_5m):p99.9(x) > 1");
    assert_eq!(reason, "expected `:` or `(` after `p99`");
}

#[test]
fn metric_names_stop_before_modifiers() {
    let s = series("avg(last_5m):avg:a.b.rollup(sum, 'x y').fill() > 1");
    assert_eq!(s.metric, "a.b");
    assert_eq!(s.modifiers.len(), 2);
    assert_eq!(s.modifiers[0].args, vec!["sum", "x y"]);
    assert_eq!(s.modifiers[1].name, "fill");
    assert!(s.modifiers[1].args.is_empty());
    assert!(s.filter.is_empty());
}

#[test]
fn subtraction_and_division_associate_to_the_left() {
    let m = metric("sum(last_5m):1 - 2 - 3 * 4 / 5 > 1");
    let MetricExpr::Arith { op: ArithOp::Sub, lhs, rhs } = m.expr else {
        panic!("expected a difference");
    };
    assert!(matches!(*lhs, MetricExpr::Arith { op: ArithOp::Sub, .. }));
    let MetricExpr::Arith { op: ArithOp::Div, lhs, .. } = *rhs else {
        panic!("expected a quotient");
    };
    assert!(matches!(*lhs, MetricExpr::Arith { op: ArithOp::Mul, .. }));
}

#[test]
fn change_queries_of_both_kinds() {
    let m = metric("pct_change(sum(last_10m),current_1mo):sum:a{*} <= -5e1");
    assert_eq!(m.time_aggregation, TimeAgg::Sum);
    assert_eq!(m.condition.operator, CmpOp::Le);
    assert_eq!(m.condition.critical.value, number(-50.0));
    let MetricExpr::Change { kind, inner_agg, shift, .. } = m.expr else {
        panic!("expected a change");
    };
    assert_eq!((kind, inner_agg, shift.seconds), (ChangeKind::PctChange, TimeAgg::Sum, 2_592_000));
}

#[test]
fn search_methods_replace_earlier_calls() {
    let q = r#"rum("x").index("").rollup("avg", "@d").rollup("count").by("a", "b").last("1h").last("2h") == 3"#;
    let MonitorQuery::Search(s) = parse(q).unwrap() else {
        panic!("expected a search");
    };
    assert_eq!(s.source, SearchSource::Rum);
    assert_eq!(s.index, None);
    assert_eq!((s.rollup_method.as_str(), s.rollup_arg), ("count", None));
    assert_eq!(s.group_by, vec!["a", "b"]);
    assert_eq!(s.last, "2h");
    assert_eq!(s.condition.operator, CmpOp::Eq);
}

#[test]
fn composite_operators_nest_to_the_left() {
    let MonitorQuery::Composite(c) = parse("!(1 || 2) && 3 && 4").unwrap() else {
        panic!("expected a composite");
    };
    let CompositeExpr::Binary { op: BoolOp::And, lhs, rhs } = c else {
        panic!("expected a conjunction");
    };
    assert!(matches!(*rhs, CompositeExpr::Ref(r) if r.id == "4"));
    let CompositeExpr::Binary { op: BoolOp::And, lhs, .. } = *lhs else {
        panic!("expected a conjunction");
    };
    assert!(matches!(*lhs, CompositeExpr::Not(_)));
}

#[test]
fn every_error_has_its_place_and_reason() {
    for (query, at, reason) in [
        ("  \t", 0, "empty query"),
        ("\u{3000}", 0, "empty query"),
        (" ;", 1, "unrecognized query"),
        (" nope(x)", 1, "unrecognized query head `nope`"),
        ("\u{a0}avg(last_5m):avg:a{*} > 1", 0, "unrecognized query"),
        ("avg(last_5m)", 12, "expected `:`"),
        ("avg x", 4, "expected `(`"),
        ("avg-x(last_5m):avg:a{*} > 1", 0, "unrecognized query head `avg-x`"),
        ("avg(last_5q):avg:a{*} > 1", 11, "invalid window `last_5q`"),
        ("avg(last_5m:avg:a{*} > 1", 11, "expected `)`"),
        ("avg(last_5m)avg:a{*} > 1", 12, "expected `:`"),
        ("avg(last_5m): ", 13, "unexpected end of expression"),
        ("avg(last_5m):é", 13, "expected an identifier"),
        ("avg(last_5m):mean:a{*} > 1", 17, "invalid space aggregation `mean`"),
        ("avg(last_5m):avg > 1", 16, "expected `:` or `(` after `avg`"),
        ("avg(last_5m):avg:{*} > 1", 17, "expected a metric name"),
        ("avg(last_5m):avg:a{x:y > 1", 26, "expected `}`"),
        ("avg(last_5m):avg:a by host > 1", 22, "expected `{`"),
        ("avg(last_5m):avg:a.fill(", 24, "expected `)`"),
        ("avg(last_5m):avg:a{*}.fill( 'x", 28, "unterminated quoted string"),
        ("avg(last_5m):anomalies(avg:a{*},) > 1", 32, "expected an identifier"),
        ("avg(last_5m):anomalies(avg:a{*},", 32, "expected a function parameter"),
        ("avg(last_5m):anomalies(avg:a{*}, x=", 35, "expected a parameter value"),
        ("avg(last_5m):abs(avg:a{*},", 26, "expected a parameter value"),
        ("avg(last_5m):avg:a{*} ! 1", 22, "expected a comparison operator"),
        ("avg(last_5m):avg:a{*} = 1", 22, "expected a comparison operator"),
        ("avg(last_5m):avg:a{*} > x", 24, "expected a number"),
        ("avg(last_5m):avg:a{*} > 1ee", 24, "invalid number `1ee`"),
        ("avg(last_5m):avg:a{*} > 1 x", 26, "unexpected trailing input"),
        ("change(mode(last_5m),last_1h):avg:a{*} > 1", 11, "invalid time aggregation `mode`"),
        ("change(avg(last_5m) last_1h):avg:a{*} > 1", 20, "expected `,`"),
        ("logs('x').frob() > 1", 16, "unknown search method `frob`"),
        ("logs('x').last('5m') > 1", 21, "search query missing `.rollup(...)`"),
        ("logs('x').rollup('count') > 1", 26, "search query missing `.last(...)`"),
        ("logs(x)", 5, "expected a quoted string"),
        ("\"c\".frob()", 9, "unknown check method `frob`"),
        ("\"c\".count_by_status()", 21, "check query missing `.last(n)`"),
        ("\"c\".last(3)", 11, "check query missing `.count_by_status()`"),
        ("\"c\".last(1.5)", 13, "`.last(n)` must be a non-negative integer"),
        ("\"c\".last(-1)", 12, "`.last(n)` must be a non-negative integer"),
        ("\"c\".last(4294967296)", 20, "`.last(n)` must be a non-negative integer"),
        ("error_budget(\"i\").under(\"7d\") > 1", 23, "expected `.over(...)`, found `.under`"),
        ("1 && ", 5, "expected a monitor id"),
        ("(1 || 2", 7, "expected `)`"),
    ] {
        assert_eq!(failure(query), (at, reason.to_string()), "{query}");
    }
}

#[test]
fn every_comparison_operator_parses() {
    for (token, op) in [
        (">=", CmpOp::Ge),
        ("<=", CmpOp::Le),
        ("==", CmpOp::Eq),
        ("!=", CmpOp::Ne),
        (">", CmpOp::Gt),
        ("<", CmpOp::Lt),
    ] {
        let m = metric(&format!("avg(last_5m):avg:a{{*}} {token} 5"));
        assert_eq!(m.condition.operator, op);
        assert_eq!(m.condition.critical.value, number(5.0));
        let q = format!("error_budget(\"i\").over(\"7d\"){token}5");
        let MonitorQuery::Slo(s) = parse(&q).unwrap() else {
            panic!("expected an SLO query");
        };
        assert_eq!(s.condition.operator, op);
    }
}

#[test]
fn the_greatest_number_of_runs() {
    let q = r#""c".last(4294967295).count_by_status()"#;
    let MonitorQuery::ServiceCheck(c) = parse(q).unwrap() else {
        panic!("expected a check");
    };
    assert_eq!(c.last, u32::MAX);
    assert!(c.over.is_empty() && c.by.is_empty());
}

#[test]
fn nesting_is_bounded_exactly() {
    let nested = |n: usize| format!("sum(last_5m):{}1{} > 1", "(".repeat(n), ")".repeat(n));
    assert!(parse(&nested(128)).is_ok());
    assert_eq!(failure(&nested(129)).1, "maximum nesting depth exceeded");
    assert_eq!(failure(&nested(129)).0, 13 + 129);
    let negated = |n: usize| format!("{}1", "!".repeat(n));
    assert!(parse(&negated(128)).is_ok());
    assert_eq!(failure(&negated(129)), (129, "maximum nesting depth exceeded".to_string()));
    let grouped = |n: usize| format!("{}1{}", "(".repeat(n), ")".repeat(n));
    assert!(parse(&grouped(128)).is_ok());
    assert_eq!(failure(&grouped(129)).1, "maximum nesting depth exceeded");
}

#[test]
fn white_space_around_tokens_does_not_matter() {
    let a = parse("avg(last_5m):avg:a.b{x:y}by{z}>1").unwrap();
    let b = parse(" avg ( last_5m ) : avg : a.b { x:y } by { z } > 1 \n").unwrap();
    assert_eq!(a, b);
}
