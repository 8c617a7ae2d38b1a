//! The English explanations and the structured summaries, one per dialect and
//! the hard cases.

use ddquery_core::{
    explain, parse, parse_or_unparsed, summarize, Binary64, CmpOp, Condition, FuncKind, FuncParam,
    KeyVal, MetricExpr, MetricQuery, MonitorQuery, ParamValue, QuerySummary, Scalar, TimeAgg,
    Window,
};

const CORPUS: [(&str, &str); 9] = [
    (
        "avg(last_5m):avg:system.cpu.user{env:production, service:web} > 90",
        "Alert if the average over the 5 minutes of avg of `system.cpu.user` (env:production, \
         service:web) is > 90.",
    ),
    (
        "avg(last_1d):anomalies(sum:app.service.latency{platform:macos , country:us}.as_count(), \
         'agile', 5, direction='below', interval=300, seasonality='daily') >= 1",
        "Alert if the average over the 1 day of anomaly detection (algorithm agile, ~5σ, \
         direction below, daily seasonality) (sum of `app.service.latency` (platform:macos, \
         country:us)) is ≥ 1.",
    ),
    (
        "avg(last_5m):outliers(median_5(sum:app.service.requests{*} by {host}.as_count()), \
         'DBSCAN', 3) >= 1",
        "Alert if the average over the 5 minutes of outlier detection (algorithm DBSCAN, \
         tolerance 3) (5-point median of sum of `app.service.requests` by host) is ≥ 1.",
    ),
    (
        "sum(last_5m):(sum:app.service.errors{*}.as_count() / \
         sum:app.service.requests{*}.as_count()) * 100 > 5",
        "Alert if the sum over the 5 minutes of ((sum of `app.service.errors` ÷ sum of \
         `app.service.requests`) × 100) is > 5.",
    ),
    (
        "change(avg(last_5m),last_1h):avg:system.load.1{*} > 10",
        "Alert if the average over the 5 minutes of change over last 1 hour of avg of \
         `system.load.1` is > 10.",
    ),
    (
        r#"logs("status:error @http.status_code:403").index("main").rollup("count").by("service").last("5m") > 100"#,
        "Over 5m, count log events matching `status:error @http.status_code:403`, grouped by \
         service (rollup count), alert > 100.",
    ),
    (
        r#""datadog.agent.up".over("env:prod").by("host").last(3).count_by_status()"#,
        "Evaluates the status of service check `datadog.agent.up` over its last 3 runs grouped \
         by host.",
    ),
    (
        r#"error_budget("slo-123").over("7d") > 0.5"#,
        "Alerts when the error budget for SLO `slo-123` over 7d is > 0.5.",
    ),
    (
        "123 && !456 || 789",
        "Alerts when this boolean condition over other monitors holds: ((#123 && !#456) || #789).",
    ),
];

fn text(query: &str) -> String {
    match parse(query) {
        Ok(ast) => explain(&ast),
        Err(e) => panic!("`{query}` failed: {}", e.to_text()),
    }
}

fn summary(query: &str) -> QuerySummary {
    match parse(query) {
        Ok(ast) => summarize(&ast, query),
        Err(e) => panic!("`{query}` failed: {}", e.to_text()),
    }
}

fn tag(key: &str, value: &str, negated: bool) -> KeyVal {
    KeyVal { key: key.into(), value: value.into(), negated }
}

fn words(list: &[&str]) -> Vec<String> {
    list.iter().map(|w| w.to_string()).collect()
}

fn some(s: &str) -> Option<String> {
    Some(s.to_string())
}

#[test]
fn test_explain_snapshots() {
    for (query, expected) in CORPUS {
        assert_eq!(text(query), expected, "{query}");
    }
}

#[test]
fn test_summarize_snapshots() {
    let expected = vec![
        QuerySummary {
            headline: "Threshold alert on system.cpu.user".into(),
            metric: some("system.cpu.user"),
            scope: vec![tag("env", "production", false), tag("service", "web", false)],
            group_by: vec![],
            window: some("last 5 minutes"),
            evaluation: None,
            condition: some("> 90"),
            raw: CORPUS[0].0.into(),
        },
        QuerySummary {
            headline: "Anomaly detection on app.service.latency".into(),
            metric: some("app.service.latency"),
            scope: vec![tag("platform", "macos", false), tag("country", "us", false)],
            group_by: vec![],
            window: some("last 1 day"),
            evaluation: some(
                "anomaly detection (algorithm agile, ~5σ, direction below, daily seasonality)",
            ),
            condition: some("≥ 1"),
            raw: CORPUS[1].0.into(),
        },
        QuerySummary {
            headline: "Outlier detection on app.service.requests".into(),
            metric: some("app.service.requests"),
            scope: vec![],
            group_by: words(&["host"]),
            window: some("last 5 minutes"),
            evaluation: some("outlier detection (algorithm DBSCAN, tolerance 3)"),
            condition: some("≥ 1"),
            raw: CORPUS[2].0.into(),
        },
        QuerySummary {
            headline: "Threshold alert on app.service.errors".into(),
            metric: some("app.service.errors"),
            scope: vec![],
            group_by: vec![],
            window: some("last 5 minutes"),
            evaluation: None,
            condition: some("> 5"),
            raw: CORPUS[3].0.into(),
        },
        QuerySummary {
            headline: "Change on system.load.1".into(),
            metric: some("system.load.1"),
            scope: vec![],
            group_by: vec![],
            window: some("last 5 minutes"),
            evaluation: some("change over last 1 hour"),
            condition: some("> 10"),
            raw: CORPUS[4].0.into(),
        },
        QuerySummary {
            headline: "Log search".into(),
            metric: some("status:error @http.status_code:403"),
            scope: vec![],
            group_by: words(&["service"]),
            window: some("5m"),
            evaluation: some("rollup count"),
            condition: some("> 100"),
            raw: CORPUS[5].0.into(),
        },
        QuerySummary {
            headline: "Service check `datadog.agent.up`".into(),
            metric: None,
            scope: vec![],
            group_by: words(&["host"]),
            window: None,
            evaluation: None,
            condition: some("last 3 runs by status"),
            raw: CORPUS[6].0.into(),
        },
        QuerySummary {
            headline: "SLO error budget `slo-123`".into(),
            metric: None,
            scope: vec![],
            group_by: vec![],
            window: some("7d"),
            evaluation: None,
            condition: some("> 0.5"),
            raw: CORPUS[7].0.into(),
        },
        QuerySummary {
            headline: "Composite monitor".into(),
            metric: None,
            scope: vec![],
            group_by: vec![],
            window: None,
            evaluation: None,
            condition: some("((#123 && !#456) || #789)"),
            raw: CORPUS[8].0.into(),
        },
    ];
    for (entry, want) in CORPUS.iter().zip(expected) {
        let got = summary(entry.0);
        assert_eq!(got, want);
        assert_eq!(got.clone(), got);
    }
}

#[test]
fn test_unparsed_explains_gracefully() {
    let ast = parse_or_unparsed("totally unknown syntax");
    let text = explain(&ast);
    assert!(text.contains("could not be parsed"));
    let summary = summarize(&ast, "totally unknown syntax");
    assert_eq!(summary.headline, "Raw Datadog query");
    assert_eq!(summary.raw, "totally unknown syntax");
}

#[test]
fn unparsed_text_gives_the_reason() {
    let ast = parse_or_unparsed("totally unknown syntax");
    assert_eq!(
        explain(&ast),
        "Raw Datadog query (could not be parsed: unrecognized query head `totally`)."
    );
}

#[test]
fn readme_flagship_text() {
    assert_eq!(
        text(
            "avg(last_1d):anomalies(sum:app.service.latency{platform:macos, \
             country:us}.as_count(), 'agile', 5, direction='below') >= 1"
        ),
        "Alert if the average over the 1 day of anomaly detection (algorithm agile, ~5σ, \
         direction below) (sum of `app.service.latency` (platform:macos, country:us)) is ≥ 1."
    );
    assert!(text("avg(last_5m):avg:system.cpu.user{env:prod} > 90").contains("system.cpu.user"));
}

#[test]
fn transforms_read_as_phrases() {
    for (name, phrase) in [
        ("median_7", "7-point median"),
        ("ewma_3", "3-point EWMA"),
        ("rollup", "rollup"),
        ("clamp_min", "lower-clamped value"),
        ("clamp_max", "upper-clamped value"),
        ("abs", "absolute value"),
        ("count_nonzero", "non-zero count"),
        ("moving_rollup_x", "moving rollup x"),
    ] {
        assert_eq!(
            text(&format!("max(last_5m):{name}(max:a{{*}}) < 1")),
            format!("Alert if the maximum over the 5 minutes of {phrase} of max of `a` is < 1.")
        );
    }
}

#[test]
fn functions_read_with_their_defaults() {
    let phrase = |call: &str| {
        summary(&format!("min(last_5m):{call} == 1")).evaluation.unwrap_or_default()
    };
    assert_eq!(
        phrase("anomalies(avg:a{*})"),
        "anomaly detection (algorithm basic, direction both)"
    );
    assert_eq!(
        phrase("anomalies(avg:a{*}, direction='', x, 2.5, direction='below')"),
        "anomaly detection (algorithm x, ~2.5σ, direction both)"
    );
    assert_eq!(
        phrase("anomalies(avg:a{*}, 5, direction=true, seasonality=7)"),
        "anomaly detection (algorithm basic, direction true)"
    );
    assert_eq!(phrase("outliers(avg:a{*}, 'mad')"), "outlier detection (algorithm mad)");
    assert_eq!(phrase("forecast(avg:a{*}, 'seasonal', 1)"), "forecast (algorithm seasonal)");
    assert_eq!(phrase("forecast(avg:a{*}, k='v')"), "forecast (algorithm linear)");
}

#[test]
fn headlines_name_the_top_function() {
    let headline = |expr: &str| summary(&format!("avg(last_5m):{expr} >= 2")).headline;
    assert_eq!(headline("abs(forecast(avg:a{*}))"), "Forecast alert on a");
    assert_eq!(headline("1 + outliers(avg:b{*})"), "Outlier detection on b");
    assert_eq!(headline("max(avg:c{*}, anomalies(avg:d{*}))"), "Anomaly detection on c");
    assert_eq!(headline("1 + 2"), "Threshold alert on metric");
    assert_eq!(
        summary("pct_change(avg(last_5m),last_1h):avg:e{*} > 1").headline,
        "Percentage change on e"
    );
    assert_eq!(
        summary("change(avg(last_5m),last_1h):anomalies(avg:e{*}) > 1").headline,
        "Anomaly detection on e"
    );
}

#[test]
fn combinations_and_filters_read_in_order() {
    assert_eq!(
        text("count(last_1w):max(p99.9:a{!x:y, *, z:w, g} by {h,i}, avg:b{*}) > 1"),
        "Alert if the count over the 1 week of max of (p99.9 of `a` (not x:y, z:w) by h, i, avg \
         of `b`) is > 1."
    );
    let s = summary("count(last_1w):max(p99.9:a{!x:y, *, z:w, g} by {h,i}, avg:b{*}) > 1");
    assert_eq!(s.scope, vec![tag("x", "y", true), tag("z", "w", false)]);
    assert_eq!(s.group_by, words(&["h", "i"]));
    assert_eq!(s.evaluation, None);
}

#[test]
fn searches_without_grouping() {
    for (source, noun, label) in [
        ("logs", "log events", "Log"),
        ("events", "events", "Event"),
        ("rum", "RUM events", "RUM"),
        ("error-tracking", "tracked errors", "Error-tracking"),
    ] {
        let q = format!("{source}('x').rollup('avg').last('2h') <= 1.25");
        assert_eq!(text(&q), format!("Over 2h, count {noun} matching `x` (rollup avg), alert ≤ 1.25."));
        assert_eq!(summary(&q).headline, format!("{label} search"));
    }
    assert_eq!(
        text("\"up\".last(1).count_by_status()"),
        "Evaluates the status of service check `up` over its last 1 runs."
    );
}

#[test]
fn trees_that_no_query_gives() {
    let q = MonitorQuery::Metric(MetricQuery {
        time_aggregation: TimeAgg::Percentile,
        window: Window { raw: "w".into(), seconds: 1, display: "last last current x".into() },
        expr: MetricExpr::Function {
            name: FuncKind::Outliers,
            arg: Box::new(MetricExpr::Combine { name: "none".into(), args: vec![] }),
            params: vec![
                FuncParam::keyword("a", ParamValue::Bool(false)),
                FuncParam::positional(ParamValue::Bool(true)),
                FuncParam::positional(ParamValue::Number(Binary64 { bits: 1e21f64.to_bits() })),
            ],
        },
        condition: Condition {
            operator: CmpOp::Ne,
            critical: Scalar::new(Binary64 { bits: 1.5f64.to_bits() }),
            critical_recovery: None,
            warning: None,
            warning_recovery: None,
        },
    });
    assert_eq!(
        explain(&q),
        "Alert if the percentile over the current x of outlier detection (algorithm DBSCAN, \
         tolerance 9223372036854775807) (none of ()) is ≠ 1.5."
    );
    assert_eq!(q.clone(), q);
}
