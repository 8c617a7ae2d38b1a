//! Any input gives a value, an explanation and a summary.

use ddquery_core::{explain, parse, parse_or_unparsed, summarize, MonitorQuery};

struct Random(u64);

impl Random {
    fn next(&mut self, below: u64) -> u64 {
        self.0 = self.0.wrapping_mul(6364136223846793005).wrapping_add(1442695040888963407);
        (self.0 >> 33) % below
    }
}

fn check(input: &str) {
    let parsed = parse_or_unparsed(input);
    match parse(input) {
        Ok(q) => {
            assert_eq!(q, parsed);
            assert!(!matches!(q, MonitorQuery::Unparsed { .. }));
        }
        Err(e) => {
            assert!(input.is_char_boundary(e.offset()));
            assert!(!e.reason().is_empty() && !e.reason().contains('\n'));
            assert_eq!(
                parsed,
                MonitorQuery::Unparsed {
                    raw: input.to_string(),
                    reason: e.reason().to_string(),
                    offset: e.offset(),
                }
            );
        }
    }
    assert!(!explain(&parsed).is_empty());
    assert_eq!(summarize(&parsed, input).raw, input);
}

#[test]
fn prop_arbitrary_input_never_panics() {
    let mut r = Random(7);
    for _ in 0..4096 {
        let n = r.next(40);
        let mut input = String::new();
        for _ in 0..n {
            let c = match r.next(4) {
                0 => char::from_u32(r.next(0x80) as u32),
                1 => char::from_u32(r.next(0x800) as u32),
                2 => char::from_u32(r.next(0x10000) as u32),
                _ => char::from_u32(r.next(0x110000) as u32),
            };
            input.push(c.unwrap_or('?'));
        }
        check(&input);
    }
}

#[test]
fn prop_query_flavored_input_never_panics() {
    let parts = [
        "avg", "sum", "last_5m", "(", ")", "{", "}", ":", ".", ",", "*", ">", ">=", "&&", "!",
        "123", "anomalies", "by", "'agile'", "metric.name", "\"", "=",
    ];
    let mut r = Random(11);
    for _ in 0..4096 {
        let n = r.next(40);
        let mut input = String::new();
        for _ in 0..n {
            input.push_str(parts[r.next(parts.len() as u64) as usize]);
        }
        check(&input);
    }
}

#[test]
fn prefixes_and_mutations_of_a_query_never_panic() {
    let query = "avg(last_1d):anomalies(max(sum:a.b{x:y , z}.as_count(), p99.9:c{*} by {h}), \
                 'agi\\'le', 5e-1, direction='below') / 2 >= 1";
    check(query);
    for i in 0..query.len() {
        check(&query[..i]);
        check(&query[i..]);
        for c in [" ", "\u{a0}", "(", "'", "é", ","] {
            check(&format!("{}{c}{}", &query[..i], &query[i..]));
        }
    }
}

#[test]
fn generated_metric_queries_parse() {
    for agg in ["avg", "sum", "min", "max"] {
        for n in 1..120u64 {
            for (unit, seconds) in [("m", 60), ("h", 3600), ("d", 86_400)] {
                let threshold = (n as i64) * 17 - 1000;
                let query =
                    format!("{agg}(last_{n}{unit}):{agg}:app.metric{{env:prod}} > {threshold}");
                match parse(&query) {
                    Ok(MonitorQuery::Metric(m)) => {
                        assert_eq!(m.window.seconds, n * seconds);
                        assert_eq!(m.time_aggregation.as_token(), agg);
                        assert_eq!(m.condition.critical.to_text(), threshold.to_string());
                    }
                    other => panic!("{query}: {other:?}"),
                }
            }
        }
    }
}

#[test]
fn generated_filters_become_pairs() {
    for bang in ["", "!"] {
        for (key, value) in [("a", "0"), ("env", "prod1"), ("abcdefgh", "zzzzzzzz")] {
            let query = format!("avg(last_5m):avg:app.metric{{{bang}{key}:{value}}} > 1");
            let summary = summarize(&parse(&query).unwrap(), &query);
            assert_eq!(summary.scope.len(), 1);
            assert_eq!(summary.scope[0].key, key);
            assert_eq!(summary.scope[0].value, value);
            assert_eq!(summary.scope[0].negated, bang == "!");
        }
    }
}
