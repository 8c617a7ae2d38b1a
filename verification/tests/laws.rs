//! The laws of the library, on concrete values.

use ddquery_core::cursor::Cursor;
use ddquery_core::explain::render_composite;
use ddquery_core::parser::{classify_filter, Parser};
use ddquery_core::text::{is_ascii_white, is_digit, is_ident, is_white};
use ddquery_core::{
    explain, parse, parse_or_unparsed, summarize, BoolOp, CompositeExpr, Filter, MetricExpr,
    MonitorQuery, MonitorRef, Series, SpaceAgg, Window,
};

fn series(query: &str) -> Series {
    match parse(query) {
        Ok(MonitorQuery::Metric(m)) => match m.expr {
            MetricExpr::Series(s) => s,
            other => panic!("expected a series, got {other:?}"),
        },
        other => panic!("expected a metric query, got {other:?}"),
    }
}

#[test]
fn character_classes_agree_with_those_of_char() {
    for u in 0..=0x10ffffu32 {
        if let Some(c) = char::from_u32(u) {
            assert_eq!(is_white(c), c.is_whitespace(), "{u:x}");
            assert_eq!(is_ascii_white(c), c.is_ascii() && c.is_whitespace(), "{u:x}");
            assert_eq!(is_digit(c), c.is_ascii_digit());
            assert_eq!(is_ident(c), c.is_ascii_alphanumeric() || c == '_');
        }
    }
}

#[test]
fn what_does_not_parse_is_kept() {
    for query in ["", "é", "avg(last_5m)", "some brand new syntax", "\u{1f980} > 1"] {
        let err = parse(query).unwrap_err();
        assert!(query.is_char_boundary(err.offset()));
        assert!(err.reason().chars().all(|c| (' '..='~').contains(&c)));
        assert_eq!(
            parse_or_unparsed(query),
            MonitorQuery::Unparsed {
                raw: query.into(),
                reason: err.reason().into(),
                offset: err.offset(),
            }
        );
    }
    let query = "1 || 2";
    assert_eq!(parse_or_unparsed(query), parse(query).unwrap());
}

#[test]
fn the_same_tree_reads_the_same() {
    let a = parse("avg(last_5m):avg:a{x:y,z:w} > 1").unwrap();
    let b = parse("avg( last_5m ) : avg:a{ x:y  z:w } > 1.0").unwrap();
    assert_eq!(a, b);
    assert_eq!(explain(&a), explain(&b));
    assert_eq!(summarize(&a, "q"), summarize(&b, "q"));
    assert_eq!(summarize(&a, "q").raw, "q");
}

#[test]
fn separators_of_every_kind() {
    let want = series("avg(last_5m):avg:a{x:y,z:w}>1");
    for sep in [" ", ",", "  ", ", ", " ,", ",,", " , , ", "\n", "\u{a0}", "\u{3000},\t"] {
        assert_eq!(series(&format!("avg(last_5m):avg:a{{{sep}x:y{sep}z:w{sep}}}>1")), want);
    }
    for sep in [",", " ", ", "] {
        let s = series(&format!("avg(last_5m):avg:a{{*}} by {{h{sep}i}}>1"));
        assert_eq!(s.group_by, vec!["h", "i"]);
    }
}

#[test]
fn filters_keep_their_token() {
    for token in ["*", "a:b", "!a:b", "a:b:c", ":", "!:", "!", "!glob", "web-*", "!!a:b", "é:ü"] {
        let s = series(&format!("avg(last_5m):avg:a{{{token}}}>1"));
        let back = match &s.filter[0] {
            Filter::All => "*".to_string(),
            Filter::Glob(g) => g.clone(),
            Filter::Tag { negated, key, value } => {
                format!("{}{key}:{value}", if *negated { "!" } else { "" })
            }
        };
        assert_eq!(back, token);
        assert_eq!(s.filter.len(), 1);
    }
}

#[test]
fn quoted_text_is_read_back() {
    for text in ["", "plain", "it's", "say \"x\"", "back\\slash", "\\", "é\n\u{1f980}", "'\"\\'\""] {
        let mut escaped = String::new();
        for c in text.chars() {
            if c == '"' || c == '\'' || c == '\\' {
                escaped.push('\\');
            }
            escaped.push(c);
        }
        for quote in ['"', '\''] {
            let source = format!("{quote}{escaped}{quote}rest");
            let mut c = Cursor::new(&source);
            assert_eq!(c.take_quoted().unwrap(), text);
            assert_eq!(c.rest(), "rest");
        }
    }
}

#[test]
fn windows_do_not_depend_on_the_anchor() {
    for body in ["5m", "1h", "0s", "12mo", "3w", "18446744073709551615s"] {
        let bare = Window::parse(body).unwrap();
        let last = Window::parse(&format!("last_{body}")).unwrap();
        let current = Window::parse(&format!("current_{body}")).unwrap();
        assert_eq!(bare.seconds, last.seconds);
        assert_eq!(bare.seconds, current.seconds);
        assert_eq!(bare.display, last.display);
        assert_eq!(current.raw, format!("current_{body}"));
        let span = last.display.strip_prefix("last ").unwrap();
        assert_eq!(current.display, format!("current {span}"));
    }
    for body in ["5q", "", "m5", "99999999999999999999s"] {
        for anchor in ["", "last_", "current_"] {
            assert!(Window::parse(&format!("{anchor}{body}")).is_none());
        }
    }
}

#[test]
fn aggregations_are_written_back() {
    for token in ["avg", "sum", "min", "max", "count", "p95", "p99.9", "p0", "p100.0", "p1e1"] {
        let v = SpaceAgg::from_token(token).unwrap();
        assert_eq!(v.as_token(), token);
        assert_eq!(SpaceAgg::from_token(&v.as_token()), Some(v));
    }
}

#[test]
fn combinations_have_two_operands_or_more() {
    let MonitorQuery::Metric(m) = parse("avg(last_5m):sum(max(avg:a{*}, avg:b{*})) > 1").unwrap()
    else {
        panic!("expected a metric query");
    };
    let MetricExpr::Transform { name, arg, args } = m.expr else {
        panic!("expected a transform");
    };
    assert_eq!((name.as_str(), args.len()), ("sum", 0));
    assert!(matches!(*arg, MetricExpr::Combine { args, .. } if args.len() == 2));
}

#[test]
fn boolean_operators_bind_in_both_orders() {
    let text = |q: &str| explain(&parse(q).unwrap());
    let lead = "Alerts when this boolean condition over other monitors holds: ";
    assert_eq!(text("1 && 2 || 3"), format!("{lead}((#1 && #2) || #3)."));
    assert_eq!(text("1 || 2 && 3"), format!("{lead}(#1 || (#2 && #3))."));
    assert_eq!(text("1 || 2 || 3"), format!("{lead}((#1 || #2) || #3)."));
    assert_eq!(text("(1 || 2) && !3"), format!("{lead}((#1 || #2) && !#3)."));
}

#[test]
fn arithmetic_operators_bind_in_all_orders() {
    let text = |e: &str| {
        let t = explain(&parse(&format!("sum(last_5m):{e} > 0")).unwrap());
        t["Alert if the sum over the 5 minutes of ".len()..t.len() - " is > 0.".len()].to_string()
    };
    assert_eq!(text("1 + 2 * 3"), "(1 + (2 × 3))");
    assert_eq!(text("1 * 2 + 3"), "((1 × 2) + 3)");
    assert_eq!(text("1 - 2 / 3"), "(1 - (2 ÷ 3))");
    assert_eq!(text("1 - 2 + 3"), "((1 - 2) + 3)");
    assert_eq!(text("1 / 2 * 3"), "((1 ÷ 2) × 3)");
    assert_eq!(text("1 + 2 * 3 - 4 / 5"), "((1 + (2 × 3)) - (4 ÷ 5))");
    assert_eq!(text("(1 + 2) * 3"), "((1 + 2) × 3)");
}

#[test]
fn lists_of_filters_with_any_separators() {
    let tokens = ["env:prod", "!host:a", "*", "web-*", "k:v:w"];
    let plain = series(&format!("avg(last_5m):avg:a{{{}}}>1", tokens.join(",")));
    assert_eq!(plain.filter.len(), 5);
    let gaps = [" ", ",", "\t", ", ", " ,", ",,", "\n , ", "\u{3000}", "\u{85},", "  "];
    for turn in 0..gaps.len() {
        let mut list = gaps[turn].to_string();
        for (i, token) in tokens.iter().enumerate() {
            list.push_str(token);
            list.push_str(gaps[(turn + i + 1) % gaps.len()]);
        }
        assert_eq!(series(&format!("avg(last_5m):avg:a{{{list}}}>1")), plain, "{list:?}");
    }
}

#[test]
fn negations_nest() {
    for n in [0, 1, 2, 127, 128] {
        let query = format!("{}12", "!".repeat(n));
        let Ok(MonitorQuery::Composite(mut expr)) = parse(&query) else {
            panic!("expected a composite query: {query}");
        };
        for _ in 0..n {
            let CompositeExpr::Not(inner) = expr else {
                panic!("expected a negation: {query}");
            };
            expr = *inner;
        }
        assert_eq!(expr, CompositeExpr::Ref(MonitorRef { id: "12".into() }));
    }
    for n in [129, 130, 1000] {
        let err = parse(&format!("{}12", "!".repeat(n))).unwrap_err();
        assert_eq!(err.reason(), "maximum nesting depth exceeded");
    }
}

#[test]
fn composites_are_read_back() {
    let lead = "Alerts when this boolean condition over other monitors holds: ";
    for query in [
        "7",
        "!7",
        "!!7",
        "1 && 2 || 3",
        "1 || 2 && !3",
        "!(1 || 2) && !(3 && (4 || !5)) || 6",
        "((((1)))) || 0099",
    ] {
        let tree = parse(query).unwrap();
        let text = explain(&tree);
        let body = text.strip_prefix(lead).unwrap().strip_suffix('.').unwrap();
        assert_eq!(parse(&body.replace('#', "")).unwrap(), tree, "{query}");
    }
}

#[test]
fn composites_nested_to_the_limit_are_read_back() {
    // Each level costs one on the left of an operator, and two on its right.
    let left = |n: usize| format!("{}1{}", "(".repeat(n), " || 2)".repeat(n));
    let right = |n: usize| format!("{}1{}", "(2 && ".repeat(n), ")".repeat(n));
    for (query, ok) in [
        (left(127), true),
        (left(128), false),
        (left(129), false),
        (right(64), true),
        (right(65), false),
    ] {
        assert_eq!(parse(&query).is_ok(), ok, "{query}");
    }
}

/// All orders of `list`.
fn orders(list: &[&str]) -> Vec<String> {
    if list.is_empty() {
        return vec![String::new()];
    }
    let mut all = Vec::new();
    for i in 0..list.len() {
        let mut others = list.to_vec();
        let first = others.remove(i);
        for rest in orders(&others) {
            all.push(format!("{first}{rest}"));
        }
    }
    all
}

#[test]
fn search_methods_in_any_order() {
    let methods = [
        ".index(\"main\")",
        ".rollup(\"cardinality\", \"@usr\")",
        ".by(\"host\",\"env\")",
        ".last(\"5m\")",
    ];
    let want = parse(&format!("logs(\"x y\"){} > 3", methods.concat())).unwrap();
    let all = orders(&methods);
    assert_eq!(all.len(), 24);
    for order in all {
        assert_eq!(parse(&format!("logs(\"x y\"){order} > 3")).unwrap(), want, "{order}");
    }
}

#[test]
fn check_methods_in_any_order() {
    let methods = [".over(\"a:b\",\"c\")", ".by(\"host\")", ".last(4)", ".count_by_status()"];
    let want = parse(&format!("\"ntp.in_sync\"{}", methods.concat())).unwrap();
    for order in orders(&methods) {
        assert_eq!(parse(&format!("\"ntp.in_sync\"{order}")).unwrap(), want, "{order}");
    }
}

#[test]
fn white_space_around_a_query() {
    let queries = [
        "avg(last_5m):avg:a.b{x:y} by {host}.as_rate() > 90",
        "avg(last_1d):anomalies(sum:a{*}, 'agile', 5, direction='below') >= 1",
        "change(avg(last_5m),last_1h):avg:a{*} / 2 + p99.9:b{*} < -1.5e3",
        "logs(\"x\").index(\"*\").rollup(\"count\").last(\"5m\") > 3",
        "\"ntp\".over(\"a\").last(4).count_by_status()",
        "error_budget(\"id\").over(\"7d\") > 75",
        "123 && !456 || (7 || 8)",
        "",
        "\u{a0}1",
        "1\u{a0}",
        "1 2",
        "avg(last_5m):avg:a{*} by",
        "avg(last_5m):avg:a by",
        "avg(last_5m):max(avg:a by",
        "avg(last_5m):avg:a > ",
        "avg(last_5m):avg:a{x",
        "logs(\"x",
        "logs(\"x\\",
        "\"c\".over(a",
        "avg(",
        "!",
        "nonsense",
    ];
    let spaces = ["", " ", "\t", "\n", "\r\n", " \t\n\u{b}\u{c}\r "];
    for query in queries {
        let want = parse(query).ok();
        for before in spaces {
            for behind in spaces {
                let padded = format!("{before}{query}{behind}");
                assert_eq!(parse(&padded).ok(), want, "{padded:?}");
            }
        }
    }
}

#[test]
fn search_methods_without_arguments_in_any_order() {
    let methods = [".index()", ".rollup(\"count\")", ".by()", ".last(\"5m\")"];
    let plain = "rum(\"x\").rollup(\"count\").last(\"5m\") != 1";
    let want = Parser::new(plain).parse_search().unwrap();
    assert_eq!(want.index, None);
    assert!(want.group_by.is_empty());
    for order in orders(&methods) {
        let query = format!("rum(\"x\"){order} != 1");
        let mut parser = Parser::new(&query);
        assert_eq!(parser.parse_search().unwrap(), want, "{order}");
        assert_eq!(parser.cursor.rest(), "");
        assert_eq!(parse(&query), Ok(MonitorQuery::Search(want.clone())));
    }
}

#[test]
fn filter_lists_stop_at_the_brace() {
    for text in ["a:b , !c}.x", "a:b,!c}.x", " ,a:b\t!c,, }.x"] {
        let mut parser = Parser::new(text);
        assert_eq!(
            parser.parse_filter_list(),
            vec![classify_filter("a:b"), classify_filter("!c")]
        );
        assert_eq!(parser.cursor.rest(), "}.x");
    }
}

#[test]
fn negations_nest_at_any_depth() {
    for (n, depth, ok) in [(0, 128, true), (1, 128, false), (3, 125, true), (0, 129, false)] {
        let query = format!("{}7", "!".repeat(n));
        let r = Parser::new(&query).parse_composite_unary(depth);
        assert_eq!(r.is_ok(), ok, "{n} {depth}");
    }
    let err = Parser::new("7").parse_composite_unary(usize::MAX).unwrap_err();
    assert_eq!(err.reason(), "maximum nesting depth exceeded");
}

#[test]
fn rendered_composites_are_read_back() {
    let id = |s: &str| Box::new(CompositeExpr::Ref(MonitorRef { id: s.into() }));
    let pair = |op, lhs, rhs| CompositeExpr::Binary { op, lhs, rhs };
    let inner = pair(BoolOp::Or, id("00"), id("12"));
    let tree = pair(BoolOp::And, Box::new(CompositeExpr::Not(Box::new(inner))), id("3"));
    let text = render_composite(&tree);
    assert_eq!(text, "(!(#00 || #12) && #3)");
    assert_eq!(Parser::new(&text.replace('#', "")).parse_composite(0), Ok(tree));
}
