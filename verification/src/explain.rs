//! Rendering of queries: as a paragraph of English and as a structured summary.
//!
//! [`explain`] and [`summarize`] are pure functions of the syntax tree, so
//! their output is stable.

use vstd::prelude::*;
use vstd::string::StringExecFns;
use crate::ast::{
    copy_list, copy_optional, expr_view, exprs_view, lemma_exprs_view, optional, ArithOp,
    ChangeKind, CheckQuery, CmpOp, CompositeExpr, Condition, Filter, FuncKind, FuncParam,
    MetricExpr, MetricQuery, MonitorQuery, MonitorQueryView, ParamValue, ParamValueView,
    SearchQuery, SearchSource, Series, SloQuery, TimeAgg,
};
use crate::binary64::Binary64;
use crate::phrasing::{
    aggregation_word, algorithm, arith_symbol, bare_summary, bound_text, change_name, check_text,
    chip, chip_text, chip_texts, chips, comparison_symbol, composite_text, condition_text,
    counted_noun, direction, evaluation, explanation, expr_text, expr_texts, first_series_in,
    first_series_of, function_text, headline, keyword_text, keyword_value, listed, metric_summary,
    metric_text, positional_value, search_text, season_text, series_text, slo_text, source_name,
    spaced, stripped, summary, top_function_in, top_function_of, transform_phrase, KeyValView,
    QuerySummaryView,
};
use crate::rendering::{render_scalar, scalar_text};
use crate::text::{
    begins_at, chars_of, copy_all, copy_of, decimal_of, join, joined, same, string_of, texts,
};

verus! {

/// A breakdown of a query for a front-end: labelled chips and rows.
///
/// Only `raw` and `headline` are always there; `raw` is the query, verbatim.
#[derive(Debug, PartialEq)]
pub struct QuerySummary {
    /// A short headline, such as `Anomaly detection on view time`.
    pub headline: String,
    /// The name of the primary metric, if there is one.
    pub metric: Option<String>,
    /// Scope filters as pairs.
    pub scope: Vec<KeyVal>,
    /// Grouping tags of `by {...}`.
    pub group_by: Vec<String>,
    /// The evaluation window, readable.
    pub window: Option<String>,
    /// The evaluation method: anomaly, outlier, forecast or change.
    pub evaluation: Option<String>,
    /// The alerting condition, such as `≥ 1`.
    pub condition: Option<String>,
    /// The query, verbatim.
    pub raw: String,
}

/// A scope filter as a pair.
#[derive(Debug, PartialEq, Eq)]
pub struct KeyVal {
    /// The tag key.
    pub key: String,
    /// The tag value.
    pub value: String,
    /// Whether the filter is negated (`!key:value`).
    pub negated: bool,
}

impl View for QuerySummary {
    type V = QuerySummaryView;

    open spec fn view(&self) -> QuerySummaryView {
        QuerySummaryView {
            headline: self.headline@,
            metric: optional(self.metric),
            scope: self.scope@.map_values(|p: KeyVal| p@),
            group_by: texts(self.group_by@),
            window: optional(self.window),
            evaluation: optional(self.evaluation),
            condition: optional(self.condition),
            raw: self.raw@,
        }
    }
}

impl View for KeyVal {
    type V = KeyValView;

    open spec fn view(&self) -> KeyValView {
        KeyValView { key: self.key@, value: self.value@, negated: self.negated }
    }
}

impl Clone for KeyVal {
    fn clone(&self) -> (r: Self)
        ensures
            r@ == self@,
    {
        KeyVal {
            key: copy_of(self.key.as_str()),
            value: copy_of(self.value.as_str()),
            negated: self.negated,
        }
    }
}

impl Clone for QuerySummary {
    fn clone(&self) -> (r: Self)
        ensures
            r@ == self@,
    {
        let scope = copy_list(&self.scope);
        assert(scope@.map_values(|p: KeyVal| p@) =~= self.scope@.map_values(|p: KeyVal| p@));
        QuerySummary {
            headline: copy_of(self.headline.as_str()),
            metric: copy_optional(&self.metric),
            scope,
            group_by: copy_all(&self.group_by),
            window: copy_optional(&self.window),
            evaluation: copy_optional(&self.evaluation),
            condition: copy_optional(&self.condition),
            raw: copy_of(self.raw.as_str()),
        }
    }
}

// ----- words --------------------------------------------------------------------

fn time_agg_word(agg: TimeAgg) -> (r: &'static str)
    ensures
        r@ == aggregation_word(agg),
{
    match agg {
        TimeAgg::Avg => "average",
        TimeAgg::Sum => "sum",
        TimeAgg::Min => "minimum",
        TimeAgg::Max => "maximum",
        TimeAgg::Count => "count",
        TimeAgg::Percentile => "percentile",
    }
}

fn cmp_symbol(op: CmpOp) -> (r: &'static str)
    ensures
        r@ == comparison_symbol(op),
{
    match op {
        CmpOp::Ge => "≥",
        CmpOp::Le => "≤",
        CmpOp::Eq => "=",
        CmpOp::Ne => "≠",
        CmpOp::Gt => ">",
        CmpOp::Lt => "<",
    }
}

fn arith_word(op: ArithOp) -> (r: &'static str)
    ensures
        r@ == arith_symbol(op),
{
    match op {
        ArithOp::Add => "+",
        ArithOp::Sub => "-",
        ArithOp::Mul => "×",
        ArithOp::Div => "÷",
    }
}

fn change_word(kind: ChangeKind, capitalized: bool) -> (r: &'static str)
    ensures
        r@ == change_name(kind, capitalized),
{
    match (kind, capitalized) {
        (ChangeKind::Change, true) => "Change",
        (ChangeKind::Change, false) => "change",
        (ChangeKind::PctChange, true) => "Percentage change",
        (ChangeKind::PctChange, false) => "percentage change",
    }
}

fn source_noun(source: SearchSource) -> (r: &'static str)
    ensures
        r@ == counted_noun(source),
{
    match source {
        SearchSource::Logs => "log events",
        SearchSource::Events => "events",
        SearchSource::Rum => "RUM events",
        SearchSource::ErrorTracking => "tracked errors",
    }
}

fn source_label(source: SearchSource) -> (r: &'static str)
    ensures
        r@ == source_name(source),
{
    match source {
        SearchSource::Logs => "Log",
        SearchSource::Events => "Event",
        SearchSource::Rum => "RUM",
        SearchSource::ErrorTracking => "Error-tracking",
    }
}

fn humanize_transform(name: &str) -> (out: String)
    ensures
        out@ == transform_phrase(name@),
{
    let v: Vec<char> = chars_of(name);
    assert(v@.skip(0) =~= name@);
    let median: Vec<char> = chars_of("median_");
    if begins_at(&v, 0, &median) {
        let mut out = string_of(&v, median.len(), v.len());
        assert(out@ =~= name@.skip(median@.len() as int));
        out.append("-point median");
        return out;
    }
    let ewma: Vec<char> = chars_of("ewma_");
    if begins_at(&v, 0, &ewma) {
        let mut out = string_of(&v, ewma.len(), v.len());
        assert(out@ =~= name@.skip(ewma@.len() as int));
        out.append("-point EWMA");
        return out;
    }
    if same(name, "clamp_min") {
        copy_of("lower-clamped value")
    } else if same(name, "clamp_max") {
        copy_of("upper-clamped value")
    } else if same(name, "abs") {
        copy_of("absolute value")
    } else if same(name, "count_nonzero") {
        copy_of("non-zero count")
    } else {
        with_spaces(name)
    }
}

/// `name` with spaces in place of underscores.
fn with_spaces(name: &str) -> (out: String)
    ensures
        out@ == spaced(name@),
{
    let mut out = String::new();
    for c in it: name.chars()
        invariant
            it.seq() == name@,
            out@ == spaced(name@).take(it.index() as int),
    {
        if c == '_' {
            out.push(' ');
        } else {
            out.push(c);
        }
        assert(out@ =~= spaced(name@).take(it.index() + 1));
    }
    assert(out@ =~= spaced(name@));
    out
}

fn render_condition(c: &Condition) -> (out: String)
    ensures
        out@ == condition_text(*c),
{
    let mut out = copy_of(cmp_symbol(c.operator));
    out.append(" ");
    out.append(c.critical.to_text().as_str());
    out
}

/// `s` without `prefix`, as often as it begins with it.
fn strip_all(s: &str, prefix: &str) -> (out: String)
    ensures
        out@ == stripped(s@, prefix@),
{
    let v: Vec<char> = chars_of(s);
    let p: Vec<char> = chars_of(prefix);
    if p.len() == 0 {
        return copy_of(s);
    }
    let total: usize = v.len();
    let mut from: usize = 0;
    assert(v@.skip(0) =~= v@);
    while begins_at(&v, from, &p)
        invariant
            total == v@.len(),
            v@ == s@,
            p@ == prefix@,
            p@.len() > 0,
            from <= v@.len(),
            stripped(s@, prefix@) == stripped(v@.skip(from as int), prefix@),
        decreases v@.len() - from,
    {
        assert(v@.skip(from as int).skip(p@.len() as int) =~= v@.skip(from + p@.len()));
        from = from + p.len();
    }
    let out = string_of(&v, from, v.len());
    assert(out@ =~= v@.skip(from as int));
    out
}

/// Appends `before`, the list joined by commas, and `after`; nothing for no list.
fn append_list(out: &mut String, before: &str, list: &Vec<String>, after: &str)
    ensures
        final(out)@ == old(out)@ + listed(before@, texts(list@), after@),
{
    let ghost start = out@;
    if list.len() > 0 {
        out.append(before);
        out.append(join(list, ", ").as_str());
        out.append(after);
        assert(out@ =~= start + (before@ + joined(texts(list@), ", "@) + after@));
    } else {
        assert(start + Seq::<char>::empty() =~= start);
    }
}

// ----- series -------------------------------------------------------------------

fn filter_to_keyval(f: &Filter) -> (r: Option<KeyVal>)
    ensures
        match r {
            Some(pair) => chip(f@) == Some(pair@),
            None => chip(f@) is None,
        },
{
    match f {
        Filter::Tag { negated, key, value } => Some(
            KeyVal {
                key: copy_of(key.as_str()),
                value: copy_of(value.as_str()),
                negated: *negated,
            },
        ),
        Filter::All => None,
        Filter::Glob(_) => None,
    }
}

/// The pairs of the filters that are tags.
fn keyvals(filters: &Vec<Filter>) -> (r: Vec<KeyVal>)
    ensures
        r@.map_values(|p: KeyVal| p@) == chips(filters@.map_values(|f: Filter| f@)),
{
    let ghost views = filters@.map_values(|f: Filter| f@);
    let mut out: Vec<KeyVal> = Vec::new();
    let mut i: usize = 0;
    assert(out@.map_values(|p: KeyVal| p@) =~= chips(views.take(0)));
    while i < filters.len()
        invariant
            views == filters@.map_values(|f: Filter| f@),
            i <= filters@.len(),
            out@.map_values(|p: KeyVal| p@) == chips(views.take(i as int)),
        decreases filters@.len() - i,
    {
        proof {
            assert(views.take(i + 1).drop_last() =~= views.take(i as int));
            assert(views.take(i + 1).last() == filters@[i as int]@);
        }
        let ghost before = out@.map_values(|p: KeyVal| p@);
        if let Some(pair) = filter_to_keyval(&filters[i]) {
            out.push(pair);
            assert(out@.map_values(|p: KeyVal| p@) =~= before.push(pair@));
        }
        i += 1;
    }
    assert(views.take(i as int) =~= views);
    out
}

/// The text of a pair.
fn keyval_text(pair: &KeyVal) -> (out: String)
    ensures
        out@ == chip_text(pair@),
{
    let mut out = copy_of(
        if pair.negated {
            "not "
        } else {
            ""
        },
    );
    out.append(pair.key.as_str());
    out.append(":");
    out.append(pair.value.as_str());
    out
}

fn describe_series(s: &Series) -> (out: String)
    ensures
        out@ == series_text(s@),
{
    let mut text = s.space_aggregation.as_token();
    text.append(" of `");
    text.append(s.metric.as_str());
    text.append("`");
    let pairs = keyvals(&s.filter);
    let ghost views = pairs@.map_values(|p: KeyVal| p@);
    let mut scope: Vec<String> = Vec::new();
    let mut i: usize = 0;
    while i < pairs.len()
        invariant
            views == pairs@.map_values(|p: KeyVal| p@),
            i <= pairs@.len(),
            texts(scope@) == chip_texts(views).take(i as int),
        decreases pairs@.len() - i,
    {
        let ghost before = texts(scope@);
        scope.push(keyval_text(&pairs[i]));
        assert(texts(scope@) =~= before.push(chip_text(views[i as int])));
        assert(texts(scope@) =~= chip_texts(views).take(i + 1));
        i += 1;
    }
    assert(texts(scope@) =~= chip_texts(views));
    append_list(&mut text, " (", &scope, ")");
    append_list(&mut text, " by ", &s.group_by, "");
    text
}

// ----- evaluation functions -----------------------------------------------------

/// The value of the `index`th positional parameter, if there is one.
fn positional_param<'a>(params: &'a Vec<FuncParam>, index: usize) -> (r: Option<&'a ParamValue>)
    ensures
        match r {
            Some(v) => positional_value(
                params@.map_values(|p: FuncParam| p@),
                index as nat,
            ) == Some(v@),
            None => positional_value(
                params@.map_values(|p: FuncParam| p@),
                index as nat,
            ) is None,
        },
{
    let ghost views = params@.map_values(|p: FuncParam| p@);
    let mut left: usize = index;
    let mut i: usize = 0;
    assert(views.skip(0) =~= views);
    while i < params.len()
        invariant
            views == params@.map_values(|p: FuncParam| p@),
            i <= params@.len(),
            positional_value(views, index as nat) == positional_value(
                views.skip(i as int),
                left as nat,
            ),
        decreases params@.len() - i,
    {
        proof {
            assert(views.skip(i as int)[0] == params@[i as int]@);
            assert(views.skip(i as int).skip(1) =~= views.skip(i + 1));
        }
        if params[i].key.is_none() {
            if left == 0 {
                return Some(&params[i].value);
            }
            left = left - 1;
        }
        i += 1;
    }
    None
}

/// The string of the `index`th positional parameter, if it is one.
fn positional_str<'a>(params: &'a Vec<FuncParam>, index: usize) -> (r: Option<&'a str>)
    ensures
        match r {
            Some(s) => positional_value(params@.map_values(|p: FuncParam| p@), index as nat)
                == Some(ParamValueView::Str(s@)),
            None => !(positional_value(params@.map_values(|p: FuncParam| p@), index as nat) matches
                Some(ParamValueView::Str(_))),
        },
{
    match positional_param(params, index) {
        Some(ParamValue::Str(s)) => Some(s.as_str()),
        _ => None,
    }
}

/// The number of the `index`th positional parameter, if it is one.
fn param_count(params: &Vec<FuncParam>, index: usize) -> (r: Option<Binary64>)
    ensures
        match r {
            Some(x) => positional_value(params@.map_values(|p: FuncParam| p@), index as nat)
                == Some(ParamValueView::Number(x)),
            None => !(positional_value(params@.map_values(|p: FuncParam| p@), index as nat) matches
                Some(ParamValueView::Number(_))),
        },
{
    match positional_param(params, index) {
        Some(ParamValue::Number(x)) => Some(*x),
        _ => None,
    }
}

/// The text of the first keyword parameter `key`, if it has one.
fn keyword_str<'a>(params: &'a Vec<FuncParam>, key: &str) -> (r: Option<&'a str>)
    ensures
        match r {
            Some(s) => keyword_text(params@.map_values(|p: FuncParam| p@), key@) == Some(s@),
            None => keyword_text(params@.map_values(|p: FuncParam| p@), key@) is None,
        },
{
    let ghost views = params@.map_values(|p: FuncParam| p@);
    let mut i: usize = 0;
    assert(views.skip(0) =~= views);
    while i < params.len()
        invariant
            views == params@.map_values(|p: FuncParam| p@),
            i <= params@.len(),
            keyword_value(views, key@) == keyword_value(views.skip(i as int), key@),
        decreases params@.len() - i,
    {
        proof {
            assert(views.skip(i as int)[0] == params@[i as int]@);
            assert(views.skip(i as int).skip(1) =~= views.skip(i + 1));
        }
        let found: bool = match &params[i].key {
            Some(k) => same(k.as_str(), key),
            None => false,
        };
        if found {
            return match &params[i].value {
                ParamValue::Str(s) => if s.as_str().is_empty() {
                    None
                } else {
                    Some(s.as_str())
                },
                ParamValue::Bool(b) => Some(
                    if *b {
                        "true"
                    } else {
                        "false"
                    },
                ),
                ParamValue::Number(_) => None,
            };
        }
        i += 1;
    }
    None
}

fn function_phrase(name: FuncKind, params: &Vec<FuncParam>) -> (out: String)
    ensures
        out@ == function_text(name, params@.map_values(|p: FuncParam| p@)),
{
    let algo = positional_str(params, 0);
    match name {
        FuncKind::Anomalies => {
            let mut phrase = copy_of("anomaly detection (algorithm ");
            phrase.append(algo.unwrap_or("basic"));
            append_bound(&mut phrase, ", ~", param_count(params, 1), "σ");
            phrase.append(", direction ");
            phrase.append(keyword_str(params, "direction").unwrap_or("both"));
            append_season(&mut phrase, keyword_str(params, "seasonality"));
            phrase.append(")");
            phrase
        },
        FuncKind::Outliers => {
            let mut phrase = copy_of("outlier detection (algorithm ");
            phrase.append(algo.unwrap_or("DBSCAN"));
            append_bound(&mut phrase, ", tolerance ", param_count(params, 1), "");
            phrase.append(")");
            phrase
        },
        FuncKind::Forecast => {
            let mut phrase = copy_of("forecast (algorithm ");
            phrase.append(algo.unwrap_or("linear"));
            phrase.append(")");
            phrase
        },
    }
}

/// Appends a number between `before` and `after`, nothing for none.
fn append_bound(out: &mut String, before: &str, x: Option<Binary64>, after: &str)
    ensures
        final(out)@ == old(out)@ + bound_text(before@, x, after@),
{
    let ghost start = out@;
    match x {
        Some(n) => {
            out.append(before);
            out.append(render_scalar(n).as_str());
            out.append(after);
            assert(out@ =~= start + (before@ + scalar_text(n) + after@));
        },
        None => {
            assert(start + Seq::<char>::empty() =~= start);
        },
    }
}

/// Appends the seasonality, if there is one.
fn append_season(out: &mut String, season: Option<&str>)
    ensures
        final(out)@ == old(out)@ + season_text(
            match season {
                Some(s) => Some(s@),
                None => None,
            },
        ),
{
    let ghost start = out@;
    match season {
        Some(s) => {
            out.append(", ");
            out.append(s);
            out.append(" seasonality");
            assert(out@ =~= start + (", "@ + s@ + " seasonality"@));
        },
        None => {
            assert(start + Seq::<char>::empty() =~= start);
        },
    }
}

// ----- expressions --------------------------------------------------------------

/// Describes an expression in English.
fn describe_expr(expr: &MetricExpr) -> (out: String)
    ensures
        out@ == expr_text(expr@),
    decreases expr,
{
    match expr {
        MetricExpr::Series(s) => describe_series(s),
        MetricExpr::Function { name, arg, params } => {
            let mut out = function_phrase(*name, params);
            out.append(" (");
            out.append(describe_expr(arg).as_str());
            out.append(")");
            out
        },
        MetricExpr::Transform { name, arg, args } => {
            let mut out = humanize_transform(name.as_str());
            out.append(" of ");
            out.append(describe_expr(arg).as_str());
            out
        },
        MetricExpr::Combine { name, args } => {
            let mut parts: Vec<String> = Vec::new();
            let mut i: usize = 0;
            let ghost views = exprs_view(args@);
            proof {
                lemma_exprs_view(args@);
                assert(texts(parts@) =~= expr_texts(views.take(0)));
            }
            while i < args.len()
                invariant
                    expr matches MetricExpr::Combine { name: n, args: a } && a == args,
                    views == exprs_view(args@),
                    views.len() == args@.len(),
                    forall|k: int|
                        0 <= k < views.len() ==> #[trigger] views[k] == expr_view(args@[k]),
                    i <= args@.len(),
                    texts(parts@) == expr_texts(views.take(i as int)),
                decreases args@.len() - i,
            {
                let ghost before = texts(parts@);
                assert(decreases_to!(expr => args@[i as int]));
                parts.push(describe_expr(&args[i]));
                proof {
                    assert(views.take(i + 1).drop_last() =~= views.take(i as int));
                    assert(views.take(i + 1).last() == views[i as int]);
                    assert(texts(parts@) =~= before.push(expr_text(views[i as int])));
                }
                i += 1;
            }
            assert(views.take(i as int) =~= views);
            let mut out = copy_of(name.as_str());
            out.append(" of (");
            out.append(join(&parts, ", ").as_str());
            out.append(")");
            out
        },
        MetricExpr::Arith { op, lhs, rhs } => {
            let mut out = copy_of("(");
            out.append(describe_expr(lhs).as_str());
            out.append(" ");
            out.append(arith_word(*op));
            out.append(" ");
            out.append(describe_expr(rhs).as_str());
            out.append(")");
            out
        },
        MetricExpr::Change { kind, inner_agg, shift, arg } => {
            let mut out = copy_of(change_word(*kind, false));
            out.append(" over ");
            out.append(shift.display.as_str());
            out.append(" of ");
            out.append(describe_expr(arg).as_str());
            out
        },
        MetricExpr::Scalar(s) => s.to_text(),
    }
}

/// The evaluation method of an expression, if it has one.
fn evaluation_phrase(expr: &MetricExpr) -> (r: Option<String>)
    ensures
        optional(r) == evaluation(expr@),
    decreases expr,
{
    match expr {
        MetricExpr::Function { name, arg, params } => Some(function_phrase(*name, params)),
        MetricExpr::Change { kind, inner_agg, shift, arg } => {
            let mut out = copy_of(change_word(*kind, false));
            out.append(" over ");
            out.append(shift.display.as_str());
            Some(out)
        },
        MetricExpr::Arith { op, lhs, rhs } => match evaluation_phrase(lhs) {
            Some(text) => Some(text),
            None => evaluation_phrase(rhs),
        },
        MetricExpr::Transform { name, arg, args } => evaluation_phrase(arg),
        _ => None,
    }
}

/// The first [`Series`] of an expression, if any.
fn first_series<'a>(expr: &'a MetricExpr) -> (r: Option<&'a Series>)
    ensures
        match r {
            Some(s) => first_series_of(expr@) == Some(s@),
            None => first_series_of(expr@) is None,
        },
    decreases expr,
{
    match expr {
        MetricExpr::Series(s) => Some(s),
        MetricExpr::Function { name, arg, params } => first_series(arg),
        MetricExpr::Transform { name, arg, args } => first_series(arg),
        MetricExpr::Change { kind, inner_agg, shift, arg } => first_series(arg),
        MetricExpr::Arith { op, lhs, rhs } => match first_series(lhs) {
            Some(s) => Some(s),
            None => first_series(rhs),
        },
        MetricExpr::Combine { name, args } => {
            let mut found: Option<&'a Series> = None;
            let mut i: usize = 0;
            let ghost views = exprs_view(args@);
            proof {
                lemma_exprs_view(args@);
            }
            while i < args.len()
                invariant
                    expr matches MetricExpr::Combine { name: n, args: a } && a == args,
                    views == exprs_view(args@),
                    views.len() == args@.len(),
                    forall|k: int|
                        0 <= k < views.len() ==> #[trigger] views[k] == expr_view(args@[k]),
                    i <= args@.len(),
                    match found {
                        Some(s) => first_series_in(views.take(i as int)) == Some(s@),
                        None => first_series_in(views.take(i as int)) is None,
                    },
                decreases args@.len() - i,
            {
                assert(decreases_to!(expr => args@[i as int]));
                if found.is_none() {
                    found = first_series(&args[i]);
                }
                proof {
                    assert(views.take(i + 1).drop_last() =~= views.take(i as int));
                    assert(views.take(i + 1).last() == views[i as int]);
                }
                i += 1;
            }
            assert(views.take(i as int) =~= views);
            found
        },
        MetricExpr::Scalar(_) => None,
    }
}

/// The top-most evaluation function of an expression, if any.
fn top_function(expr: &MetricExpr) -> (r: Option<FuncKind>)
    ensures
        r == top_function_of(expr@),
    decreases expr,
{
    match expr {
        MetricExpr::Function { name, arg, params } => Some(*name),
        MetricExpr::Transform { name, arg, args } => top_function(arg),
        MetricExpr::Change { kind, inner_agg, shift, arg } => top_function(arg),
        MetricExpr::Arith { op, lhs, rhs } => match top_function(lhs) {
            Some(name) => Some(name),
            None => top_function(rhs),
        },
        MetricExpr::Combine { name, args } => {
            let mut found: Option<FuncKind> = None;
            let mut i: usize = 0;
            let ghost views = exprs_view(args@);
            proof {
                lemma_exprs_view(args@);
            }
            while i < args.len()
                invariant
                    expr matches MetricExpr::Combine { name: n, args: a } && a == args,
                    views == exprs_view(args@),
                    views.len() == args@.len(),
                    forall|k: int|
                        0 <= k < views.len() ==> #[trigger] views[k] == expr_view(args@[k]),
                    i <= args@.len(),
                    found == top_function_in(views.take(i as int)),
                decreases args@.len() - i,
            {
                assert(decreases_to!(expr => args@[i as int]));
                if found.is_none() {
                    found = top_function(&args[i]);
                }
                proof {
                    assert(views.take(i + 1).drop_last() =~= views.take(i as int));
                    assert(views.take(i + 1).last() == views[i as int]);
                }
                i += 1;
            }
            assert(views.take(i as int) =~= views);
            found
        },
        _ => None,
    }
}

fn metric_headline(expr: &MetricExpr, metric: Option<&str>) -> (out: String)
    ensures
        out@ == headline(
            expr@,
            match metric {
                Some(m) => Some(m@),
                None => None,
            },
        ),
{
    let kind = match top_function(expr) {
        Some(FuncKind::Anomalies) => "Anomaly detection",
        Some(FuncKind::Outliers) => "Outlier detection",
        Some(FuncKind::Forecast) => "Forecast alert",
        None => match expr {
            MetricExpr::Change { kind, inner_agg, shift, arg } => change_word(*kind, true),
            _ => "Threshold alert",
        },
    };
    let mut out = copy_of(kind);
    out.append(" on ");
    out.append(metric.unwrap_or("metric"));
    out
}

/// A boolean tree, with its ids marked and each operation in parentheses.
pub fn render_composite(c: &CompositeExpr) -> (out: String)
    ensures
        out@ == composite_text(c@),
    decreases c,
{
    match c {
        CompositeExpr::Ref(r) => {
            let mut out = copy_of("#");
            out.append(r.id.as_str());
            out
        },
        CompositeExpr::Not(inner) => {
            let mut out = copy_of("!");
            out.append(render_composite(inner).as_str());
            out
        },
        CompositeExpr::Binary { op, lhs, rhs } => {
            let mut out = copy_of("(");
            out.append(render_composite(lhs).as_str());
            out.append(" ");
            out.append(op.as_token());
            out.append(" ");
            out.append(render_composite(rhs).as_str());
            out.append(")");
            out
        },
    }
}

// ----- queries ------------------------------------------------------------------

fn explain_metric(m: &MetricQuery) -> (out: String)
    ensures
        out@ == metric_text(m@),
{
    let mut out = copy_of("Alert if the ");
    out.append(time_agg_word(m.time_aggregation));
    out.append(" over the ");
    out.append(strip_all(m.window.display.as_str(), "last ").as_str());
    out.append(" of ");
    out.append(describe_expr(&m.expr).as_str());
    out.append(" is ");
    out.append(render_condition(&m.condition).as_str());
    out.append(".");
    out
}

fn explain_search(s: &SearchQuery) -> (out: String)
    ensures
        out@ == search_text(s@),
{
    let mut out = copy_of("Over ");
    out.append(s.last.as_str());
    out.append(", count ");
    out.append(source_noun(s.source));
    out.append(" matching `");
    out.append(s.raw_search.as_str());
    out.append("`");
    append_list(&mut out, ", grouped by ", &s.group_by, "");
    out.append(" (rollup ");
    out.append(s.rollup_method.as_str());
    out.append("), alert ");
    out.append(render_condition(&s.condition).as_str());
    out.append(".");
    out
}

fn explain_check(c: &CheckQuery) -> (out: String)
    ensures
        out@ == check_text(c@),
{
    let mut out = copy_of("Evaluates the status of service check `");
    out.append(c.check.as_str());
    out.append("` over its last ");
    out.append(decimal_of(c.last as u64).as_str());
    out.append(" runs");
    append_list(&mut out, " grouped by ", &c.by, "");
    out.append(".");
    out
}

fn explain_slo(s: &SloQuery) -> (out: String)
    ensures
        out@ == slo_text(s@),
{
    let mut out = copy_of("Alerts when the error budget for SLO `");
    out.append(s.id.as_str());
    out.append("` over ");
    out.append(s.over.as_str());
    out.append(" is ");
    out.append(render_condition(&s.condition).as_str());
    out.append(".");
    out
}

/// Renders a query as one paragraph of plain English.
#[must_use]
pub fn explain(query: &MonitorQuery) -> (out: String)
    ensures
        out@ == explanation(query@),
{
    match query {
        MonitorQuery::Metric(m) => explain_metric(m),
        MonitorQuery::Search(s) => explain_search(s),
        MonitorQuery::ServiceCheck(c) => explain_check(c),
        MonitorQuery::Slo(s) => explain_slo(s),
        MonitorQuery::Composite(c) => {
            let mut out = copy_of("Alerts when this boolean condition over other monitors holds: ");
            out.append(render_composite(c).as_str());
            out.append(".");
            out
        },
        MonitorQuery::Unparsed { raw, reason, offset } => {
            let mut out = copy_of("Raw Datadog query (could not be parsed: ");
            out.append(reason.as_str());
            out.append(").");
            out
        },
    }
}

/// A summary with nothing but a headline and the query.
fn new_summary(headline: String, raw: &str) -> (r: QuerySummary)
    ensures
        r@ == bare_summary(headline@, raw@),
{
    let r = QuerySummary {
        headline,
        metric: None,
        scope: Vec::new(),
        group_by: Vec::new(),
        window: None,
        evaluation: None,
        condition: None,
        raw: copy_of(raw),
    };
    assert(r@.scope =~= seq![]);
    assert(r@.group_by =~= seq![]);
    r
}

fn summarize_metric(m: &MetricQuery, raw: &str) -> (r: QuerySummary)
    ensures
        r@ == metric_summary(m@, raw@),
{
    let mut s = new_summary(String::new(), raw);
    match first_series(&m.expr) {
        Some(series) => {
            s.metric = Some(copy_of(series.metric.as_str()));
            s.scope = keyvals(&series.filter);
            s.group_by = copy_all(&series.group_by);
            s.headline = metric_headline(&m.expr, Some(series.metric.as_str()));
        },
        None => {
            s.headline = metric_headline(&m.expr, None);
        },
    }
    s.window = Some(copy_of(m.window.display.as_str()));
    s.evaluation = evaluation_phrase(&m.expr);
    s.condition = Some(render_condition(&m.condition));
    s
}

fn summarize_search(q: &SearchQuery, raw: &str) -> (r: QuerySummary)
    ensures
        r@ == summary(MonitorQueryView::Search(q@), raw@),
{
    let mut headline = copy_of(source_label(q.source));
    headline.append(" search");
    let mut evaluation = copy_of("rollup ");
    evaluation.append(q.rollup_method.as_str());
    let mut s = new_summary(headline, raw);
    s.metric = Some(copy_of(q.raw_search.as_str()));
    s.group_by = copy_all(&q.group_by);
    s.window = Some(copy_of(q.last.as_str()));
    s.evaluation = Some(evaluation);
    s.condition = Some(render_condition(&q.condition));
    s
}

/// Renders a query as a structured summary.
///
/// `raw` is the text of the query, which the summary keeps verbatim.
#[must_use]
pub fn summarize(query: &MonitorQuery, raw: &str) -> (r: QuerySummary)
    ensures
        r@ == summary(query@, raw@),
{
    match query {
        MonitorQuery::Metric(m) => summarize_metric(m, raw),
        MonitorQuery::Search(q) => summarize_search(q, raw),
        MonitorQuery::ServiceCheck(c) => {
            let mut headline = copy_of("Service check `");
            headline.append(c.check.as_str());
            headline.append("`");
            let mut condition = copy_of("last ");
            condition.append(decimal_of(c.last as u64).as_str());
            condition.append(" runs by status");
            let mut s = new_summary(headline, raw);
            s.group_by = copy_all(&c.by);
            s.condition = Some(condition);
            s
        },
        MonitorQuery::Slo(q) => {
            let mut headline = copy_of("SLO error budget `");
            headline.append(q.id.as_str());
            headline.append("`");
            let mut s = new_summary(headline, raw);
            s.window = Some(copy_of(q.over.as_str()));
            s.condition = Some(render_condition(&q.condition));
            s
        },
        MonitorQuery::Composite(c) => {
            let mut s = new_summary(copy_of("Composite monitor"), raw);
            s.condition = Some(render_composite(c));
            s
        },
        MonitorQuery::Unparsed { raw: kept, reason, offset } => new_summary(
            copy_of("Raw Datadog query"),
            raw,
        ),
    }
}

} // verus!
