//! What the explanations and summaries of queries say.
//!
//! Texts are functions of the syntax tree alone, so that the same query always
//! reads the same.

use vstd::prelude::*;
use crate::ast::{
    ArithOp, ChangeKind, CheckQueryView, CmpOp, CompositeExprView, Condition, FilterView, FuncKind,
    FuncParamView, MetricExprView, MetricQueryView, MonitorQueryView, ParamValueView,
    SearchQueryView, SearchSource, SeriesView, SloQueryView, TimeAgg,
};
use crate::binary64::Binary64;
use crate::rendering::scalar_text;
use crate::text::{begins, decimal, joined};

verus! {

/// The view of a summary.
pub struct QuerySummaryView {
    pub headline: Seq<char>,
    pub metric: Option<Seq<char>>,
    pub scope: Seq<KeyValView>,
    pub group_by: Seq<Seq<char>>,
    pub window: Option<Seq<char>>,
    pub evaluation: Option<Seq<char>>,
    pub condition: Option<Seq<char>>,
    pub raw: Seq<char>,
}

/// The view of a scope pair.
pub struct KeyValView {
    pub key: Seq<char>,
    pub value: Seq<char>,
    pub negated: bool,
}

// ----- words --------------------------------------------------------------------

/// The word for a time aggregation.
pub open spec fn aggregation_word(agg: TimeAgg) -> Seq<char> {
    match agg {
        TimeAgg::Avg => "average"@,
        TimeAgg::Sum => "sum"@,
        TimeAgg::Min => "minimum"@,
        TimeAgg::Max => "maximum"@,
        TimeAgg::Count => "count"@,
        TimeAgg::Percentile => "percentile"@,
    }
}

/// The symbol of a comparison.
pub open spec fn comparison_symbol(op: CmpOp) -> Seq<char> {
    match op {
        CmpOp::Ge => "≥"@,
        CmpOp::Le => "≤"@,
        CmpOp::Eq => "="@,
        CmpOp::Ne => "≠"@,
        CmpOp::Gt => ">"@,
        CmpOp::Lt => "<"@,
    }
}

/// The symbol of an arithmetic operation.
pub open spec fn arith_symbol(op: ArithOp) -> Seq<char> {
    match op {
        ArithOp::Add => "+"@,
        ArithOp::Sub => "-"@,
        ArithOp::Mul => "×"@,
        ArithOp::Div => "÷"@,
    }
}

/// The name of a kind of change.
pub open spec fn change_name(kind: ChangeKind, capitalized: bool) -> Seq<char> {
    match (kind, capitalized) {
        (ChangeKind::Change, true) => "Change"@,
        (ChangeKind::Change, false) => "change"@,
        (ChangeKind::PctChange, true) => "Percentage change"@,
        (ChangeKind::PctChange, false) => "percentage change"@,
    }
}

/// What a search of `source` counts.
pub open spec fn counted_noun(source: SearchSource) -> Seq<char> {
    match source {
        SearchSource::Logs => "log events"@,
        SearchSource::Events => "events"@,
        SearchSource::Rum => "RUM events"@,
        SearchSource::ErrorTracking => "tracked errors"@,
    }
}

/// The label of a source.
pub open spec fn source_name(source: SearchSource) -> Seq<char> {
    match source {
        SearchSource::Logs => "Log"@,
        SearchSource::Events => "Event"@,
        SearchSource::Rum => "RUM"@,
        SearchSource::ErrorTracking => "Error-tracking"@,
    }
}

/// A name with spaces in place of underscores.
pub open spec fn spaced(name: Seq<char>) -> Seq<char> {
    name.map_values(
        |c: char|
            if c == '_' {
                ' '
            } else {
                c
            },
    )
}

/// The phrase for a transform.
pub open spec fn transform_phrase(name: Seq<char>) -> Seq<char> {
    if begins(name, "median_"@) {
        name.skip("median_"@.len() as int) + "-point median"@
    } else if begins(name, "ewma_"@) {
        name.skip("ewma_"@.len() as int) + "-point EWMA"@
    } else if name == "clamp_min"@ {
        "lower-clamped value"@
    } else if name == "clamp_max"@ {
        "upper-clamped value"@
    } else if name == "abs"@ {
        "absolute value"@
    } else if name == "count_nonzero"@ {
        "non-zero count"@
    } else {
        spaced(name)
    }
}

/// A condition: its symbol and the critical threshold.
pub open spec fn condition_text(c: Condition) -> Seq<char> {
    comparison_symbol(c.operator) + " "@ + scalar_text(c.critical.value)
}

/// `s` without `prefix`, as often as it begins with it.
pub open spec fn stripped(s: Seq<char>, prefix: Seq<char>) -> Seq<char>
    decreases s.len(),
{
    if prefix.len() > 0 && begins(s, prefix) {
        stripped(s.skip(prefix.len() as int), prefix)
    } else {
        s
    }
}

// ----- series -------------------------------------------------------------------

/// The pair that a filter is shown as: only tags are shown.
pub open spec fn chip(f: FilterView) -> Option<KeyValView> {
    match f {
        FilterView::Tag { negated, key, value } => Some(KeyValView { key, value, negated }),
        FilterView::All => None,
        FilterView::Glob(_) => None,
    }
}

/// The pairs of a list of filters, in order.
pub open spec fn chips(filters: Seq<FilterView>) -> Seq<KeyValView>
    decreases filters.len(),
{
    if filters.len() == 0 {
        seq![]
    } else {
        let before = chips(filters.drop_last());
        match chip(filters.last()) {
            Some(pair) => before.push(pair),
            None => before,
        }
    }
}

/// The text of a pair.
pub open spec fn chip_text(pair: KeyValView) -> Seq<char> {
    (if pair.negated {
        "not "@
    } else {
        ""@
    }) + pair.key + ":"@ + pair.value
}

/// The texts of a list of pairs.
pub open spec fn chip_texts(pairs: Seq<KeyValView>) -> Seq<Seq<char>> {
    pairs.map_values(|pair: KeyValView| chip_text(pair))
}

/// `before`, the list joined by commas, and `after`; nothing for no list.
pub open spec fn listed(before: Seq<char>, list: Seq<Seq<char>>, after: Seq<char>) -> Seq<char> {
    if list.len() == 0 {
        seq![]
    } else {
        before + joined(list, ", "@) + after
    }
}

/// A series: aggregation, metric, scope and grouping.
pub open spec fn series_text(s: SeriesView) -> Seq<char> {
    s.space_aggregation.token() + " of `"@ + s.metric + "`"@ + listed(
        " ("@,
        chip_texts(chips(s.filter)),
        ")"@,
    ) + listed(" by "@, s.group_by, ""@)
}

// ----- evaluation functions -----------------------------------------------------

/// The value of the `n`th positional parameter, if there is one.
pub open spec fn positional_value(params: Seq<FuncParamView>, n: nat) -> Option<ParamValueView>
    decreases params.len(),
{
    if params.len() == 0 {
        None
    } else if params[0].key is Some {
        positional_value(params.skip(1), n)
    } else if n == 0 {
        Some(params[0].value)
    } else {
        positional_value(params.skip(1), (n - 1) as nat)
    }
}

/// The value of the first parameter with the keyword `key`, if there is one.
pub open spec fn keyword_value(params: Seq<FuncParamView>, key: Seq<char>) -> Option<ParamValueView>
    decreases params.len(),
{
    if params.len() == 0 {
        None
    } else if params[0].key == Some(key) {
        Some(params[0].value)
    } else {
        keyword_value(params.skip(1), key)
    }
}

/// The first positional parameter where it is a string, otherwise `default`.
pub open spec fn algorithm(params: Seq<FuncParamView>, default: Seq<char>) -> Seq<char> {
    match positional_value(params, 0) {
        Some(ParamValueView::Str(s)) => s,
        _ => default,
    }
}

/// The second positional parameter where it is a number.
pub open spec fn bound(params: Seq<FuncParamView>) -> Option<Binary64> {
    match positional_value(params, 1) {
        Some(ParamValueView::Number(x)) => Some(x),
        _ => None,
    }
}

/// The text of the keyword parameter `key`: none where it is missing, empty or
/// a number.
pub open spec fn keyword_text(params: Seq<FuncParamView>, key: Seq<char>) -> Option<Seq<char>> {
    match keyword_value(params, key) {
        Some(ParamValueView::Str(s)) => if s.len() > 0 {
            Some(s)
        } else {
            None
        },
        Some(ParamValueView::Bool(b)) => Some(
            if b {
                "true"@
            } else {
                "false"@
            },
        ),
        _ => None,
    }
}

/// A number between `before` and `after`, nothing for none.
pub open spec fn bound_text(before: Seq<char>, x: Option<Binary64>, after: Seq<char>) -> Seq<char> {
    match x {
        Some(n) => before + scalar_text(n) + after,
        None => seq![],
    }
}

/// The seasonality of an anomaly detection, nothing for none.
pub open spec fn season_text(season: Option<Seq<char>>) -> Seq<char> {
    match season {
        Some(s) => ", "@ + s + " seasonality"@,
        None => seq![],
    }
}

/// The direction of an anomaly detection.
pub open spec fn direction(params: Seq<FuncParamView>) -> Seq<char> {
    match keyword_text(params, "direction"@) {
        Some(text) => text,
        None => "both"@,
    }
}

/// The phrase for an evaluation function with its parameters.
pub open spec fn function_text(name: FuncKind, params: Seq<FuncParamView>) -> Seq<char> {
    match name {
        FuncKind::Anomalies => "anomaly detection (algorithm "@ + algorithm(params, "basic"@)
            + bound_text(", ~"@, bound(params), "σ"@) + ", direction "@ + direction(params)
            + season_text(keyword_text(params, "seasonality"@)) + ")"@,
        FuncKind::Outliers => "outlier detection (algorithm "@ + algorithm(params, "DBSCAN"@)
            + bound_text(", tolerance "@, bound(params), ""@) + ")"@,
        FuncKind::Forecast => "forecast (algorithm "@ + algorithm(params, "linear"@) + ")"@,
    }
}

// ----- expressions --------------------------------------------------------------

/// The description of an expression.
pub open spec fn expr_text(e: MetricExprView) -> Seq<char>
    decreases e,
{
    match e {
        MetricExprView::Series(s) => series_text(s),
        MetricExprView::Function { name, arg, params } => function_text(name, params) + " ("@
            + expr_text(*arg) + ")"@,
        MetricExprView::Transform { name, arg, args } => transform_phrase(name) + " of "@
            + expr_text(*arg),
        MetricExprView::Combine { name, args } => name + " of ("@ + joined(expr_texts(args), ", "@)
            + ")"@,
        MetricExprView::Arith { op, lhs, rhs } => "("@ + expr_text(*lhs) + " "@ + arith_symbol(op)
            + " "@ + expr_text(*rhs) + ")"@,
        MetricExprView::Change { kind, inner_agg, shift, arg } => change_name(kind, false)
            + " over "@ + shift.display + " of "@ + expr_text(*arg),
        MetricExprView::Scalar(s) => scalar_text(s.value),
    }
}

/// The descriptions of a list of expressions.
pub open spec fn expr_texts(list: Seq<MetricExprView>) -> Seq<Seq<char>>
    decreases list,
{
    if list.len() == 0 {
        seq![]
    } else {
        expr_texts(list.drop_last()).push(expr_text(list.last()))
    }
}

/// The evaluation method of an expression, if it has one.
pub open spec fn evaluation(e: MetricExprView) -> Option<Seq<char>>
    decreases e,
{
    match e {
        MetricExprView::Function { name, arg, params } => Some(function_text(name, params)),
        MetricExprView::Change { kind, inner_agg, shift, arg } => Some(
            change_name(kind, false) + " over "@ + shift.display,
        ),
        MetricExprView::Arith { op, lhs, rhs } => match evaluation(*lhs) {
            Some(text) => Some(text),
            None => evaluation(*rhs),
        },
        MetricExprView::Transform { name, arg, args } => evaluation(*arg),
        _ => None,
    }
}

/// The first series of an expression, from left to right.
pub open spec fn first_series_of(e: MetricExprView) -> Option<SeriesView>
    decreases e,
{
    match e {
        MetricExprView::Series(s) => Some(s),
        MetricExprView::Function { name, arg, params } => first_series_of(*arg),
        MetricExprView::Transform { name, arg, args } => first_series_of(*arg),
        MetricExprView::Change { kind, inner_agg, shift, arg } => first_series_of(*arg),
        MetricExprView::Arith { op, lhs, rhs } => match first_series_of(*lhs) {
            Some(s) => Some(s),
            None => first_series_of(*rhs),
        },
        MetricExprView::Combine { name, args } => first_series_in(args),
        MetricExprView::Scalar(_) => None,
    }
}

/// The first series of a list of expressions.
pub open spec fn first_series_in(list: Seq<MetricExprView>) -> Option<SeriesView>
    decreases list,
{
    if list.len() == 0 {
        None
    } else {
        match first_series_in(list.drop_last()) {
            Some(s) => Some(s),
            None => first_series_of(list.last()),
        }
    }
}

/// The top-most evaluation function of an expression.
pub open spec fn top_function_of(e: MetricExprView) -> Option<FuncKind>
    decreases e,
{
    match e {
        MetricExprView::Function { name, arg, params } => Some(name),
        MetricExprView::Transform { name, arg, args } => top_function_of(*arg),
        MetricExprView::Change { kind, inner_agg, shift, arg } => top_function_of(*arg),
        MetricExprView::Arith { op, lhs, rhs } => match top_function_of(*lhs) {
            Some(name) => Some(name),
            None => top_function_of(*rhs),
        },
        MetricExprView::Combine { name, args } => top_function_in(args),
        _ => None,
    }
}

/// The top-most evaluation function of the first expression that has one.
pub open spec fn top_function_in(list: Seq<MetricExprView>) -> Option<FuncKind>
    decreases list,
{
    if list.len() == 0 {
        None
    } else {
        match top_function_in(list.drop_last()) {
            Some(name) => Some(name),
            None => top_function_of(list.last()),
        }
    }
}

/// The headline of a metric query whose subject is `metric`.
pub open spec fn headline(e: MetricExprView, metric: Option<Seq<char>>) -> Seq<char> {
    let subject = match metric {
        Some(m) => m,
        None => "metric"@,
    };
    let kind = match top_function_of(e) {
        Some(FuncKind::Anomalies) => "Anomaly detection"@,
        Some(FuncKind::Outliers) => "Outlier detection"@,
        Some(FuncKind::Forecast) => "Forecast alert"@,
        None => match e {
            MetricExprView::Change { kind, inner_agg, shift, arg } => change_name(kind, true),
            _ => "Threshold alert"@,
        },
    };
    kind + " on "@ + subject
}

/// A boolean tree.
pub open spec fn composite_text(c: CompositeExprView) -> Seq<char>
    decreases c,
{
    match c {
        CompositeExprView::Ref(id) => "#"@ + id,
        CompositeExprView::Not(inner) => "!"@ + composite_text(*inner),
        CompositeExprView::Binary { op, lhs, rhs } => "("@ + composite_text(*lhs) + " "@
            + op.token() + " "@ + composite_text(*rhs) + ")"@,
    }
}

// ----- queries ------------------------------------------------------------------

/// The explanation of a metric query.
pub open spec fn metric_text(m: MetricQueryView) -> Seq<char> {
    "Alert if the "@ + aggregation_word(m.time_aggregation) + " over the "@ + stripped(
        m.window.display,
        "last "@,
    ) + " of "@ + expr_text(m.expr) + " is "@ + condition_text(m.condition) + "."@
}

/// The explanation of a search.
pub open spec fn search_text(s: SearchQueryView) -> Seq<char> {
    "Over "@ + s.last + ", count "@ + counted_noun(s.source) + " matching `"@ + s.raw_search + "`"@
        + listed(", grouped by "@, s.group_by, ""@) + " (rollup "@ + s.rollup_method + "), alert "@
        + condition_text(s.condition) + "."@
}

/// The explanation of a service check.
pub open spec fn check_text(c: CheckQueryView) -> Seq<char> {
    "Evaluates the status of service check `"@ + c.check + "` over its last "@ + decimal(
        c.last as nat,
    ) + " runs"@ + listed(" grouped by "@, c.by, ""@) + "."@
}

/// The explanation of an error budget.
pub open spec fn slo_text(s: SloQueryView) -> Seq<char> {
    "Alerts when the error budget for SLO `"@ + s.id + "` over "@ + s.over + " is "@
        + condition_text(s.condition) + "."@
}

/// The explanation of a query.
pub open spec fn explanation(q: MonitorQueryView) -> Seq<char> {
    match q {
        MonitorQueryView::Metric(m) => metric_text(m),
        MonitorQueryView::Search(s) => search_text(s),
        MonitorQueryView::ServiceCheck(c) => check_text(c),
        MonitorQueryView::Slo(s) => slo_text(s),
        MonitorQueryView::Composite(c) =>
            "Alerts when this boolean condition over other monitors holds: "@ + composite_text(c)
            + "."@,
        MonitorQueryView::Unparsed { raw, reason, offset } =>
            "Raw Datadog query (could not be parsed: "@ + reason + ")."@,
    }
}

/// A summary with nothing but a headline and the query.
pub open spec fn bare_summary(headline: Seq<char>, raw: Seq<char>) -> QuerySummaryView {
    QuerySummaryView {
        headline,
        metric: None,
        scope: seq![],
        group_by: seq![],
        window: None,
        evaluation: None,
        condition: None,
        raw,
    }
}

/// The summary of a metric query.
pub open spec fn metric_summary(m: MetricQueryView, raw: Seq<char>) -> QuerySummaryView {
    let first = first_series_of(m.expr);
    let metric = match first {
        Some(s) => Some(s.metric),
        None => None,
    };
    QuerySummaryView {
        headline: headline(m.expr, metric),
        metric,
        scope: match first {
            Some(s) => chips(s.filter),
            None => seq![],
        },
        group_by: match first {
            Some(s) => s.group_by,
            None => seq![],
        },
        window: Some(m.window.display),
        evaluation: evaluation(m.expr),
        condition: Some(condition_text(m.condition)),
        raw,
    }
}

/// The summary of a query.
pub open spec fn summary(q: MonitorQueryView, raw: Seq<char>) -> QuerySummaryView {
    match q {
        MonitorQueryView::Metric(m) => metric_summary(m, raw),
        MonitorQueryView::Search(s) => QuerySummaryView {
            metric: Some(s.raw_search),
            group_by: s.group_by,
            window: Some(s.last),
            evaluation: Some("rollup "@ + s.rollup_method),
            condition: Some(condition_text(s.condition)),
            ..bare_summary(source_name(s.source) + " search"@, raw)
        },
        MonitorQueryView::ServiceCheck(c) => QuerySummaryView {
            group_by: c.by,
            condition: Some("last "@ + decimal(c.last as nat) + " runs by status"@),
            ..bare_summary("Service check `"@ + c.check + "`"@, raw)
        },
        MonitorQueryView::Slo(s) => QuerySummaryView {
            window: Some(s.over),
            condition: Some(condition_text(s.condition)),
            ..bare_summary("SLO error budget `"@ + s.id + "`"@, raw)
        },
        MonitorQueryView::Composite(c) => QuerySummaryView {
            condition: Some(composite_text(c)),
            ..bare_summary("Composite monitor"@, raw)
        },
        MonitorQueryView::Unparsed { .. } => bare_summary("Raw Datadog query"@, raw),
    }
}

} // verus!
