//! What the contracts see of a tree is the tree itself: each part of a view is that
//! part of the value, under the same name.

use vstd::prelude::*;
use crate::ast::{
    lemma_exprs_view, CheckQuery, CompositeExpr, Filter, FuncParam, MetricExpr, MetricQuery,
    Modifier, MonitorQuery, ParamValue, SearchQuery, Series, SloQuery, SpaceAgg, Window,
};
use crate::ast::{
    CompositeExprView, FilterView, MetricExprView, MonitorQueryView, ParamValueView, SpaceAggView,
};
use crate::explain::{KeyVal, QuerySummary};

verus! {

/// A query is seen in its dialect.
pub proof fn law_queries_are_seen(q: MonitorQuery)
    ensures
        match q {
            MonitorQuery::Metric(m) => q@ == MonitorQueryView::Metric(m@),
            MonitorQuery::Search(s) => q@ == MonitorQueryView::Search(s@),
            MonitorQuery::ServiceCheck(c) => q@ == MonitorQueryView::ServiceCheck(c@),
            MonitorQuery::Slo(s) => q@ == MonitorQueryView::Slo(s@),
            MonitorQuery::Composite(c) => q@ == MonitorQueryView::Composite(c@),
            MonitorQuery::Unparsed { raw, reason, offset } => q@ == (MonitorQueryView::Unparsed {
                raw: raw@,
                reason: reason@,
                offset: offset as nat,
            }),
        },
{
}

/// The parts of a metric query and of a window.
pub proof fn law_metric_queries_are_seen(m: MetricQuery, w: Window)
    ensures
        m@.time_aggregation == m.time_aggregation,
        m@.window == m.window@,
        m@.expr == m.expr@,
        m@.condition == m.condition,
        w@.raw == w.raw@,
        w@.seconds == w.seconds,
        w@.display == w.display@,
{
}

/// The parts of an expression.
pub proof fn law_expressions_are_seen(e: MetricExpr)
    ensures
        match e {
            MetricExpr::Series(s) => e@ == MetricExprView::Series(s@),
            MetricExpr::Function { name, arg, params } => e@ matches MetricExprView::Function {
                name: n,
                arg: a,
                params: p,
            } && n == name && *a == (*arg)@ && p.len() == params@.len() && forall|i: int|
                0 <= i < p.len() ==> #[trigger] p[i] == params@[i]@,
            MetricExpr::Transform { name, arg, args } => e@ matches MetricExprView::Transform {
                name: n,
                arg: a,
                args: v,
            } && n == name@ && *a == (*arg)@ && v.len() == args@.len() && forall|i: int|
                0 <= i < v.len() ==> #[trigger] v[i] == args@[i]@,
            MetricExpr::Combine { name, args } => e@ matches MetricExprView::Combine {
                name: n,
                args: v,
            } && n == name@ && v.len() == args@.len() && forall|i: int|
                0 <= i < v.len() ==> #[trigger] v[i] == args@[i]@,
            MetricExpr::Arith { op, lhs, rhs } => e@ matches MetricExprView::Arith {
                op: o,
                lhs: l,
                rhs: r,
            } && o == op && *l == (*lhs)@ && *r == (*rhs)@,
            MetricExpr::Change { kind, inner_agg, shift, arg } => e@
                matches MetricExprView::Change { kind: k, inner_agg: g, shift: w, arg: a } && k == kind && g == inner_agg && w == shift@ && *a == (*arg)@,
            MetricExpr::Scalar(x) => e@ == MetricExprView::Scalar(x),
        },
{
    if let MetricExpr::Combine { name, args } = e {
        lemma_exprs_view(args@);
    }
}

/// The parts of a series, of its filters and of its modifiers.
pub proof fn law_series_are_seen(s: Series, f: Filter, m: Modifier)
    ensures
        s@.space_aggregation == s.space_aggregation@,
        s@.metric == s.metric@,
        s@.filter.len() == s.filter@.len(),
        forall|i: int| 0 <= i < s.filter@.len() ==> #[trigger] s@.filter[i] == s.filter@[i]@,
        s@.group_by.len() == s.group_by@.len(),
        forall|i: int| 0 <= i < s.group_by@.len() ==> #[trigger] s@.group_by[i] == s.group_by@[i]@,
        s@.modifiers.len() == s.modifiers@.len(),
        forall|i: int|
            0 <= i < s.modifiers@.len() ==> #[trigger] s@.modifiers[i] == s.modifiers@[i]@,
        match f {
            Filter::All => f@ == FilterView::All,
            Filter::Glob(g) => f@ == FilterView::Glob(g@),
            Filter::Tag { negated, key, value } => f@ == (FilterView::Tag {
                negated,
                key: key@,
                value: value@,
            }),
        },
        m@.name == m.name@,
        m@.args.len() == m.args@.len(),
        forall|i: int| 0 <= i < m.args@.len() ==> #[trigger] m@.args[i] == m.args@[i]@,
{
}

/// The parts of a parameter, its value and a space aggregation.
pub proof fn law_parameters_are_seen(p: FuncParam, v: ParamValue, a: SpaceAgg)
    ensures
        p.key matches Some(key) ==> p@.key == Some(key@),
        p.key is None ==> p@.key is None,
        p@.value == p.value@,
        match v {
            ParamValue::Bool(b) => v@ == ParamValueView::Bool(b),
            ParamValue::Number(x) => v@ == ParamValueView::Number(x),
            ParamValue::Str(s) => v@ == ParamValueView::Str(s@),
        },
        match a {
            SpaceAgg::Avg => a@ == SpaceAggView::Avg,
            SpaceAgg::Sum => a@ == SpaceAggView::Sum,
            SpaceAgg::Min => a@ == SpaceAggView::Min,
            SpaceAgg::Max => a@ == SpaceAggView::Max,
            SpaceAgg::Count => a@ == SpaceAggView::Count,
            SpaceAgg::Percentile(rank) => a@ == SpaceAggView::Percentile(rank@),
        },
{
}

/// The parts of a search.
pub proof fn law_searches_are_seen(s: SearchQuery)
    ensures
        s@.source == s.source,
        s@.raw_search == s.raw_search@,
        s.index matches Some(t) ==> s@.index == Some(t@),
        s.index is None ==> s@.index is None,
        s@.rollup_method == s.rollup_method@,
        s.rollup_arg matches Some(t) ==> s@.rollup_arg == Some(t@),
        s.rollup_arg is None ==> s@.rollup_arg is None,
        s@.group_by.len() == s.group_by@.len(),
        forall|i: int| 0 <= i < s.group_by@.len() ==> #[trigger] s@.group_by[i] == s.group_by@[i]@,
        s@.last == s.last@,
        s@.condition == s.condition,
{
}

/// The parts of a service check, of an error budget and of a boolean tree.
pub proof fn law_other_queries_are_seen(c: CheckQuery, s: SloQuery, t: CompositeExpr)
    ensures
        c@.check == c.check@,
        c@.last == c.last,
        c@.over.len() == c.over@.len(),
        forall|i: int| 0 <= i < c.over@.len() ==> #[trigger] c@.over[i] == c.over@[i]@,
        c@.by.len() == c.by@.len(),
        forall|i: int| 0 <= i < c.by@.len() ==> #[trigger] c@.by[i] == c.by@[i]@,
        s@.id == s.id@,
        s@.over == s.over@,
        s@.condition == s.condition,
        match t {
            CompositeExpr::Ref(r) => t@ == CompositeExprView::Ref(r.id@),
            CompositeExpr::Not(inner) => t@ matches CompositeExprView::Not(i) && *i == (*inner)@,
            CompositeExpr::Binary { op, lhs, rhs } => t@ matches CompositeExprView::Binary {
                op: o,
                lhs: l,
                rhs: r,
            } && o == op && *l == (*lhs)@ && *r == (*rhs)@,
        },
{
}

/// The parts of a summary and of its pairs.
pub proof fn law_summaries_are_seen(s: QuerySummary, p: KeyVal)
    ensures
        s@.headline == s.headline@,
        s.metric matches Some(t) ==> s@.metric == Some(t@),
        s.metric is None ==> s@.metric is None,
        s@.scope.len() == s.scope@.len(),
        forall|i: int| 0 <= i < s.scope@.len() ==> #[trigger] s@.scope[i] == s.scope@[i]@,
        s@.group_by.len() == s.group_by@.len(),
        forall|i: int| 0 <= i < s.group_by@.len() ==> #[trigger] s@.group_by[i] == s.group_by@[i]@,
        s.window matches Some(t) ==> s@.window == Some(t@),
        s.window is None ==> s@.window is None,
        s.evaluation matches Some(t) ==> s@.evaluation == Some(t@),
        s.evaluation is None ==> s@.evaluation is None,
        s.condition matches Some(t) ==> s@.condition == Some(t@),
        s.condition is None ==> s@.condition is None,
        s@.raw == s.raw@,
        p@.key == p.key@,
        p@.value == p.value@,
        p@.negated == p.negated,
{
}

} // verus!
