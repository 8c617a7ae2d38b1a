//! The typed syntax tree of monitor queries.
//!
//! Each type that holds strings or lists has a view, named after it, in which
//! they are sequences; the contracts speak of these views.

use vstd::prelude::*;
use crate::binary64::Binary64;
use crate::text::{copy_all, copy_of, texts};

verus! {

/// A parsed monitor query, tagged by dialect.
///
/// [`MonitorQuery::Unparsed`] keeps a query that the grammar does not model
/// verbatim, so that a consumer can always render something.
#[derive(Debug, PartialEq)]
#[non_exhaustive]
pub enum MonitorQuery {
    /// `time-agg(window): expr op threshold`, the primary dialect.
    Metric(MetricQuery),
    /// A search over `logs`, `events`, `rum` or `error-tracking`.
    Search(SearchQuery),
    /// `"check".over(...).by(...).last(n).count_by_status()`.
    ServiceCheck(CheckQuery),
    /// `error_budget("<id>").over("7d") op n`.
    Slo(SloQuery),
    /// A boolean tree of references to monitors.
    Composite(CompositeExpr),
    /// A query that could not be parsed.
    Unparsed {
        /// The query, verbatim.
        raw: String,
        /// One-line reason why the query did not parse.
        reason: String,
        /// Byte offset into `raw` where parsing failed.
        offset: usize,
    },
}

/// A metric monitor query: `time_agg(window): expr op threshold`.
#[derive(Debug, PartialEq)]
pub struct MetricQuery {
    /// The time aggregation of the evaluation (`avg`, `sum`, `min`, `max`, `count`).
    pub time_aggregation: TimeAgg,
    /// The evaluation window (`last_5m`, `last_1d`, ...).
    pub window: Window,
    /// The metric expression under evaluation.
    pub expr: MetricExpr,
    /// The alerting condition.
    pub condition: Condition,
}

/// A metric expression: the tree that a visualization renders.
#[derive(Debug, PartialEq)]
#[non_exhaustive]
#[allow(inconsistent_fields)]
pub enum MetricExpr {
    /// A scoped metric: `space_agg:metric.name{filter} by {tags}.modifiers`.
    Series(Series),
    /// An evaluation function: `anomalies`, `outliers` or `forecast`.
    Function {
        /// Which evaluation function.
        name: FuncKind,
        /// The expression that the function evaluates.
        arg: Box<MetricExpr>,
        /// Positional and keyword parameters.
        params: Vec<FuncParam>,
    },
    /// A transform such as `rollup`, `clamp_min`, `median_N`, `abs` or
    /// `moving_rollup`.
    Transform {
        /// The transform's name, verbatim (`median_5`).
        name: String,
        /// The expression that is transformed.
        arg: Box<MetricExpr>,
        /// Arguments of the transform. Most are numbers (`rollup(60)`); some
        /// are strings, as in `moving_rollup(expr, 60, 'avg')`.
        args: Vec<ParamValue>,
    },
    /// A spatial combiner over several expressions, such as
    /// `max(avg:a{*}, avg:b{*})`.
    Combine {
        /// The combining aggregator (`max`, `min`, `sum`, `avg`, `count`).
        name: String,
        /// The combined expressions, two or more in a parsed query.
        args: Vec<MetricExpr>,
    },
    /// Arithmetic: `a + b`, `a / b * 100`.
    Arith {
        /// The operator.
        op: ArithOp,
        /// Left operand.
        lhs: Box<MetricExpr>,
        /// Right operand.
        rhs: Box<MetricExpr>,
    },
    /// `change()` or `pct_change()` over a shift of the window.
    Change {
        /// Absolute or percentage change.
        kind: ChangeKind,
        /// The time aggregation applied before the shift.
        inner_agg: TimeAgg,
        /// The shift of the window to compare against.
        shift: Window,
        /// The inner expression.
        arg: Box<MetricExpr>,
    },
    /// A number as an operand.
    Scalar(Scalar),
}

/// A scoped metric series.
#[derive(Debug, PartialEq)]
pub struct Series {
    /// Spatial aggregation across reporting sources.
    pub space_aggregation: SpaceAgg,
    /// The metric name, such as `system.cpu.user`.
    pub metric: String,
    /// Scope filters, such as `env:production`, `!result:ok`.
    pub filter: Vec<Filter>,
    /// Grouping tags of `by {tag}`.
    pub group_by: Vec<String>,
    /// Postfix modifiers, such as `as_count()`, `fill(zero)`.
    pub modifiers: Vec<Modifier>,
}

/// A scope filter inside `{ ... }`.
#[derive(Debug, PartialEq, Eq)]
pub enum Filter {
    /// `key:value`, negated by a leading `!`.
    Tag {
        /// Whether the filter is negated (`!key:value`).
        negated: bool,
        /// The tag key.
        key: String,
        /// The tag value.
        value: String,
    },
    /// `*`, which matches all.
    All,
    /// A bare glob such as `web-*`.
    Glob(String),
}

/// A postfix modifier of a series.
#[derive(Debug, PartialEq, Eq)]
pub struct Modifier {
    /// The modifier's name, such as `as_count`, `fill`, `rollup`.
    pub name: String,
    /// Its arguments, verbatim: `["zero"]` for `fill(zero)`.
    pub args: Vec<String>,
}

/// The alerting condition: a comparison operator and thresholds.
#[derive(Debug, PartialEq)]
pub struct Condition {
    /// Comparison operator.
    pub operator: CmpOp,
    /// The critical threshold.
    pub critical: Scalar,
    /// The critical-recovery threshold, if any.
    pub critical_recovery: Option<Scalar>,
    /// The warning threshold, if any.
    pub warning: Option<Scalar>,
    /// The warning-recovery threshold, if any.
    pub warning_recovery: Option<Scalar>,
}

/// A query over a search source.
#[derive(Debug, PartialEq)]
pub struct SearchQuery {
    /// The search source.
    pub source: SearchSource,
    /// The inner search string, verbatim.
    pub raw_search: String,
    /// The argument of `.index("...")`, if any.
    pub index: Option<String>,
    /// The method of `.rollup` (`count`, `avg`).
    pub rollup_method: String,
    /// The second argument of `.rollup`, if any.
    pub rollup_arg: Option<String>,
    /// Grouping tags of `.by("...")`.
    pub group_by: Vec<String>,
    /// The window argument of `.last("...")`.
    pub last: String,
    /// The alerting condition.
    pub condition: Condition,
}

/// The source of a [`SearchQuery`].
#[derive(Debug, Clone, Copy, PartialEq, Eq)]
pub enum SearchSource {
    /// `logs(...)`.
    Logs,
    /// `events(...)`.
    Events,
    /// `rum(...)`.
    Rum,
    /// `error-tracking(...)`.
    ErrorTracking,
}

/// A service-check query.
#[derive(Debug, PartialEq, Eq)]
pub struct CheckQuery {
    /// The check name.
    pub check: String,
    /// Scope tags of `.over(...)`.
    pub over: Vec<String>,
    /// Grouping tags of `.by(...)`.
    pub by: Vec<String>,
    /// The number of recent check runs of `.last(n)`.
    pub last: u32,
}

/// An SLO error-budget query.
#[derive(Debug, PartialEq)]
pub struct SloQuery {
    /// The SLO identifier.
    pub id: String,
    /// The window argument of `.over("...")`.
    pub over: String,
    /// The alerting condition.
    pub condition: Condition,
}

/// A boolean tree over references to monitors.
#[derive(Debug, PartialEq, Eq)]
pub enum CompositeExpr {
    /// A reference to another monitor by id.
    Ref(MonitorRef),
    /// Logical negation.
    Not(Box<CompositeExpr>),
    /// A binary boolean combination.
    Binary {
        /// `&&` or `||`.
        op: BoolOp,
        /// Left operand.
        lhs: Box<CompositeExpr>,
        /// Right operand.
        rhs: Box<CompositeExpr>,
    },
}

/// A reference to another monitor by its numeric id, kept as the verbatim
/// token.
#[derive(Debug, PartialEq, Eq)]
pub struct MonitorRef {
    /// The id of the monitor.
    pub id: String,
}

/// A normalized evaluation window: `last_5m` is 300 seconds, displayed as
/// `last 5 minutes`.
#[derive(Debug, PartialEq, Eq)]
pub struct Window {
    /// The window token, verbatim.
    pub raw: String,
    /// The length in seconds.
    pub seconds: u64,
    /// A human-readable rendering, such as `last 5 minutes`.
    pub display: String,
}

/// A number: a threshold or an operand.
#[derive(Debug, Clone, Copy, PartialEq)]
pub struct Scalar {
    /// The numeric value.
    pub value: Binary64,
}

/// A parameter of an evaluation function: positional (`'agile'`, `5`) without
/// a key, keyword (`direction='below'`) with one.
#[derive(Debug, PartialEq)]
pub struct FuncParam {
    /// The keyword, if any.
    pub key: Option<String>,
    /// The parameter's value.
    pub value: ParamValue,
}

/// The value of a parameter.
#[derive(Debug, PartialEq)]
pub enum ParamValue {
    /// A boolean.
    Bool(bool),
    /// A number.
    Number(Binary64),
    /// A string, without quotes.
    Str(String),
}

/// Evaluation-time aggregation.
#[derive(Debug, Clone, Copy, PartialEq, Eq)]
pub enum TimeAgg {
    /// `avg`
    Avg,
    /// `sum`
    Sum,
    /// `min`
    Min,
    /// `max`
    Max,
    /// `count`
    Count,
    /// `percentile`
    Percentile,
}

/// Spatial aggregation across reporting sources: a named aggregator or a
/// percentile selector such as `p95` or `p99.9`.
#[derive(Debug, PartialEq, Eq)]
pub enum SpaceAgg {
    /// `avg`
    Avg,
    /// `sum`
    Sum,
    /// `min`
    Min,
    /// `max`
    Max,
    /// `count`
    Count,
    /// A percentile, `p95` for `Percentile("95")`. The rank is kept as text,
    /// so that `p99.9` is kept without loss.
    Percentile(String),
}

/// An evaluation function.
#[derive(Debug, Clone, Copy, PartialEq, Eq)]
pub enum FuncKind {
    /// `anomalies`
    Anomalies,
    /// `outliers`
    Outliers,
    /// `forecast`
    Forecast,
}

/// An arithmetic operator.
#[derive(Debug, Clone, Copy, PartialEq, Eq)]
pub enum ArithOp {
    /// `+`
    Add,
    /// `-`
    Sub,
    /// `*`
    Mul,
    /// `/`
    Div,
}

/// A kind of change function.
#[derive(Debug, Clone, Copy, PartialEq, Eq)]
pub enum ChangeKind {
    /// `change`
    Change,
    /// `pct_change`
    PctChange,
}

/// A boolean operator of a composite query.
#[derive(Debug, Clone, Copy, PartialEq, Eq)]
pub enum BoolOp {
    /// `&&`
    And,
    /// `||`
    Or,
}

/// A comparison operator of a condition.
#[derive(Debug, Clone, Copy, PartialEq, Eq)]
pub enum CmpOp {
    /// `>=`
    Ge,
    /// `<=`
    Le,
    /// `==`
    Eq,
    /// `!=`
    Ne,
    /// `>`
    Gt,
    /// `<`
    Lt,
}

// ----- views --------------------------------------------------------------------

/// The view of a [`MonitorQuery`].
pub enum MonitorQueryView {
    Metric(MetricQueryView),
    Search(SearchQueryView),
    ServiceCheck(CheckQueryView),
    Slo(SloQueryView),
    Composite(CompositeExprView),
    Unparsed { raw: Seq<char>, reason: Seq<char>, offset: nat },
}

/// The view of a [`MetricQuery`].
pub struct MetricQueryView {
    pub time_aggregation: TimeAgg,
    pub window: WindowView,
    pub expr: MetricExprView,
    pub condition: Condition,
}

/// The view of a [`MetricExpr`].
#[allow(inconsistent_fields)]
pub enum MetricExprView {
    Series(SeriesView),
    Function { name: FuncKind, arg: Box<MetricExprView>, params: Seq<FuncParamView> },
    Transform { name: Seq<char>, arg: Box<MetricExprView>, args: Seq<ParamValueView> },
    Combine { name: Seq<char>, args: Seq<MetricExprView> },
    Arith { op: ArithOp, lhs: Box<MetricExprView>, rhs: Box<MetricExprView> },
    Change { kind: ChangeKind, inner_agg: TimeAgg, shift: WindowView, arg: Box<MetricExprView> },
    Scalar(Scalar),
}

/// The view of a [`Series`].
pub struct SeriesView {
    pub space_aggregation: SpaceAggView,
    pub metric: Seq<char>,
    pub filter: Seq<FilterView>,
    pub group_by: Seq<Seq<char>>,
    pub modifiers: Seq<ModifierView>,
}

/// The view of a [`Filter`].
pub enum FilterView {
    Tag { negated: bool, key: Seq<char>, value: Seq<char> },
    All,
    Glob(Seq<char>),
}

/// The view of a [`Modifier`].
pub struct ModifierView {
    pub name: Seq<char>,
    pub args: Seq<Seq<char>>,
}

/// The view of a [`SearchQuery`].
pub struct SearchQueryView {
    pub source: SearchSource,
    pub raw_search: Seq<char>,
    pub index: Option<Seq<char>>,
    pub rollup_method: Seq<char>,
    pub rollup_arg: Option<Seq<char>>,
    pub group_by: Seq<Seq<char>>,
    pub last: Seq<char>,
    pub condition: Condition,
}

/// The view of a [`CheckQuery`].
pub struct CheckQueryView {
    pub check: Seq<char>,
    pub over: Seq<Seq<char>>,
    pub by: Seq<Seq<char>>,
    pub last: u32,
}

/// The view of a [`SloQuery`].
pub struct SloQueryView {
    pub id: Seq<char>,
    pub over: Seq<char>,
    pub condition: Condition,
}

/// The view of a [`CompositeExpr`].
pub enum CompositeExprView {
    Ref(Seq<char>),
    Not(Box<CompositeExprView>),
    Binary { op: BoolOp, lhs: Box<CompositeExprView>, rhs: Box<CompositeExprView> },
}

/// The view of a [`Window`].
pub struct WindowView {
    pub raw: Seq<char>,
    pub seconds: u64,
    pub display: Seq<char>,
}

/// The view of a [`FuncParam`].
pub struct FuncParamView {
    pub key: Option<Seq<char>>,
    pub value: ParamValueView,
}

/// The view of a [`ParamValue`].
pub enum ParamValueView {
    Bool(bool),
    Number(Binary64),
    Str(Seq<char>),
}

/// The view of a [`SpaceAgg`].
pub enum SpaceAggView {
    Avg,
    Sum,
    Min,
    Max,
    Count,
    Percentile(Seq<char>),
}

/// The view of an optional string.
pub open spec fn optional(s: Option<String>) -> Option<Seq<char>> {
    match s {
        Some(t) => Some(t@),
        None => None,
    }
}

impl View for MonitorQuery {
    type V = MonitorQueryView;

    open spec fn view(&self) -> MonitorQueryView {
        match *self {
            MonitorQuery::Metric(q) => MonitorQueryView::Metric(q@),
            MonitorQuery::Search(q) => MonitorQueryView::Search(q@),
            MonitorQuery::ServiceCheck(q) => MonitorQueryView::ServiceCheck(q@),
            MonitorQuery::Slo(q) => MonitorQueryView::Slo(q@),
            MonitorQuery::Composite(q) => MonitorQueryView::Composite(q@),
            MonitorQuery::Unparsed { raw, reason, offset } => MonitorQueryView::Unparsed {
                raw: raw@,
                reason: reason@,
                offset: offset as nat,
            },
        }
    }
}

impl View for MetricQuery {
    type V = MetricQueryView;

    open spec fn view(&self) -> MetricQueryView {
        MetricQueryView {
            time_aggregation: self.time_aggregation,
            window: self.window@,
            expr: self.expr@,
            condition: self.condition,
        }
    }
}

impl View for MetricExpr {
    type V = MetricExprView;

    open spec fn view(&self) -> MetricExprView {
        expr_view(*self)
    }
}

/// The view of an expression.
pub open spec fn expr_view(e: MetricExpr) -> MetricExprView
    decreases e,
{
    match e {
        MetricExpr::Series(s) => MetricExprView::Series(s@),
        MetricExpr::Function { name, arg, params } => MetricExprView::Function {
            name,
            arg: Box::new(expr_view(*arg)),
            params: params@.map_values(|p: FuncParam| p@),
        },
        MetricExpr::Transform { name, arg, args } => MetricExprView::Transform {
            name: name@,
            arg: Box::new(expr_view(*arg)),
            args: args@.map_values(|p: ParamValue| p@),
        },
        MetricExpr::Combine { name, args } => MetricExprView::Combine {
            name: name@,
            args: exprs_view(args@),
        },
        MetricExpr::Arith { op, lhs, rhs } => MetricExprView::Arith {
            op,
            lhs: Box::new(expr_view(*lhs)),
            rhs: Box::new(expr_view(*rhs)),
        },
        MetricExpr::Change { kind, inner_agg, shift, arg } => MetricExprView::Change {
            kind,
            inner_agg,
            shift: shift@,
            arg: Box::new(expr_view(*arg)),
        },
        MetricExpr::Scalar(s) => MetricExprView::Scalar(s),
    }
}

/// The views of a list of expressions.
pub open spec fn exprs_view(s: Seq<MetricExpr>) -> Seq<MetricExprView>
    decreases s,
{
    if s.len() == 0 {
        seq![]
    } else {
        exprs_view(s.drop_last()).push(expr_view(s.last()))
    }
}

/// The views of a list of expressions, one by one.
pub proof fn lemma_exprs_view(s: Seq<MetricExpr>)
    ensures
        exprs_view(s).len() == s.len(),
        forall|i: int| 0 <= i < s.len() ==> #[trigger] exprs_view(s)[i] == expr_view(s[i]),
    decreases s.len(),
{
    if s.len() > 0 {
        lemma_exprs_view(s.drop_last());
    }
}

impl View for Series {
    type V = SeriesView;

    open spec fn view(&self) -> SeriesView {
        SeriesView {
            space_aggregation: self.space_aggregation@,
            metric: self.metric@,
            filter: self.filter@.map_values(|f: Filter| f@),
            group_by: texts(self.group_by@),
            modifiers: self.modifiers@.map_values(|m: Modifier| m@),
        }
    }
}

impl View for Filter {
    type V = FilterView;

    open spec fn view(&self) -> FilterView {
        match *self {
            Filter::Tag { negated, key, value } => FilterView::Tag {
                negated,
                key: key@,
                value: value@,
            },
            Filter::All => FilterView::All,
            Filter::Glob(g) => FilterView::Glob(g@),
        }
    }
}

impl View for Modifier {
    type V = ModifierView;

    open spec fn view(&self) -> ModifierView {
        ModifierView { name: self.name@, args: texts(self.args@) }
    }
}

impl View for SearchQuery {
    type V = SearchQueryView;

    open spec fn view(&self) -> SearchQueryView {
        SearchQueryView {
            source: self.source,
            raw_search: self.raw_search@,
            index: optional(self.index),
            rollup_method: self.rollup_method@,
            rollup_arg: optional(self.rollup_arg),
            group_by: texts(self.group_by@),
            last: self.last@,
            condition: self.condition,
        }
    }
}

impl View for CheckQuery {
    type V = CheckQueryView;

    open spec fn view(&self) -> CheckQueryView {
        CheckQueryView {
            check: self.check@,
            over: texts(self.over@),
            by: texts(self.by@),
            last: self.last,
        }
    }
}

impl View for SloQuery {
    type V = SloQueryView;

    open spec fn view(&self) -> SloQueryView {
        SloQueryView { id: self.id@, over: self.over@, condition: self.condition }
    }
}

impl View for CompositeExpr {
    type V = CompositeExprView;

    open spec fn view(&self) -> CompositeExprView {
        composite_view(*self)
    }
}

/// The view of a boolean tree.
pub open spec fn composite_view(c: CompositeExpr) -> CompositeExprView
    decreases c,
{
    match c {
        CompositeExpr::Ref(r) => CompositeExprView::Ref(r.id@),
        CompositeExpr::Not(inner) => CompositeExprView::Not(Box::new(composite_view(*inner))),
        CompositeExpr::Binary { op, lhs, rhs } => CompositeExprView::Binary {
            op,
            lhs: Box::new(composite_view(*lhs)),
            rhs: Box::new(composite_view(*rhs)),
        },
    }
}

impl View for Window {
    type V = WindowView;

    open spec fn view(&self) -> WindowView {
        WindowView { raw: self.raw@, seconds: self.seconds, display: self.display@ }
    }
}

impl View for FuncParam {
    type V = FuncParamView;

    open spec fn view(&self) -> FuncParamView {
        FuncParamView { key: optional(self.key), value: self.value@ }
    }
}

impl View for ParamValue {
    type V = ParamValueView;

    open spec fn view(&self) -> ParamValueView {
        match *self {
            ParamValue::Bool(b) => ParamValueView::Bool(b),
            ParamValue::Number(n) => ParamValueView::Number(n),
            ParamValue::Str(s) => ParamValueView::Str(s@),
        }
    }
}

impl View for SpaceAgg {
    type V = SpaceAggView;

    open spec fn view(&self) -> SpaceAggView {
        match *self {
            SpaceAgg::Avg => SpaceAggView::Avg,
            SpaceAgg::Sum => SpaceAggView::Sum,
            SpaceAgg::Min => SpaceAggView::Min,
            SpaceAgg::Max => SpaceAggView::Max,
            SpaceAgg::Count => SpaceAggView::Count,
            SpaceAgg::Percentile(rank) => SpaceAggView::Percentile(rank@),
        }
    }
}

// ----- copies -------------------------------------------------------------------

/// A copy of an optional string.
pub(crate) fn copy_optional(s: &Option<String>) -> (r: Option<String>)
    ensures
        optional(r) == optional(*s),
{
    match s {
        Some(t) => Some(copy_of(t.as_str())),
        None => None,
    }
}

/// A copy of a list, each element by `clone`.
pub(crate) fn copy_list<T: Clone + View>(v: &Vec<T>) -> (r: Vec<T>)
    requires
        forall|a: T, b: T| call_ensures(T::clone, (&a,), b) ==> b@ == a@,
        forall|a: T| call_requires(T::clone, (&a,)),
    ensures
        r@.len() == v@.len(),
        forall|i: int| 0 <= i < v@.len() ==> (#[trigger] r@[i])@ == v@[i]@,
{
    let mut r: Vec<T> = Vec::new();
    let mut i: usize = 0;
    while i < v.len()
        invariant
            forall|a: T, b: T| call_ensures(T::clone, (&a,), b) ==> b@ == a@,
            forall|a: T| call_requires(T::clone, (&a,)),
            i <= v@.len(),
            r@.len() == i,
            forall|j: int| 0 <= j < i ==> (#[trigger] r@[j])@ == v@[j]@,
        decreases v@.len() - i,
    {
        r.push(v[i].clone());
        i += 1;
    }
    r
}

impl Clone for MonitorQuery {
    fn clone(&self) -> (r: Self)
        ensures
            r@ == self@,
    {
        match self {
            MonitorQuery::Metric(q) => MonitorQuery::Metric(q.clone()),
            MonitorQuery::Search(q) => MonitorQuery::Search(q.clone()),
            MonitorQuery::ServiceCheck(q) => MonitorQuery::ServiceCheck(q.clone()),
            MonitorQuery::Slo(q) => MonitorQuery::Slo(q.clone()),
            MonitorQuery::Composite(q) => MonitorQuery::Composite(q.clone()),
            MonitorQuery::Unparsed { raw, reason, offset } => MonitorQuery::Unparsed {
                raw: copy_of(raw.as_str()),
                reason: copy_of(reason.as_str()),
                offset: *offset,
            },
        }
    }
}

impl Clone for MetricQuery {
    fn clone(&self) -> (r: Self)
        ensures
            r@ == self@,
    {
        MetricQuery {
            time_aggregation: self.time_aggregation,
            window: self.window.clone(),
            expr: self.expr.clone(),
            condition: self.condition.clone(),
        }
    }
}

impl Clone for MetricExpr {
    fn clone(&self) -> (r: Self)
        ensures
            r@ == self@,
        decreases self,
    {
        match self {
            MetricExpr::Series(s) => MetricExpr::Series(s.clone()),
            MetricExpr::Function { name, arg, params } => {
                let copied = copy_list(params);
                assert(copied@.map_values(|p: FuncParam| p@) =~= params@.map_values(
                    |p: FuncParam| p@,
                ));
                MetricExpr::Function {
                    name: *name,
                    arg: Box::new((&**arg).clone()),
                    params: copied,
                }
            },
            MetricExpr::Transform { name, arg, args } => {
                let copied = copy_list(args);
                assert(copied@.map_values(|p: ParamValue| p@) =~= args@.map_values(
                    |p: ParamValue| p@,
                ));
                MetricExpr::Transform {
                    name: copy_of(name.as_str()),
                    arg: Box::new((&**arg).clone()),
                    args: copied,
                }
            },
            MetricExpr::Combine { name, args } => {
                let mut copied: Vec<MetricExpr> = Vec::new();
                let mut i: usize = 0;
                while i < args.len()
                    invariant
                        self matches MetricExpr::Combine { name: n, args: a } && a == args,
                        i <= args@.len(),
                        copied@.len() == i,
                        exprs_view(copied@) == exprs_view(args@.take(i as int)),
                    decreases args@.len() - i,
                {
                    let ghost before = copied@;
                    assert(decreases_to!(self => args@[i as int]));
                    copied.push(args[i].clone());
                    proof {
                        assert(copied@.drop_last() =~= before);
                        assert(args@.take(i + 1).drop_last() =~= args@.take(i as int));
                    }
                    i += 1;
                }
                assert(args@.take(i as int) =~= args@);
                MetricExpr::Combine { name: copy_of(name.as_str()), args: copied }
            },
            MetricExpr::Arith { op, lhs, rhs } => MetricExpr::Arith {
                op: *op,
                lhs: Box::new((&**lhs).clone()),
                rhs: Box::new((&**rhs).clone()),
            },
            MetricExpr::Change { kind, inner_agg, shift, arg } => MetricExpr::Change {
                kind: *kind,
                inner_agg: *inner_agg,
                shift: shift.clone(),
                arg: Box::new((&**arg).clone()),
            },
            MetricExpr::Scalar(s) => MetricExpr::Scalar(*s),
        }
    }
}

impl Clone for Series {
    fn clone(&self) -> (r: Self)
        ensures
            r@ == self@,
    {
        let filter = copy_list(&self.filter);
        let modifiers = copy_list(&self.modifiers);
        proof {
            assert(filter@.map_values(|f: Filter| f@) =~= self.filter@.map_values(|f: Filter| f@));
            assert(modifiers@.map_values(|m: Modifier| m@) =~= self.modifiers@.map_values(
                |m: Modifier| m@,
            ));
        }
        Series {
            space_aggregation: self.space_aggregation.clone(),
            metric: copy_of(self.metric.as_str()),
            filter,
            group_by: copy_all(&self.group_by),
            modifiers,
        }
    }
}

impl Clone for Filter {
    fn clone(&self) -> (r: Self)
        ensures
            r@ == self@,
    {
        match self {
            Filter::Tag { negated, key, value } => Filter::Tag {
                negated: *negated,
                key: copy_of(key.as_str()),
                value: copy_of(value.as_str()),
            },
            Filter::All => Filter::All,
            Filter::Glob(g) => Filter::Glob(copy_of(g.as_str())),
        }
    }
}

impl Clone for Modifier {
    fn clone(&self) -> (r: Self)
        ensures
            r@ == self@,
    {
        Modifier { name: copy_of(self.name.as_str()), args: copy_all(&self.args) }
    }
}

impl Clone for Condition {
    fn clone(&self) -> (r: Self)
        ensures
            r == *self,
    {
        Condition {
            operator: self.operator,
            critical: self.critical,
            critical_recovery: self.critical_recovery,
            warning: self.warning,
            warning_recovery: self.warning_recovery,
        }
    }
}

impl Clone for SearchQuery {
    fn clone(&self) -> (r: Self)
        ensures
            r@ == self@,
    {
        SearchQuery {
            source: self.source,
            raw_search: copy_of(self.raw_search.as_str()),
            index: copy_optional(&self.index),
            rollup_method: copy_of(self.rollup_method.as_str()),
            rollup_arg: copy_optional(&self.rollup_arg),
            group_by: copy_all(&self.group_by),
            last: copy_of(self.last.as_str()),
            condition: self.condition.clone(),
        }
    }
}

impl Clone for CheckQuery {
    fn clone(&self) -> (r: Self)
        ensures
            r@ == self@,
    {
        CheckQuery {
            check: copy_of(self.check.as_str()),
            over: copy_all(&self.over),
            by: copy_all(&self.by),
            last: self.last,
        }
    }
}

impl Clone for SloQuery {
    fn clone(&self) -> (r: Self)
        ensures
            r@ == self@,
    {
        SloQuery {
            id: copy_of(self.id.as_str()),
            over: copy_of(self.over.as_str()),
            condition: self.condition.clone(),
        }
    }
}

impl Clone for CompositeExpr {
    fn clone(&self) -> (r: Self)
        ensures
            r@ == self@,
        decreases self,
    {
        match self {
            CompositeExpr::Ref(r) => CompositeExpr::Ref(r.clone()),
            CompositeExpr::Not(inner) => CompositeExpr::Not(Box::new((&**inner).clone())),
            CompositeExpr::Binary { op, lhs, rhs } => CompositeExpr::Binary {
                op: *op,
                lhs: Box::new((&**lhs).clone()),
                rhs: Box::new((&**rhs).clone()),
            },
        }
    }
}

impl Clone for MonitorRef {
    fn clone(&self) -> (r: Self)
        ensures
            r.id@ == self.id@,
    {
        MonitorRef { id: copy_of(self.id.as_str()) }
    }
}

impl Clone for Window {
    fn clone(&self) -> (r: Self)
        ensures
            r@ == self@,
    {
        Window {
            raw: copy_of(self.raw.as_str()),
            seconds: self.seconds,
            display: copy_of(self.display.as_str()),
        }
    }
}

impl Clone for FuncParam {
    fn clone(&self) -> (r: Self)
        ensures
            r@ == self@,
    {
        FuncParam { key: copy_optional(&self.key), value: self.value.clone() }
    }
}

impl Clone for ParamValue {
    fn clone(&self) -> (r: Self)
        ensures
            r@ == self@,
    {
        match self {
            ParamValue::Bool(b) => ParamValue::Bool(*b),
            ParamValue::Number(n) => ParamValue::Number(*n),
            ParamValue::Str(s) => ParamValue::Str(copy_of(s.as_str())),
        }
    }
}

impl Clone for SpaceAgg {
    fn clone(&self) -> (r: Self)
        ensures
            r@ == self@,
    {
        match self {
            SpaceAgg::Avg => SpaceAgg::Avg,
            SpaceAgg::Sum => SpaceAgg::Sum,
            SpaceAgg::Min => SpaceAgg::Min,
            SpaceAgg::Max => SpaceAgg::Max,
            SpaceAgg::Count => SpaceAgg::Count,
            SpaceAgg::Percentile(rank) => SpaceAgg::Percentile(copy_of(rank.as_str())),
        }
    }
}

} // verus!
