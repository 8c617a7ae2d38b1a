//! The tokens of the enumerations, and the small constructors and texts of the
//! syntax tree.

use vstd::prelude::*;
use vstd::string::StringExecFns;
use crate::ast::{
    ArithOp, BoolOp, ChangeKind, CmpOp, FuncKind, FuncParam, FuncParamView, MonitorQuery,
    MonitorQueryView, ParamValue, ParamValueView, Scalar, SpaceAgg, SpaceAggView, TimeAgg,
};
use crate::binary64::Binary64;
use crate::error::ParseError;
use crate::literal::{number_of, read_number};
use crate::rendering::{number_text, render_number, render_scalar, scalar_text};
use crate::text::{chars_of, copy_of, same, string_of};

verus! {

impl TimeAgg {
    /// The canonical source token.
    pub open spec fn token(self) -> Seq<char> {
        match self {
            TimeAgg::Avg => "avg"@,
            TimeAgg::Sum => "sum"@,
            TimeAgg::Min => "min"@,
            TimeAgg::Max => "max"@,
            TimeAgg::Count => "count"@,
            TimeAgg::Percentile => "percentile"@,
        }
    }

    /// The value whose token is `s`, if any.
    pub open spec fn of_token(s: Seq<char>) -> Option<Self> {
        if s == "avg"@ {
            Some(TimeAgg::Avg)
        } else if s == "sum"@ {
            Some(TimeAgg::Sum)
        } else if s == "min"@ {
            Some(TimeAgg::Min)
        } else if s == "max"@ {
            Some(TimeAgg::Max)
        } else if s == "count"@ {
            Some(TimeAgg::Count)
        } else if s == "percentile"@ {
            Some(TimeAgg::Percentile)
        } else {
            None
        }
    }

    /// The value with the source token `s`, if there is one.
    #[must_use]
    pub fn from_token(s: &str) -> (r: Option<Self>)
        ensures
            r == Self::of_token(s@),
    {
        if same(s, "avg") {
            Some(TimeAgg::Avg)
        } else if same(s, "sum") {
            Some(TimeAgg::Sum)
        } else if same(s, "min") {
            Some(TimeAgg::Min)
        } else if same(s, "max") {
            Some(TimeAgg::Max)
        } else if same(s, "count") {
            Some(TimeAgg::Count)
        } else if same(s, "percentile") {
            Some(TimeAgg::Percentile)
        } else {
            None
        }
    }

    /// The canonical source token.
    #[must_use]
    pub fn as_token(self) -> (r: &'static str)
        ensures
            r@ == self.token(),
    {
        match self {
            TimeAgg::Avg => "avg",
            TimeAgg::Sum => "sum",
            TimeAgg::Min => "min",
            TimeAgg::Max => "max",
            TimeAgg::Count => "count",
            TimeAgg::Percentile => "percentile",
        }
    }
}

impl FuncKind {
    /// The canonical source token.
    pub open spec fn token(self) -> Seq<char> {
        match self {
            FuncKind::Anomalies => "anomalies"@,
            FuncKind::Outliers => "outliers"@,
            FuncKind::Forecast => "forecast"@,
        }
    }

    /// The value whose token is `s`, if any.
    pub open spec fn of_token(s: Seq<char>) -> Option<Self> {
        if s == "anomalies"@ {
            Some(FuncKind::Anomalies)
        } else if s == "outliers"@ {
            Some(FuncKind::Outliers)
        } else if s == "forecast"@ {
            Some(FuncKind::Forecast)
        } else {
            None
        }
    }

    /// The value with the source token `s`, if there is one.
    #[must_use]
    pub fn from_token(s: &str) -> (r: Option<Self>)
        ensures
            r == Self::of_token(s@),
    {
        if same(s, "anomalies") {
            Some(FuncKind::Anomalies)
        } else if same(s, "outliers") {
            Some(FuncKind::Outliers)
        } else if same(s, "forecast") {
            Some(FuncKind::Forecast)
        } else {
            None
        }
    }

    /// The canonical source token.
    #[must_use]
    pub fn as_token(self) -> (r: &'static str)
        ensures
            r@ == self.token(),
    {
        match self {
            FuncKind::Anomalies => "anomalies",
            FuncKind::Outliers => "outliers",
            FuncKind::Forecast => "forecast",
        }
    }
}

impl ArithOp {
    /// The canonical source token.
    pub open spec fn token(self) -> Seq<char> {
        match self {
            ArithOp::Add => "+"@,
            ArithOp::Sub => "-"@,
            ArithOp::Mul => "*"@,
            ArithOp::Div => "/"@,
        }
    }

    /// The value whose token is `s`, if any.
    pub open spec fn of_token(s: Seq<char>) -> Option<Self> {
        if s == "+"@ {
            Some(ArithOp::Add)
        } else if s == "-"@ {
            Some(ArithOp::Sub)
        } else if s == "*"@ {
            Some(ArithOp::Mul)
        } else if s == "/"@ {
            Some(ArithOp::Div)
        } else {
            None
        }
    }

    /// The value with the source token `s`, if there is one.
    #[must_use]
    pub fn from_token(s: &str) -> (r: Option<Self>)
        ensures
            r == Self::of_token(s@),
    {
        if same(s, "+") {
            Some(ArithOp::Add)
        } else if same(s, "-") {
            Some(ArithOp::Sub)
        } else if same(s, "*") {
            Some(ArithOp::Mul)
        } else if same(s, "/") {
            Some(ArithOp::Div)
        } else {
            None
        }
    }

    /// The canonical source token.
    #[must_use]
    pub fn as_token(self) -> (r: &'static str)
        ensures
            r@ == self.token(),
    {
        match self {
            ArithOp::Add => "+",
            ArithOp::Sub => "-",
            ArithOp::Mul => "*",
            ArithOp::Div => "/",
        }
    }
}

impl ChangeKind {
    /// The canonical source token.
    pub open spec fn token(self) -> Seq<char> {
        match self {
            ChangeKind::Change => "change"@,
            ChangeKind::PctChange => "pct_change"@,
        }
    }

    /// The value whose token is `s`, if any.
    pub open spec fn of_token(s: Seq<char>) -> Option<Self> {
        if s == "change"@ {
            Some(ChangeKind::Change)
        } else if s == "pct_change"@ {
            Some(ChangeKind::PctChange)
        } else {
            None
        }
    }

    /// The value with the source token `s`, if there is one.
    #[must_use]
    pub fn from_token(s: &str) -> (r: Option<Self>)
        ensures
            r == Self::of_token(s@),
    {
        if same(s, "change") {
            Some(ChangeKind::Change)
        } else if same(s, "pct_change") {
            Some(ChangeKind::PctChange)
        } else {
            None
        }
    }

    /// The canonical source token.
    #[must_use]
    pub fn as_token(self) -> (r: &'static str)
        ensures
            r@ == self.token(),
    {
        match self {
            ChangeKind::Change => "change",
            ChangeKind::PctChange => "pct_change",
        }
    }
}

impl BoolOp {
    /// The canonical source token.
    pub open spec fn token(self) -> Seq<char> {
        match self {
            BoolOp::And => "&&"@,
            BoolOp::Or => "||"@,
        }
    }

    /// The value whose token is `s`, if any.
    pub open spec fn of_token(s: Seq<char>) -> Option<Self> {
        if s == "&&"@ {
            Some(BoolOp::And)
        } else if s == "||"@ {
            Some(BoolOp::Or)
        } else {
            None
        }
    }

    /// The value with the source token `s`, if there is one.
    #[must_use]
    pub fn from_token(s: &str) -> (r: Option<Self>)
        ensures
            r == Self::of_token(s@),
    {
        if same(s, "&&") {
            Some(BoolOp::And)
        } else if same(s, "||") {
            Some(BoolOp::Or)
        } else {
            None
        }
    }

    /// The canonical source token.
    #[must_use]
    pub fn as_token(self) -> (r: &'static str)
        ensures
            r@ == self.token(),
    {
        match self {
            BoolOp::And => "&&",
            BoolOp::Or => "||",
        }
    }
}

impl CmpOp {
    /// The canonical source token.
    pub open spec fn token(self) -> Seq<char> {
        match self {
            CmpOp::Ge => ">="@,
            CmpOp::Le => "<="@,
            CmpOp::Eq => "=="@,
            CmpOp::Ne => "!="@,
            CmpOp::Gt => ">"@,
            CmpOp::Lt => "<"@,
        }
    }

    /// The value whose token is `s`, if any.
    pub open spec fn of_token(s: Seq<char>) -> Option<Self> {
        if s == ">="@ {
            Some(CmpOp::Ge)
        } else if s == "<="@ {
            Some(CmpOp::Le)
        } else if s == "=="@ {
            Some(CmpOp::Eq)
        } else if s == "!="@ {
            Some(CmpOp::Ne)
        } else if s == ">"@ {
            Some(CmpOp::Gt)
        } else if s == "<"@ {
            Some(CmpOp::Lt)
        } else {
            None
        }
    }

    /// The value with the source token `s`, if there is one.
    #[must_use]
    pub fn from_token(s: &str) -> (r: Option<Self>)
        ensures
            r == Self::of_token(s@),
    {
        if same(s, ">=") {
            Some(CmpOp::Ge)
        } else if same(s, "<=") {
            Some(CmpOp::Le)
        } else if same(s, "==") {
            Some(CmpOp::Eq)
        } else if same(s, "!=") {
            Some(CmpOp::Ne)
        } else if same(s, ">") {
            Some(CmpOp::Gt)
        } else if same(s, "<") {
            Some(CmpOp::Lt)
        } else {
            None
        }
    }

    /// The canonical source token.
    #[must_use]
    pub fn as_token(self) -> (r: &'static str)
        ensures
            r@ == self.token(),
    {
        match self {
            CmpOp::Ge => ">=",
            CmpOp::Le => "<=",
            CmpOp::Eq => "==",
            CmpOp::Ne => "!=",
            CmpOp::Gt => ">",
            CmpOp::Lt => "<",
        }
    }
}

impl SpaceAgg {
    /// The aggregation with the source token `s`: a named aggregator, or `p`
    /// and a rank between 0 and 100.
    pub open spec fn of_token(s: Seq<char>) -> Option<SpaceAggView> {
        if s == "avg"@ {
            Some(SpaceAggView::Avg)
        } else if s == "sum"@ {
            Some(SpaceAggView::Sum)
        } else if s == "min"@ {
            Some(SpaceAggView::Min)
        } else if s == "max"@ {
            Some(SpaceAggView::Max)
        } else if s == "count"@ {
            Some(SpaceAggView::Count)
        } else if s.len() > 0 && s[0] == 'p' {
            match number_of(s.skip(1)) {
                Some(x) => if x.is_percentage() {
                    Some(SpaceAggView::Percentile(s.skip(1)))
                } else {
                    None
                },
                None => None,
            }
        } else {
            None
        }
    }

    /// The aggregation with the source token `s`, if there is one: a named
    /// aggregator, or `p` and a rank between 0 and 100, as in `p95`, `p99.9`.
    #[must_use]
    pub fn from_token(s: &str) -> (r: Option<Self>)
        ensures
            match r {
                Some(a) => Self::of_token(s@) == Some(a@),
                None => Self::of_token(s@) is None,
            },
    {
        if same(s, "avg") {
            Some(SpaceAgg::Avg)
        } else if same(s, "sum") {
            Some(SpaceAgg::Sum)
        } else if same(s, "min") {
            Some(SpaceAgg::Min)
        } else if same(s, "max") {
            Some(SpaceAgg::Max)
        } else if same(s, "count") {
            Some(SpaceAgg::Count)
        } else {
            let v: Vec<char> = chars_of(s);
            if v.len() == 0 || v[0] != 'p' {
                return None;
            }
            let rank = string_of(&v, 1, v.len());
            assert(rank@ =~= s@.skip(1));
            match read_number(rank.as_str()) {
                Some(x) => if x.in_percentage_range() {
                    Some(SpaceAgg::Percentile(rank))
                } else {
                    None
                },
                None => None,
            }
        }
    }

    /// The canonical source token.
    #[must_use]
    pub fn as_token(&self) -> (r: String)
        ensures
            r@ == self@.token(),
    {
        match self {
            SpaceAgg::Avg => copy_of("avg"),
            SpaceAgg::Sum => copy_of("sum"),
            SpaceAgg::Min => copy_of("min"),
            SpaceAgg::Max => copy_of("max"),
            SpaceAgg::Count => copy_of("count"),
            SpaceAgg::Percentile(rank) => {
                let mut out = String::new();
                out.push('p');
                out.append(rank.as_str());
                assert(out@ =~= seq!['p'] + rank@);
                out
            },
        }
    }
}

impl SpaceAggView {
    /// The canonical source token.
    pub open spec fn token(self) -> Seq<char> {
        match self {
            SpaceAggView::Avg => "avg"@,
            SpaceAggView::Sum => "sum"@,
            SpaceAggView::Min => "min"@,
            SpaceAggView::Max => "max"@,
            SpaceAggView::Count => "count"@,
            SpaceAggView::Percentile(rank) => seq!['p'] + rank,
        }
    }
}

impl Scalar {
    /// The scalar of a value.
    #[must_use]
    pub fn new(value: Binary64) -> (r: Self)
        ensures
            r.value == value,
    {
        Scalar { value }
    }

    /// The number as text, whole ones without a fraction.
    #[must_use]
    pub fn to_text(&self) -> (out: String)
        ensures
            out@ == scalar_text(self.value),
    {
        render_scalar(self.value)
    }
}

impl FuncParam {
    /// A positional parameter.
    #[must_use]
    pub fn positional(value: ParamValue) -> (r: Self)
        ensures
            r@ == (FuncParamView { key: None, value: value@ }),
            r.value == value,
    {
        FuncParam { key: None, value }
    }

    /// A keyword parameter.
    #[must_use]
    pub fn keyword(key: &str, value: ParamValue) -> (r: Self)
        ensures
            r@ == (FuncParamView { key: Some(key@), value: value@ }),
            r.value == value,
    {
        FuncParam { key: Some(copy_of(key)), value }
    }
}

/// The text of a parameter's value.
pub open spec fn param_text(v: ParamValueView) -> Seq<char> {
    match v {
        ParamValueView::Bool(b) => if b {
            "true"@
        } else {
            "false"@
        },
        ParamValueView::Number(n) => number_text(n),
        ParamValueView::Str(s) => s,
    }
}

impl ParamValue {
    /// The value as text.
    #[must_use]
    pub fn to_text(&self) -> (out: String)
        ensures
            out@ == param_text(self@),
    {
        match self {
            ParamValue::Bool(b) => if *b {
                copy_of("true")
            } else {
                copy_of("false")
            },
            ParamValue::Number(n) => render_number(*n),
            ParamValue::Str(s) => copy_of(s.as_str()),
        }
    }
}

impl MonitorQuery {
    /// The [`MonitorQuery::Unparsed`] of a query and the error it met.
    #[must_use]
    pub fn unparsed(raw: &str, err: &ParseError) -> (q: Self)
        ensures
            q@ == (MonitorQueryView::Unparsed {
                raw: raw@,
                reason: err@.reason,
                offset: err@.offset,
            }),
    {
        MonitorQuery::Unparsed {
            raw: copy_of(raw),
            reason: copy_of(err.reason()),
            offset: err.offset(),
        }
    }
}

} // verus!
