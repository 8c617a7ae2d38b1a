//! What explanations and summaries tell of a query: which of its parts they show,
//! and in which order.

use vstd::prelude::*;
use crate::ast::{
    ArithOp, ChangeKind, CheckQueryView, CompositeExprView, Condition, FilterView, FuncKind,
    FuncParamView, MetricExprView, MetricQueryView, MonitorQueryView, ParamValueView, Scalar,
    SearchQueryView, SeriesView, SloQueryView, TimeAgg, WindowView,
};
use crate::error::{error_text, ParseErrorView};
use crate::phrasing::{
    aggregation_word, algorithm, arith_symbol, bound, bound_text, change_name, chip_text,
    chip_texts, chips, comparison_symbol, composite_text, condition_text, counted_noun, direction,
    evaluation, explanation, expr_text, expr_texts, first_series_in, first_series_of, function_text,
    headline, keyword_text, keyword_value, listed, positional_value, season_text, series_text,
    source_name, stripped, summary, top_function_in, top_function_of, transform_phrase, KeyValView,
};
use crate::binary64::{Binary64, INFINITE};
use crate::literal::number_of;
use crate::rendering::{law_numbers_are_read_back, scalar_text};
use crate::tokens::param_text;
use crate::text::{begins, decimal, joined};
use crate::wording::{
    law_aggregation_words, law_arithmetic_symbols, law_change_names, law_comparison_symbols,
};

verus! {

// ----- parts of texts -----------------------------------------------------------

/// `s` ends with `suffix`.
pub open spec fn ends_with(s: Seq<char>, suffix: Seq<char>) -> bool {
    s.len() >= suffix.len() && s.skip(s.len() - suffix.len()) == suffix
}

/// `part` stands somewhere in `s`.
pub open spec fn mentions(s: Seq<char>, part: Seq<char>) -> bool {
    exists|i: int|
        0 <= i <= s.len() - part.len() && #[trigger] s.subrange(i, i + part.len()) == part
}

/// A text is made of its parts.
proof fn lemma_parts(s: Seq<char>, a: Seq<char>, b: Seq<char>, c: Seq<char>)
    requires
        s == a + b + c,
    ensures
        begins(s, a),
        begins(s, a + b),
        ends_with(s, c),
        ends_with(s, b + c),
        mentions(s, b),
{
    assert(s.take(a.len() as int) =~= a);
    assert(s.take((a + b).len() as int) =~= a + b);
    assert(s.skip(s.len() - c.len()) =~= c);
    assert(s.skip(s.len() - (b + c).len()) =~= b + c);
    let i = a.len() as int;
    assert(s.subrange(i, i + b.len()) =~= b);
}

/// What stands between the same parts is the same.
proof fn lemma_between(a: Seq<char>, x: Seq<char>, y: Seq<char>, b: Seq<char>)
    requires
        a + x + b == a + y + b,
    ensures
        x == y,
{
    let (s, t) = (a + x + b, a + y + b);
    assert(s.len() == t.len());
    let n = a.len() as int;
    assert(s.subrange(n, n + x.len()) =~= x);
    assert(t.subrange(n, n + y.len()) =~= y);
}

/// Joining keeps the parts in order: a list of one is that one, and two lists are
/// joined as one, with the separator between them.
pub proof fn law_joined_lists(a: Seq<Seq<char>>, b: Seq<Seq<char>>, sep: Seq<char>, x: Seq<char>)
    ensures
        joined(seq![x], sep) == x,
        joined(Seq::<Seq<char>>::empty(), sep) == Seq::<char>::empty(),
        a.len() > 0 && b.len() > 0 ==> joined(a + b, sep) == joined(a, sep) + sep + joined(b, sep),
    decreases b.len(),
{
    if a.len() > 0 && b.len() > 0 {
        let front = b.drop_last();
        assert((a + b).last() == b.last());
        assert((a + b).drop_last() =~= a + front);
        if b.len() > 1 {
            law_joined_lists(a, front, sep, x);
            let (p, q) = (joined(a, sep), joined(front, sep));
            assert(p + sep + q + sep + b.last() =~= p + sep + (q + sep + b.last()));
        } else {
            assert(a + front =~= a);
            assert(joined(b, sep) == b.last());
        }
    }
}

// ----- conditions ---------------------------------------------------------------

/// A condition is shown by the symbol of its operator, a space and its critical
/// threshold: nothing else of it is shown.
pub proof fn law_conditions_are_shown(c: Condition)
    ensures
        condition_text(c).len() == 2 + scalar_text(c.critical.value).len(),
        condition_text(c).take(1) == comparison_symbol(c.operator),
        condition_text(c)[1] == ' ',
        condition_text(c).skip(2) == scalar_text(c.critical.value),
{
    law_comparison_symbols(c.operator, c.operator);
    reveal_strlit(" ");
    let t = condition_text(c);
    assert(t.take(1) =~= comparison_symbol(c.operator));
    assert(t.skip(2) =~= scalar_text(c.critical.value));
}

/// Conditions that are shown alike have one operator, and their thresholds are
/// shown alike.
pub proof fn law_conditions_differ(a: Condition, b: Condition)
    requires
        condition_text(a) == condition_text(b),
    ensures
        a.operator == b.operator,
        scalar_text(a.critical.value) == scalar_text(b.critical.value),
{
    law_conditions_are_shown(a);
    law_conditions_are_shown(b);
    law_comparison_symbols(a.operator, b.operator);
}

// ----- series -------------------------------------------------------------------

/// Tags alone are shown of a scope, each with its key, its value and its negation,
/// in their order.
pub proof fn law_scopes_are_shown(a: Seq<FilterView>, b: Seq<FilterView>, f: FilterView)
    ensures
        chips(seq![f]) == (match f {
            FilterView::Tag { negated, key, value } => seq![KeyValView { key, value, negated }],
            FilterView::All => Seq::empty(),
            FilterView::Glob(_) => Seq::empty(),
        }),
        chips(a + b) == chips(a) + chips(b),
        chips(Seq::<FilterView>::empty()) == Seq::<KeyValView>::empty(),
    decreases b.len(),
{
    assert(seq![f].drop_last() =~= Seq::<FilterView>::empty());
    assert(chips(Seq::<FilterView>::empty()) =~= Seq::<KeyValView>::empty());
    assert(chips(seq![f].drop_last()) =~= Seq::<KeyValView>::empty());
    if b.len() > 0 {
        let front = b.drop_last();
        assert((a + b).last() == b.last());
        assert((a + b).drop_last() =~= a + front);
        law_scopes_are_shown(a, front, f);
        assert(chips(a + b) =~= chips(a) + chips(b));
    } else {
        assert(a + b =~= a);
        assert(chips(a) + chips(b) =~= chips(a));
    }
}

/// A tag is shown as its key, a colon and its value, and a negated one so with
/// `not` before it.
pub proof fn law_tags_are_shown(key: Seq<char>, value: Seq<char>)
    ensures
        chip_text(KeyValView { key, value, negated: false }) == key + seq![':'] + value,
        chip_text(KeyValView { key, value, negated: true }) == "not "@ + key + seq![':'] + value,
{
    reveal_strlit("");
    reveal_strlit(":");
    assert(":"@ =~= seq![':']);
    assert(""@ + key + ":"@ + value =~= key + seq![':'] + value);
}

/// A series is told by its aggregation and its metric, with its tags in brackets
/// where it has some, and with its grouping at the end where it has one.
pub proof fn law_series_are_told(s: SeriesView)
    ensures
        begins(series_text(s), s.space_aggregation.token() + " of `"@ + s.metric + "`"@),
        chips(s.filter).len() == 0 && s.group_by.len() == 0 ==> series_text(s)
            == s.space_aggregation.token() + " of `"@ + s.metric + "`"@,
        chips(s.filter).len() > 0 ==> mentions(
            series_text(s),
            " ("@ + joined(chip_texts(chips(s.filter)), ", "@) + ")"@,
        ),
        s.group_by.len() > 0 ==> ends_with(series_text(s), " by "@ + joined(s.group_by, ", "@)),
        s.group_by.len() == 0 && chips(s.filter).len() > 0 ==> ends_with(
            series_text(s),
            " ("@ + joined(chip_texts(chips(s.filter)), ", "@) + ")"@,
        ),
        s.group_by.len() > 0 && chips(s.filter).len() > 0 ==> ends_with(
            series_text(s),
            " ("@ + joined(chip_texts(chips(s.filter)), ", "@) + ")"@ + (" by "@ + joined(
                s.group_by,
                ", "@,
            )),
        ),
        chip_texts(chips(s.filter)).len() == chips(s.filter).len(),
        forall|i: int|
            0 <= i < chips(s.filter).len() ==> #[trigger] chip_texts(chips(s.filter))[i]
                == chip_text(chips(s.filter)[i]),
{
    let head = s.space_aggregation.token() + " of `"@ + s.metric + "`"@;
    let scope = listed(" ("@, chip_texts(chips(s.filter)), ")"@);
    let groups = listed(" by "@, s.group_by, ""@);
    lemma_parts(series_text(s), head, scope, groups);
    if s.group_by.len() > 0 {
        lemma_unclosed(" by "@ + joined(s.group_by, ", "@));
    } else {
        assert(scope + groups =~= scope);
        assert(head + scope + groups =~= head + scope);
        if chips(s.filter).len() == 0 {
            assert(head + scope =~= head);
        }
    }
}

proof fn lemma_unclosed(s: Seq<char>)
    ensures
        s + ""@ == s,
{
    reveal_strlit("");
    assert(s + ""@ =~= s);
}

// ----- evaluation functions -----------------------------------------------------

/// The positional parameters are those without a keyword, counted from the first.
pub proof fn law_positional_parameters(params: Seq<FuncParamView>, n: nat)
    ensures
        ({
            let unnamed = params.filter(|p: FuncParamView| p.key is None);
            positional_value(params, n) == (if n < unnamed.len() {
                Some(unnamed[n as int].value)
            } else {
                None
            })
        }),
    decreases params.len(),
{
    let f = |p: FuncParamView| p.key is None;
    reveal(Seq::filter);
    if params.len() > 0 {
        let more = params.skip(1);
        let one = seq![params[0]];
        assert(params =~= one + more);
        Seq::filter_distributes_over_add(one, more, f);
        assert(one.filter(f) =~= (if f(params[0]) {
            one
        } else {
            Seq::empty()
        })) by {
            reveal_with_fuel(Seq::filter, 2);
            assert(one.drop_last() =~= Seq::<FuncParamView>::empty());
            assert(one.last() == params[0]);
        }
        if params[0].key is Some {
            law_positional_parameters(more, n);
        } else if n > 0 {
            law_positional_parameters(more, (n - 1) as nat);
        }
    }
}

/// A keyword parameter is the first with its keyword.
pub proof fn law_keyword_parameters(params: Seq<FuncParamView>, key: Seq<char>, i: int)
    requires
        0 <= i <= params.len(),
        forall|j: int| 0 <= j < i ==> (#[trigger] params[j]).key != Some(key),
    ensures
        i < params.len() && params[i].key == Some(key) ==> keyword_value(params, key) == Some(
            params[i].value,
        ),
        i == params.len() ==> keyword_value(params, key) is None,
    decreases params.len(),
{
    if i > 0 {
        let more = params.skip(1);
        assert(params[0].key != Some(key));
        assert forall|j: int| 0 <= j < i - 1 implies (#[trigger] more[j]).key != Some(key) by {
            assert(more[j] == params[j + 1]);
        }
        law_keyword_parameters(more, key, i - 1);
    }
}

/// A parameter by its keyword is told where it is a text that is not empty, or a
/// truth value by its word.
pub proof fn law_keywords_are_told(params: Seq<FuncParamView>, key: Seq<char>, text: Seq<char>)
    ensures
        keyword_value(params, key) == Some(ParamValueView::Str(text)) && text.len() > 0
            ==> keyword_text(params, key) == Some(text),
        keyword_value(params, key) == Some(ParamValueView::Bool(true)) ==> keyword_text(params, key)
            == Some("true"@),
        keyword_value(params, key) == Some(ParamValueView::Str(text)) && text.len() == 0
            ==> keyword_text(params, key) is None,
        keyword_value(params, key) == Some(ParamValueView::Bool(false)) ==> keyword_text(
            params,
            key,
        ) == Some("false"@),
        keyword_value(params, key) is None ==> keyword_text(params, key) is None,
        keyword_value(params, key) matches Some(ParamValueView::Number(_)) ==> keyword_text(
            params,
            key,
        ) is None,
{
}

/// An anomaly detection tells its algorithm (the first positional text, or `basic`),
/// its bounds (the second positional number, if any), its direction (or `both`) and
/// its seasonality (if any), in this order.
pub proof fn law_anomalies_are_told(params: Seq<FuncParamView>)
    ensures
        ({
            let t = function_text(FuncKind::Anomalies, params);
            let algo = match positional_value(params, 0) {
                Some(ParamValueView::Str(s)) => s,
                _ => "basic"@,
            };
            let way = match keyword_text(params, "direction"@) {
                Some(s) => s,
                None => "both"@,
            };
            let head = "anomaly detection (algorithm "@ + algo;
            let turned = ", direction "@ + way;
            &&& positional_value(params, 1) matches Some(ParamValueView::Number(x)) ==> begins(
                t,
                head + (", ~"@ + scalar_text(x) + "σ"@) + turned,
            )
            &&& !(positional_value(params, 1) matches Some(ParamValueView::Number(_))) ==> begins(
                t,
                head + turned,
            )
            &&& keyword_text(params, "seasonality"@) matches Some(s) ==> ends_with(
                t,
                turned + (", "@ + s + " seasonality"@ + ")"@),
            )
            &&& keyword_text(params, "seasonality"@) is None ==> ends_with(t, turned + ")"@)
        }),
{
    let head = "anomaly detection (algorithm "@ + algorithm(params, "basic"@);
    let span = bound_text(", ~"@, bound(params), "σ"@);
    let season = season_text(keyword_text(params, "seasonality"@));
    lemma_anomaly(head, span, direction(params), season);
    if bound(params) is None {
        assert(head + span =~= head);
    }
    if keyword_text(params, "seasonality"@) is None {
        assert(season + ")"@ =~= ")"@);
    }
}

proof fn lemma_anomaly(head: Seq<char>, span: Seq<char>, way: Seq<char>, season: Seq<char>)
    ensures
        ({
            let t = head + span + ", direction "@ + way + season + ")"@;
            let turned = ", direction "@ + way;
            begins(t, head + span + turned) && ends_with(t, turned + (season + ")"@))
        }),
{
    let t = head + span + ", direction "@ + way + season + ")"@;
    let turned = ", direction "@ + way;
    assert(t =~= (head + span) + turned + (season + ")"@));
    lemma_parts(t, head + span, turned, season + ")"@);
}

/// An outlier detection tells its algorithm (the first positional text, or `DBSCAN`)
/// and its tolerance (the second positional number, if any); a forecast tells its
/// algorithm (or `linear`).
pub proof fn law_outliers_and_forecasts_are_told(params: Seq<FuncParamView>)
    ensures
        positional_value(params, 0) matches Some(ParamValueView::Str(s)) ==> {
            &&& begins(
                function_text(FuncKind::Outliers, params),
                "outlier detection (algorithm "@ + s,
            )
            &&& function_text(FuncKind::Forecast, params) == "forecast (algorithm "@ + s + ")"@
        },
        !(positional_value(params, 0) matches Some(ParamValueView::Str(_))) ==> {
            &&& begins(
                function_text(FuncKind::Outliers, params),
                "outlier detection (algorithm "@ + "DBSCAN"@,
            )
            &&& function_text(FuncKind::Forecast, params) == "forecast (algorithm "@ + "linear"@
                + ")"@
        },
        positional_value(params, 1) matches Some(ParamValueView::Number(x)) ==> ends_with(
            function_text(FuncKind::Outliers, params),
            algorithm(params, "DBSCAN"@) + ", tolerance "@ + scalar_text(x) + ")"@,
        ),
        !(positional_value(params, 1) matches Some(ParamValueView::Number(_))) ==> ends_with(
            function_text(FuncKind::Outliers, params),
            algorithm(params, "DBSCAN"@) + ")"@,
        ),
{
    reveal_strlit("");
    let t = function_text(FuncKind::Outliers, params);
    let head = "outlier detection (algorithm "@;
    let algo = algorithm(params, "DBSCAN"@);
    match bound(params) {
        Some(x) => {
            let tail = ", tolerance "@ + scalar_text(x) + ")"@;
            assert(t =~= head + algo + tail);
            lemma_parts(t, head, algo, tail);
            assert(algo + tail =~= algo + ", tolerance "@ + scalar_text(x) + ")"@);
        },
        None => {
            assert(t =~= head + algo + ")"@);
            lemma_parts(t, head, algo, ")"@);
        },
    }
}

// ----- expressions --------------------------------------------------------------

/// An expression tells all of its operands, in their order: a call tells what it
/// does before its operand, and an operation stands in brackets, with its symbol
/// between its operands.
pub proof fn law_calls_are_told(
    kind: FuncKind,
    params: Seq<FuncParamView>,
    name: Seq<char>,
    args: Seq<ParamValueView>,
    arg: MetricExprView,
)
    ensures
        ({
            let t = expr_text(
                MetricExprView::Function { name: kind, arg: Box::new(arg), params },
            );
            begins(t, function_text(kind, params) + " ("@) && ends_with(
                t,
                " ("@ + expr_text(arg) + ")"@,
            ) && t.len() == function_text(kind, params).len() + expr_text(arg).len() + 3
        }),
        ({
            let t = expr_text(MetricExprView::Transform { name, arg: Box::new(arg), args });
            begins(t, transform_phrase(name) + " of "@) && ends_with(t, " of "@ + expr_text(arg))
                && t.len() == transform_phrase(name).len() + expr_text(arg).len() + 4
        }),
{
    reveal_strlit(" (");
    reveal_strlit(")");
    reveal_strlit(" of ");
    let inner = expr_text(arg);
    let f = expr_text(MetricExprView::Function { name: kind, arg: Box::new(arg), params });
    let none = Seq::<char>::empty();
    assert(f =~= function_text(kind, params) + " ("@ + (inner + ")"@));
    lemma_parts(f, function_text(kind, params), " ("@, inner + ")"@);
    assert(" ("@ + (inner + ")"@) =~= " ("@ + inner + ")"@);
    let t = expr_text(MetricExprView::Transform { name, arg: Box::new(arg), args });
    lemma_parts(t, transform_phrase(name), " of "@, inner);
}

/// An operation tells its left operand, its symbol and its right operand, in
/// brackets.
pub proof fn law_operations_are_told(op: ArithOp, lhs: MetricExprView, rhs: MetricExprView)
    ensures
        ({
            let t = expr_text(
                MetricExprView::Arith { op, lhs: Box::new(lhs), rhs: Box::new(rhs) },
            );
            let n = expr_text(lhs).len() as int;
            &&& t.len() == n + expr_text(rhs).len() + 5
            &&& t[0] == '(' && t[n + 1] == ' ' && t[n + 3] == ' ' && t.last() == ')'
            &&& t.subrange(1, n + 1) == expr_text(lhs)
            &&& t.subrange(n + 2, n + 3) == arith_symbol(op)
            &&& t.subrange(n + 4, t.len() - 1) == expr_text(rhs)
        }),
{
    reveal_strlit("(");
    reveal_strlit(" ");
    reveal_strlit(")");
    law_arithmetic_symbols(op, op);
    let (l, r) = (expr_text(lhs), expr_text(rhs));
    let t = expr_text(MetricExprView::Arith { op, lhs: Box::new(lhs), rhs: Box::new(rhs) });
    let n = l.len() as int;
    assert(t.subrange(1, n + 1) =~= l);
    assert(t.subrange(n + 2, n + 3) =~= arith_symbol(op));
    assert(t.subrange(n + 4, t.len() - 1) =~= r);
}

/// A combination tells its aggregator and all of its operands, with commas between
/// them.
pub proof fn law_combinations_are_told(name: Seq<char>, args: Seq<MetricExprView>)
    ensures
        ({
            let t = expr_text(MetricExprView::Combine { name, args });
            let texts = Seq::new(args.len(), |i: int| expr_text(args[i]));
            &&& begins(t, name + " of ("@)
            &&& ends_with(t, " of ("@ + joined(texts, ", "@) + ")"@)
        }),
{
    let texts = Seq::new(args.len(), |i: int| expr_text(args[i]));
    let t = expr_text(MetricExprView::Combine { name, args });
    let list = joined(texts, ", "@);
    lemma_expr_texts(args);
    assert(expr_texts(args) =~= texts);
    assert(t =~= name + " of ("@ + (list + ")"@));
    lemma_parts(t, name, " of ("@, list + ")"@);
    assert(" of ("@ + (list + ")"@) =~= " of ("@ + list + ")"@);
}

proof fn lemma_expr_texts(list: Seq<MetricExprView>)
    ensures
        expr_texts(list).len() == list.len(),
        forall|i: int| 0 <= i < list.len() ==> #[trigger] expr_texts(list)[i] == expr_text(list[i]),
    decreases list.len(),
{
    if list.len() > 0 {
        lemma_expr_texts(list.drop_last());
    }
}

/// A change tells its kind, the span it looks back over and what changes; a number
/// tells itself, and a series is told as a series.
pub proof fn law_changes_are_told(
    kind: ChangeKind,
    inner_agg: TimeAgg,
    shift: WindowView,
    arg: MetricExprView,
    x: Scalar,
    v: SeriesView,
)
    ensures
        ({
            let e = MetricExprView::Change { kind, inner_agg, shift, arg: Box::new(arg) };
            let lead = change_name(kind, false) + " over "@ + shift.display;
            &&& begins(expr_text(e), lead)
            &&& ends_with(expr_text(e), " over "@ + shift.display + " of "@ + expr_text(arg))
            &&& evaluation(e) == Some(lead)
        }),
        expr_text(MetricExprView::Scalar(x)) == scalar_text(x.value),
        expr_text(MetricExprView::Series(v)) == series_text(v),
{
    let e = MetricExprView::Change { kind, inner_agg, shift, arg: Box::new(arg) };
    let lead = change_name(kind, false) + " over "@ + shift.display;
    let tail = " of "@ + expr_text(arg);
    let spanned = " over "@ + shift.display;
    assert(expr_text(e) =~= change_name(kind, false) + spanned + tail);
    lemma_parts(expr_text(e), change_name(kind, false), spanned, tail);
    assert(change_name(kind, false) + spanned =~= lead);
    assert(spanned + tail =~= " over "@ + shift.display + " of "@ + expr_text(arg));
}

/// Changes of the two kinds are told apart, in the explanation and in the chip of
/// the evaluation.
pub proof fn law_changes_differ(inner_agg: TimeAgg, shift: WindowView, arg: MetricExprView)
    ensures
        ({
            let a = MetricExprView::Change {
                kind: ChangeKind::Change,
                inner_agg,
                shift,
                arg: Box::new(arg),
            };
            let b = MetricExprView::Change {
                kind: ChangeKind::PctChange,
                inner_agg,
                shift,
                arg: Box::new(arg),
            };
            &&& expr_text(a) != expr_text(b)
            &&& evaluation(a) != evaluation(b)
        }),
{
    let x = change_name(ChangeKind::Change, false);
    let y = change_name(ChangeKind::PctChange, false);
    law_change_names(false);
    assert(x != y);
    let none = Seq::<char>::empty();
    let span = " over "@ + shift.display;
    let tail = " over "@ + shift.display + " of "@ + expr_text(arg);
    assert(x + " over "@ + shift.display =~= none + x + span);
    assert(y + " over "@ + shift.display =~= none + y + span);
    assert(x + " over "@ + shift.display + " of "@ + expr_text(arg) =~= none + x + tail);
    assert(y + " over "@ + shift.display + " of "@ + expr_text(arg) =~= none + y + tail);
    if none + x + span == none + y + span {
        lemma_between(none, x, y, span);
    }
    if none + x + tail == none + y + tail {
        lemma_between(none, x, y, tail);
    }
}

/// All series of an expression, from left to right.
pub open spec fn all_series(e: MetricExprView) -> Seq<SeriesView>
    decreases e,
{
    match e {
        MetricExprView::Series(s) => seq![s],
        MetricExprView::Function { name, arg, params } => all_series(*arg),
        MetricExprView::Transform { name, arg, args } => all_series(*arg),
        MetricExprView::Change { kind, inner_agg, shift, arg } => all_series(*arg),
        MetricExprView::Arith { op, lhs, rhs } => all_series(*lhs) + all_series(*rhs),
        MetricExprView::Combine { name, args } => all_series_in(args),
        MetricExprView::Scalar(_) => seq![],
    }
}

/// All series of a list of expressions, from left to right.
pub open spec fn all_series_in(list: Seq<MetricExprView>) -> Seq<SeriesView>
    decreases list,
{
    if list.len() == 0 {
        seq![]
    } else {
        all_series_in(list.drop_last()) + all_series(list.last())
    }
}

/// The evaluation functions of an expression, the outer before the inner and from
/// left to right.
pub open spec fn all_functions(e: MetricExprView) -> Seq<FuncKind>
    decreases e,
{
    match e {
        MetricExprView::Function { name, arg, params } => seq![name] + all_functions(*arg),
        MetricExprView::Transform { name, arg, args } => all_functions(*arg),
        MetricExprView::Change { kind, inner_agg, shift, arg } => all_functions(*arg),
        MetricExprView::Arith { op, lhs, rhs } => all_functions(*lhs) + all_functions(*rhs),
        MetricExprView::Combine { name, args } => all_functions_in(args),
        _ => seq![],
    }
}

/// The evaluation functions of a list of expressions.
pub open spec fn all_functions_in(list: Seq<MetricExprView>) -> Seq<FuncKind>
    decreases list,
{
    if list.len() == 0 {
        seq![]
    } else {
        all_functions_in(list.drop_last()) + all_functions(list.last())
    }
}

/// The first of a list, if any.
pub open spec fn first_of<T>(list: Seq<T>) -> Option<T> {
    if list.len() > 0 {
        Some(list[0])
    } else {
        None
    }
}

/// The subject of a query is the first of all series in it, from left to right.
pub proof fn law_the_subject_is_the_first_series(e: MetricExprView)
    ensures
        first_series_of(e) == first_of(all_series(e)),
    decreases e,
{
    match e {
        MetricExprView::Function { name, arg, params } => {
            law_the_subject_is_the_first_series(*arg);
        },
        MetricExprView::Transform { name, arg, args } => {
            law_the_subject_is_the_first_series(*arg);
        },
        MetricExprView::Change { kind, inner_agg, shift, arg } => {
            law_the_subject_is_the_first_series(*arg);
        },
        MetricExprView::Arith { op, lhs, rhs } => {
            law_the_subject_is_the_first_series(*lhs);
            law_the_subject_is_the_first_series(*rhs);
        },
        MetricExprView::Combine { name, args } => lemma_first_series_in(args),
        _ => {},
    }
}

proof fn lemma_first_series_in(list: Seq<MetricExprView>)
    ensures
        first_series_in(list) == first_of(all_series_in(list)),
    decreases list,
{
    if list.len() > 0 {
        lemma_first_series_in(list.drop_last());
        law_the_subject_is_the_first_series(list.last());
    }
}

/// The function that a headline names is the outermost and first in the expression.
pub proof fn law_the_top_function_is_the_first(e: MetricExprView)
    ensures
        top_function_of(e) == first_of(all_functions(e)),
    decreases e,
{
    match e {
        MetricExprView::Function { name, arg, params } => {},
        MetricExprView::Transform { name, arg, args } => {
            law_the_top_function_is_the_first(*arg);
        },
        MetricExprView::Change { kind, inner_agg, shift, arg } => {
            law_the_top_function_is_the_first(*arg);
        },
        MetricExprView::Arith { op, lhs, rhs } => {
            law_the_top_function_is_the_first(*lhs);
            law_the_top_function_is_the_first(*rhs);
        },
        MetricExprView::Combine { name, args } => lemma_top_function_in(args),
        _ => {},
    }
}

proof fn lemma_top_function_in(list: Seq<MetricExprView>)
    ensures
        top_function_in(list) == first_of(all_functions_in(list)),
    decreases list,
{
    if list.len() > 0 {
        lemma_top_function_in(list.drop_last());
        law_the_top_function_is_the_first(list.last());
    }
}

/// The evaluation of an expression is that of its function; transforms do not hide
/// it, of two operands the left one goes first, and series, numbers and
/// combinations have none.
pub proof fn law_evaluations(
    kind: FuncKind,
    params: Seq<FuncParamView>,
    name: Seq<char>,
    args: Seq<ParamValueView>,
    list: Seq<MetricExprView>,
    op: ArithOp,
    lhs: MetricExprView,
    rhs: MetricExprView,
    x: Scalar,
    v: SeriesView,
)
    ensures
        evaluation(MetricExprView::Function { name: kind, arg: Box::new(lhs), params }) == Some(
            function_text(kind, params),
        ),
        evaluation(MetricExprView::Transform { name, arg: Box::new(lhs), args }) == evaluation(lhs),
        evaluation(lhs) is Some ==> evaluation(
            MetricExprView::Arith { op, lhs: Box::new(lhs), rhs: Box::new(rhs) },
        ) == evaluation(lhs),
        evaluation(lhs) is None ==> evaluation(
            MetricExprView::Arith { op, lhs: Box::new(lhs), rhs: Box::new(rhs) },
        ) == evaluation(rhs),
        evaluation(MetricExprView::Combine { name, args: list }) is None,
        evaluation(MetricExprView::Scalar(x)) is None,
        evaluation(MetricExprView::Series(v)) is None,
{
}

/// A headline names the evaluation and, at its end, the metric: a function before a
/// change, a change before a mere threshold.
pub proof fn law_headlines(e: MetricExprView, metric: Seq<char>)
    ensures
        ends_with(headline(e, Some(metric)), " on "@ + metric),
        headline(e, None) == headline(e, Some("metric"@)),
        first_of(all_functions(e)) == Some(FuncKind::Anomalies) ==> begins(
            headline(e, Some(metric)),
            "Anomaly detection"@,
        ),
        first_of(all_functions(e)) == Some(FuncKind::Outliers) ==> begins(
            headline(e, Some(metric)),
            "Outlier detection"@,
        ),
        first_of(all_functions(e)) == Some(FuncKind::Forecast) ==> begins(
            headline(e, Some(metric)),
            "Forecast alert"@,
        ),
        all_functions(e).len() == 0 && e is Change ==> begins(
            headline(e, Some(metric)),
            change_name(e->Change_kind, true) + " on "@,
        ),
        all_functions(e).len() == 0 && !(e is Change) ==> begins(
            headline(e, Some(metric)),
            "Threshold alert"@,
        ),
{
    law_the_top_function_is_the_first(e);
    let kind = match top_function_of(e) {
        Some(FuncKind::Anomalies) => "Anomaly detection"@,
        Some(FuncKind::Outliers) => "Outlier detection"@,
        Some(FuncKind::Forecast) => "Forecast alert"@,
        None => match e {
            MetricExprView::Change { kind, inner_agg, shift, arg } => change_name(kind, true),
            _ => "Threshold alert"@,
        },
    };
    lemma_parts(headline(e, Some(metric)), kind, " on "@, metric);
}

// ----- queries ------------------------------------------------------------------

/// `n` times the prefix before `s`.
pub open spec fn repeated(prefix: Seq<char>, n: nat, s: Seq<char>) -> Seq<char>
    decreases n,
{
    if n == 0 {
        s
    } else {
        prefix + repeated(prefix, (n - 1) as nat, s)
    }
}

/// A prefix is stripped as often as it stands there, and nothing else is.
pub proof fn law_prefixes_are_stripped(prefix: Seq<char>, n: nat, s: Seq<char>)
    requires
        prefix.len() > 0,
        !begins(s, prefix),
    ensures
        stripped(repeated(prefix, n, s), prefix) == s,
    decreases n,
{
    if n > 0 {
        let more = repeated(prefix, (n - 1) as nat, s);
        let t = prefix + more;
        assert(t.take(prefix.len() as int) =~= prefix);
        assert(t.skip(prefix.len() as int) =~= more);
        law_prefixes_are_stripped(prefix, (n - 1) as nat, s);
    }
}

/// A metric query is told by its aggregation and its window first, without the word
/// `last` before the window, then by its expression, and at the end by its condition.
pub proof fn law_metric_queries_are_told(m: MetricQueryView, span: Seq<char>)
    ensures
        ({
            let t = explanation(MonitorQueryView::Metric(m));
            let lead = "Alert if the "@ + aggregation_word(m.time_aggregation) + " over the "@;
            &&& begins(t, lead)
            &&& ends_with(
                t,
                " of "@ + expr_text(m.expr) + " is "@ + condition_text(m.condition) + "."@,
            )
            &&& !begins(span, "last "@) && (m.window.display == span || m.window.display == "last "@
                + span) ==> t == lead + span + (" of "@ + expr_text(m.expr) + " is "@
                + condition_text(m.condition) + "."@)
        }),
{
    let t = explanation(MonitorQueryView::Metric(m));
    let lead = "Alert if the "@ + aggregation_word(m.time_aggregation) + " over the "@;
    let shown = stripped(m.window.display, "last "@);
    let tail = " of "@ + expr_text(m.expr) + " is "@ + condition_text(m.condition) + "."@;
    assert(t =~= lead + shown + tail);
    lemma_parts(t, lead, shown, tail);
    lemma_last_is_a_word();
    if !begins(span, "last "@) {
        law_prefixes_are_stripped("last "@, 0, span);
        law_prefixes_are_stripped("last "@, 1, span);
        assert(repeated("last "@, 0, span) == span);
        assert(repeated("last "@, 1, span) == "last "@ + repeated("last "@, 0, span));
    }
}

proof fn lemma_last_is_a_word()
    ensures
        "last "@.len() > 0,
{
    reveal_strlit("last ");
}

/// Metric queries with one window that are told alike do not differ in their
/// aggregation alone, nor in their operator alone, nor in their expression.
pub proof fn law_metric_queries_differ(a: MetricQueryView, b: MetricQueryView)
    requires
        a.window == b.window,
        explanation(MonitorQueryView::Metric(a)) == explanation(MonitorQueryView::Metric(b)),
    ensures
        a.expr == b.expr && a.condition == b.condition ==> a.time_aggregation
            == b.time_aggregation,
        a.expr == b.expr && a.time_aggregation == b.time_aggregation ==> condition_text(a.condition)
            == condition_text(b.condition) && a.condition.operator == b.condition.operator,
        a.condition == b.condition && a.time_aggregation == b.time_aggregation ==> expr_text(a.expr)
            == expr_text(b.expr),
{
    let (x, y) = (aggregation_word(a.time_aggregation), aggregation_word(b.time_aggregation));
    let (p, q) = (expr_text(a.expr), expr_text(b.expr));
    let (c, d) = (condition_text(a.condition), condition_text(b.condition));
    let span = stripped(a.window.display, "last "@);
    let s = explanation(MonitorQueryView::Metric(a));
    let t = explanation(MonitorQueryView::Metric(b));
    law_aggregation_words(a.time_aggregation, b.time_aggregation);
    if p == q && c == d {
        let tail = " over the "@ + span + " of "@ + p + " is "@ + c + "."@;
        assert(s =~= "Alert if the "@ + x + tail);
        assert(t =~= "Alert if the "@ + y + tail);
        lemma_between("Alert if the "@, x, y, tail);
    }
    if a.expr == b.expr && a.time_aggregation == b.time_aggregation {
        let lead = "Alert if the "@ + x + " over the "@ + span + " of "@ + p + " is "@;
        assert(s =~= lead + c + "."@);
        assert(t =~= lead + d + "."@);
        lemma_between(lead, c, d, "."@);
        law_conditions_differ(a.condition, b.condition);
    }
    if a.condition == b.condition && a.time_aggregation == b.time_aggregation {
        let lead = "Alert if the "@ + x + " over the "@ + span + " of "@;
        let tail = " is "@ + c + "."@;
        assert(s =~= lead + p + tail);
        assert(t =~= lead + q + tail);
        lemma_between(lead, p, q, tail);
    }
}

/// A search is told by its window, what it counts and its search string first, then
/// by its grouping if it has one, and at the end by its rollup and its condition.
pub proof fn law_searches_are_told(s: SearchQueryView)
    ensures
        ({
            let t = explanation(MonitorQueryView::Search(s));
            let lead = "Over "@ + s.last + ", count "@ + counted_noun(s.source) + " matching `"@
                + s.raw_search + "`"@;
            let tail = " (rollup "@ + s.rollup_method + "), alert "@ + condition_text(s.condition)
                + "."@;
            &&& begins(t, lead)
            &&& ends_with(t, tail)
            &&& s.group_by.len() == 0 ==> t == lead + tail
            &&& s.group_by.len() > 0 ==> t == lead + (", grouped by "@ + joined(s.group_by, ", "@))
                + tail
        }),
{
    let t = explanation(MonitorQueryView::Search(s));
    let lead = "Over "@ + s.last + ", count "@ + counted_noun(s.source) + " matching `"@
        + s.raw_search + "`"@;
    let tail = " (rollup "@ + s.rollup_method + "), alert "@ + condition_text(s.condition) + "."@;
    let groups = listed(", grouped by "@, s.group_by, ""@);
    assert(t =~= lead + groups + tail);
    lemma_parts(t, lead, groups, tail);
    if s.group_by.len() > 0 {
        lemma_unclosed(", grouped by "@ + joined(s.group_by, ", "@));
    } else {
        assert(lead + groups + tail =~= lead + tail);
    }
}

/// A service check is told by its name and its number of runs, and by its grouping
/// at the end if it has one.
pub proof fn law_checks_are_told(c: CheckQueryView)
    ensures
        ({
            let t = explanation(MonitorQueryView::ServiceCheck(c));
            let lead = "Evaluates the status of service check `"@ + c.check + "` over its last "@
                + decimal(c.last as nat) + " runs"@;
            &&& begins(t, lead)
            &&& c.by.len() == 0 ==> t == lead + "."@
            &&& c.by.len() > 0 ==> t == lead + (" grouped by "@ + joined(c.by, ", "@)) + "."@
        }),
{
    let t = explanation(MonitorQueryView::ServiceCheck(c));
    let lead = "Evaluates the status of service check `"@ + c.check + "` over its last "@ + decimal(
        c.last as nat,
    ) + " runs"@;
    let groups = listed(" grouped by "@, c.by, ""@);
    lemma_parts(t, lead, groups, "."@);
    if c.by.len() > 0 {
        lemma_unclosed(" grouped by "@ + joined(c.by, ", "@));
    } else {
        assert(lead + groups =~= lead);
    }
}

/// An error budget is told by its id, its window and its condition; a boolean tree
/// by itself, with every id marked; and a query that does not parse by the reason.
pub proof fn law_other_queries_are_told(
    q: SloQueryView,
    c: CompositeExprView,
    id: Seq<char>,
    raw: Seq<char>,
    reason: Seq<char>,
    offset: nat,
)
    ensures
        ({
            let t = explanation(MonitorQueryView::Slo(q));
            &&& begins(t, "Alerts when the error budget for SLO `"@ + q.id + "` over "@)
            &&& ends_with(t, "` over "@ + q.over + " is "@ + condition_text(q.condition) + "."@)
        }),
        ({
            let t = explanation(MonitorQueryView::Composite(c));
            begins(t, "Alerts when this boolean condition over other monitors holds: "@)
                && ends_with(t, " holds: "@ + composite_text(c) + "."@)
        }),
        composite_text(CompositeExprView::Ref(id)) == seq!['#'] + id,
        ends_with(explanation(MonitorQueryView::Unparsed { raw, reason, offset }), reason + ")."@),
        begins(
            explanation(MonitorQueryView::Unparsed { raw, reason, offset }),
            "Raw Datadog query (could not be parsed: "@,
        ),
{
    reveal_strlit("#");
    assert("#"@ =~= seq!['#']);
    let t = explanation(MonitorQueryView::Slo(q));
    let lead = "Alerts when the error budget for SLO `"@ + q.id;
    let tail = q.over + " is "@ + condition_text(q.condition) + "."@;
    assert(t =~= lead + "` over "@ + tail);
    lemma_parts(t, lead, "` over "@, tail);
    let shown = condition_text(q.condition);
    assert("` over "@ + tail =~= "` over "@ + q.over + " is "@ + shown + "."@);
    lemma_composite_told(c);
    let u = explanation(MonitorQueryView::Unparsed { raw, reason, offset });
    lemma_parts(u, "Raw Datadog query (could not be parsed: "@, reason, ")."@);
}

proof fn lemma_composite_told(c: CompositeExprView)
    ensures
        ({
            let t = explanation(MonitorQueryView::Composite(c));
            begins(t, "Alerts when this boolean condition over other monitors holds: "@)
                && ends_with(t, " holds: "@ + composite_text(c) + "."@)
        }),
{
    reveal_strlit("Alerts when this boolean condition over other monitors holds: ");
    reveal_strlit(" holds: ");
    let lead = "Alerts when this boolean condition over other monitors holds: "@;
    let t = explanation(MonitorQueryView::Composite(c));
    let n = lead.len() - " holds: "@.len();
    assert(lead.skip(n) =~= " holds: "@);
    assert(lead =~= lead.take(n) + " holds: "@);
    let tail = composite_text(c) + "."@;
    lemma_parts(t, lead, composite_text(c), "."@);
    assert(t =~= lead.take(n) + " holds: "@ + tail);
    lemma_parts(t, lead.take(n), " holds: "@, tail);
    assert(" holds: "@ + tail =~= " holds: "@ + composite_text(c) + "."@);
}

// ----- summaries ----------------------------------------------------------------

/// The summary of a metric query shows its first series, if it has one: the metric,
/// the tags of its scope and its grouping. Its window, its evaluation and its
/// condition are those of the query.
pub proof fn law_metric_summaries(m: MetricQueryView, raw: Seq<char>)
    ensures
        ({
            let q = summary(MonitorQueryView::Metric(m), raw);
            &&& first_of(all_series(m.expr)) matches Some(s) ==> q.metric == Some(s.metric)
                && q.scope == chips(s.filter) && q.group_by == s.group_by && q.headline == headline(
                m.expr,
                Some(s.metric),
            )
            &&& all_series(m.expr).len() == 0 ==> q.metric is None && q.scope.len() == 0
                && q.group_by.len() == 0 && q.headline == headline(m.expr, None)
            &&& q.window == Some(m.window.display)
            &&& q.evaluation == evaluation(m.expr)
            &&& q.condition == Some(condition_text(m.condition))
        }),
{
    law_the_subject_is_the_first_series(m.expr);
}

/// The summary of a search shows its search string, its grouping, its window, its
/// rollup and its condition, under the label of its source.
pub proof fn law_search_summaries(s: SearchQueryView, raw: Seq<char>)
    ensures
        ({
            let q = summary(MonitorQueryView::Search(s), raw);
            &&& q.headline == source_name(s.source) + " search"@
            &&& q.metric == Some(s.raw_search)
            &&& q.scope.len() == 0
            &&& q.group_by == s.group_by
            &&& q.window == Some(s.last)
            &&& q.evaluation == Some("rollup "@ + s.rollup_method)
            &&& q.condition == Some(condition_text(s.condition))
        }),
{
}

/// The summaries of service checks, error budgets, boolean trees and of queries that
/// do not parse show what these have, and nothing else.
pub proof fn law_other_summaries(
    c: CheckQueryView,
    s: SloQueryView,
    tree: CompositeExprView,
    u: MonitorQueryView,
    raw: Seq<char>,
)
    requires
        u is Unparsed,
    ensures
        ({
            let q = summary(MonitorQueryView::ServiceCheck(c), raw);
            &&& mentions(q.headline, "`"@ + c.check + "`"@)
            &&& begins(q.headline, "Service check "@)
            &&& q.metric is None && q.scope.len() == 0 && q.window is None && q.evaluation is None
            &&& q.group_by == c.by
            &&& q.condition == Some("last "@ + decimal(c.last as nat) + " runs by status"@)
        }),
        ({
            let q = summary(MonitorQueryView::Slo(s), raw);
            &&& mentions(q.headline, "`"@ + s.id + "`"@)
            &&& begins(q.headline, "SLO error budget "@)
            &&& q.metric is None && q.scope.len() == 0 && q.evaluation is None
            &&& q.group_by.len() == 0
            &&& q.window == Some(s.over)
            &&& q.condition == Some(condition_text(s.condition))
        }),
        ({
            let q = summary(MonitorQueryView::Composite(tree), raw);
            &&& q.headline == "Composite monitor"@
            &&& q.metric is None && q.scope.len() == 0 && q.window is None && q.evaluation is None
            &&& q.group_by.len() == 0
            &&& q.condition == Some(composite_text(tree))
        }),
        ({
            let q = summary(u, raw);
            &&& q.headline == "Raw Datadog query"@
            &&& q.metric is None && q.scope.len() == 0 && q.window is None && q.evaluation is None
            &&& q.group_by.len() == 0
            &&& q.condition is None
        }),
{
    lemma_named_headline("Service check `"@, "Service check "@, c.check);
    lemma_named_headline("SLO error budget `"@, "SLO error budget "@, s.id);
}

/// A name in back quotes behind a label.
proof fn lemma_named_headline(lead: Seq<char>, label: Seq<char>, name: Seq<char>)
    requires
        (lead == "Service check `"@ && label == "Service check "@) || (lead == "SLO error budget `"@
            && label == "SLO error budget "@),
    ensures
        mentions(lead + name + "`"@, "`"@ + name + "`"@),
        begins(lead + name + "`"@, label),
{
    reveal_strlit("Service check `");
    reveal_strlit("Service check ");
    reveal_strlit("SLO error budget `");
    reveal_strlit("SLO error budget ");
    reveal_strlit("`");
    assert(lead =~= label + "`"@);
    let t = lead + name + "`"@;
    let none = Seq::<char>::empty();
    assert(t =~= label + ("`"@ + name + "`"@) + none);
    lemma_parts(t, label, "`"@ + name + "`"@, none);
}

/// The condition that a summary shows stands at the end of the explanation.
pub proof fn law_summaries_agree_with_explanations(q: MonitorQueryView, raw: Seq<char>)
    requires
        !(q is ServiceCheck),
        !(q is Unparsed),
    ensures
        summary(q, raw).condition matches Some(c) && ends_with(explanation(q), c + "."@),
{
    let c = summary(q, raw).condition->Some_0;
    let t = explanation(q);
    let n = t.len() - (c + "."@).len();
    assert(t.skip(n) =~= c + "."@);
}

/// A value is shown by its word, by the text of its number or as it is.
pub proof fn law_values_are_shown(x: Binary64, s: Seq<char>)
    ensures
        param_text(ParamValueView::Bool(true)) == "true"@,
        param_text(ParamValueView::Bool(false)) == "false"@,
        param_text(ParamValueView::Str(s)) == s,
        x.magnitude() < INFINITE ==> number_of(param_text(ParamValueView::Number(x))) == Some(x),
{
    if x.magnitude() < INFINITE {
        law_numbers_are_read_back(x);
    }
}

/// The text of an error names its place and ends with its reason.
pub proof fn law_errors_are_told(e: ParseErrorView)
    ensures
        begins(error_text(e), "parse error at byte "@ + decimal(e.offset)),
        ends_with(error_text(e), ": "@ + e.reason),
{
    let lead = "parse error at byte "@ + decimal(e.offset);
    lemma_parts(error_text(e), lead, ": "@, e.reason);
}

} // verus!
