//! The words of the library: which token stands for what, and by which word it is
//! shown. No two values are shown alike.

use vstd::prelude::*;
use crate::ast::{
    ArithOp, BoolOp, ChangeKind, CmpOp, FuncKind, ParamValueView, SearchSource, SpaceAgg,
    SpaceAggView, TimeAgg,
};
use crate::grammar::{bareword, combines, dialect_of, source_of, Dialect};
use crate::phrasing::{
    aggregation_word, arith_symbol, change_name, comparison_symbol, counted_noun, source_name,
    transform_phrase,
};
use crate::text::begins;

verus! {

// ----- tokens -------------------------------------------------------------------

/// The time aggregations and the tokens they are written by, and no others.
pub proof fn law_time_aggregations(s: Seq<char>)
    ensures
        TimeAgg::of_token("avg"@) == Some(TimeAgg::Avg),
        TimeAgg::of_token("sum"@) == Some(TimeAgg::Sum),
        TimeAgg::of_token("min"@) == Some(TimeAgg::Min),
        TimeAgg::of_token("max"@) == Some(TimeAgg::Max),
        TimeAgg::of_token("count"@) == Some(TimeAgg::Count),
        TimeAgg::of_token("percentile"@) == Some(TimeAgg::Percentile),
        s != "avg"@ && s != "sum"@ && s != "min"@ && s != "max"@ && s != "count"@ && s
            != "percentile"@ ==> TimeAgg::of_token(s) is None,
{
    lemma_aggregators_differ();
}

/// The space aggregations and the tokens they are written by.
pub proof fn law_space_aggregations(rank: Seq<char>)
    ensures
        SpaceAgg::of_token("avg"@) == Some(SpaceAggView::Avg),
        SpaceAgg::of_token("sum"@) == Some(SpaceAggView::Sum),
        SpaceAgg::of_token("min"@) == Some(SpaceAggView::Min),
        SpaceAgg::of_token("max"@) == Some(SpaceAggView::Max),
        SpaceAgg::of_token("count"@) == Some(SpaceAggView::Count),
        SpaceAggView::Avg.token() == "avg"@,
        SpaceAggView::Sum.token() == "sum"@,
        SpaceAggView::Min.token() == "min"@,
        SpaceAggView::Max.token() == "max"@,
        SpaceAggView::Count.token() == "count"@,
        SpaceAggView::Percentile(rank).token() == seq!['p'] + rank,
{
    lemma_aggregators_differ();
}

proof fn lemma_aggregators_differ()
    ensures
        "avg"@ != "sum"@ && "avg"@ != "min"@ && "avg"@ != "max"@ && "avg"@ != "count"@,
        "sum"@ != "min"@ && "sum"@ != "max"@ && "sum"@ != "count"@,
        "min"@ != "max"@ && "min"@ != "count"@ && "max"@ != "count"@,
        "percentile"@ != "avg"@ && "percentile"@ != "sum"@ && "percentile"@ != "min"@,
        "percentile"@ != "max"@ && "percentile"@ != "count"@,
{
    reveal_strlit("avg");
    reveal_strlit("sum");
    reveal_strlit("min");
    reveal_strlit("max");
    reveal_strlit("count");
    reveal_strlit("percentile");
    assert("avg"@.len() == 3 && "sum"@.len() == 3 && "min"@.len() == 3 && "max"@.len() == 3);
    assert("count"@.len() == 5 && "percentile"@.len() == 10);
    assert("avg"@[0] == 'a' && "sum"@[0] == 's' && "min"@[0] == 'm' && "max"@[0] == 'm');
    assert("min"@[1] == 'i' && "max"@[1] == 'a');
}

/// The evaluation functions and the names they are called by, and no others.
pub proof fn law_evaluation_functions(s: Seq<char>)
    ensures
        FuncKind::of_token("anomalies"@) == Some(FuncKind::Anomalies),
        FuncKind::of_token("outliers"@) == Some(FuncKind::Outliers),
        FuncKind::of_token("forecast"@) == Some(FuncKind::Forecast),
        s != "anomalies"@ && s != "outliers"@ && s != "forecast"@ ==> FuncKind::of_token(s) is None,
{
    reveal_strlit("anomalies");
    reveal_strlit("outliers");
    reveal_strlit("forecast");
    assert("anomalies"@[0] == 'a' && "outliers"@[0] == 'o' && "forecast"@[0] == 'f');
}

/// The kinds of change and the names they are called by, and no others.
pub proof fn law_changes(s: Seq<char>)
    ensures
        ChangeKind::of_token("change"@) == Some(ChangeKind::Change),
        ChangeKind::of_token("pct_change"@) == Some(ChangeKind::PctChange),
        s != "change"@ && s != "pct_change"@ ==> ChangeKind::of_token(s) is None,
{
    reveal_strlit("change");
    reveal_strlit("pct_change");
    assert("change"@[0] == 'c' && "pct_change"@[0] == 'p');
}

/// The operators and the tokens they are written by.
pub proof fn law_operators()
    ensures
        ArithOp::Add.token() == "+"@,
        ArithOp::Sub.token() == "-"@,
        ArithOp::Mul.token() == "*"@,
        ArithOp::Div.token() == "/"@,
        BoolOp::And.token() == "&&"@,
        BoolOp::Or.token() == "||"@,
        CmpOp::Ge.token() == ">="@,
        CmpOp::Le.token() == "<="@,
        CmpOp::Eq.token() == "=="@,
        CmpOp::Ne.token() == "!="@,
        CmpOp::Gt.token() == ">"@,
        CmpOp::Lt.token() == "<"@,
{
}

/// The sources of a search and the names they are called by, and no others.
pub proof fn law_search_sources(s: Seq<char>)
    ensures
        source_of("logs"@) == Some(SearchSource::Logs),
        source_of("events"@) == Some(SearchSource::Events),
        source_of("rum"@) == Some(SearchSource::Rum),
        source_of("error-tracking"@) == Some(SearchSource::ErrorTracking),
        s != "logs"@ && s != "events"@ && s != "rum"@ && s != "error-tracking"@ ==> source_of(
            s,
        ) is None,
{
    lemma_sources_differ();
}

proof fn lemma_sources_differ()
    ensures
        "logs"@ != "events"@ && "logs"@ != "rum"@ && "logs"@ != "error-tracking"@,
        "events"@ != "rum"@ && "events"@ != "error-tracking"@ && "rum"@ != "error-tracking"@,
{
    reveal_strlit("logs");
    reveal_strlit("events");
    reveal_strlit("rum");
    reveal_strlit("error-tracking");
    assert("logs"@[0] == 'l' && "events"@[0] == 'e' && "rum"@[0] == 'r');
    assert("events"@.len() == 6 && "error-tracking"@.len() == 14);
}

/// Five aggregators combine expressions, and no other name does.
pub proof fn law_combining_aggregators(s: Seq<char>)
    ensures
        combines("avg"@) && combines("sum"@) && combines("min"@) && combines("max"@),
        combines("count"@),
        combines(s) ==> s == "avg"@ || s == "sum"@ || s == "min"@ || s == "max"@ || s == "count"@,
{
}

/// The name that a query begins with tells its dialect.
pub proof fn law_dialects(s: Seq<char>)
    ensures
        dialect_of("error_budget"@) == Some(Dialect::Slo),
        s == "logs"@ || s == "events"@ || s == "rum"@ || s == "error-tracking"@ ==> dialect_of(s)
            == Some(Dialect::Search),
        s == "avg"@ || s == "sum"@ || s == "min"@ || s == "max"@ || s == "count"@ || s
            == "change"@ || s == "pct_change"@ ==> dialect_of(s) == Some(Dialect::Metric),
        s != "error_budget"@ && source_of(s) is None && !combines(s) && ChangeKind::of_token(
            s,
        ) is None ==> dialect_of(s) is None,
{
    reveal_strlit("error_budget");
    reveal_strlit("logs");
    reveal_strlit("events");
    reveal_strlit("rum");
    reveal_strlit("error-tracking");
    reveal_strlit("avg");
    reveal_strlit("sum");
    reveal_strlit("min");
    reveal_strlit("max");
    reveal_strlit("count");
    reveal_strlit("change");
    reveal_strlit("pct_change");
    assert("error_budget"@.len() == 12 && "error-tracking"@.len() == 14);
    assert("logs"@.len() == 4 && "events"@.len() == 6 && "rum"@.len() == 3 && "rum"@[0] == 'r');
    assert("avg"@.len() == 3 && "sum"@.len() == 3 && "min"@.len() == 3 && "max"@.len() == 3);
    assert("avg"@[0] == 'a' && "sum"@[0] == 's' && "min"@[0] == 'm' && "max"@[0] == 'm');
    assert("count"@.len() == 5 && "change"@.len() == 6 && "pct_change"@.len() == 10);
    assert("change"@[0] == 'c' && "events"@[0] == 'e');
}

/// `true` and `false` are the truth values, and every other word is a string.
pub proof fn law_bare_words(word: Seq<char>)
    ensures
        bareword("true"@) == ParamValueView::Bool(true),
        bareword("false"@) == ParamValueView::Bool(false),
        word != "true"@ && word != "false"@ ==> bareword(word) == ParamValueView::Str(word),
{
    reveal_strlit("true");
    reveal_strlit("false");
    assert("true"@.len() == 4 && "false"@.len() == 5);
}

// ----- words --------------------------------------------------------------------

/// The words for time aggregations, one for each.
pub proof fn law_aggregation_words(a: TimeAgg, b: TimeAgg)
    ensures
        aggregation_word(TimeAgg::Avg) == "average"@,
        aggregation_word(TimeAgg::Sum) == "sum"@,
        aggregation_word(TimeAgg::Min) == "minimum"@,
        aggregation_word(TimeAgg::Max) == "maximum"@,
        aggregation_word(TimeAgg::Count) == "count"@,
        aggregation_word(TimeAgg::Percentile) == "percentile"@,
        aggregation_word(a) == aggregation_word(b) ==> a == b,
{
    reveal_strlit("average");
    reveal_strlit("sum");
    reveal_strlit("minimum");
    reveal_strlit("maximum");
    reveal_strlit("count");
    reveal_strlit("percentile");
    let (x, y) = (aggregation_word(a), aggregation_word(b));
    assert("average"@[0] == 'a' && "sum"@[0] == 's');
    assert("minimum"@[1] == 'i' && "maximum"@[1] == 'a');
    assert("minimum"@[0] == 'm' && "maximum"@[0] == 'm' && "count"@[0] == 'c');
    assert("percentile"@[0] == 'p');
    assert(x == y ==> x[0] == y[0] && x[1] == y[1]);
}

/// The symbols of comparisons, one for each.
pub proof fn law_comparison_symbols(a: CmpOp, b: CmpOp)
    ensures
        comparison_symbol(CmpOp::Ge) == "≥"@,
        comparison_symbol(CmpOp::Le) == "≤"@,
        comparison_symbol(CmpOp::Eq) == "="@,
        comparison_symbol(CmpOp::Ne) == "≠"@,
        comparison_symbol(CmpOp::Gt) == ">"@,
        comparison_symbol(CmpOp::Lt) == "<"@,
        comparison_symbol(a).len() == 1,
        comparison_symbol(a) == comparison_symbol(b) ==> a == b,
{
    reveal_strlit("≥");
    reveal_strlit("≤");
    reveal_strlit("=");
    reveal_strlit("≠");
    reveal_strlit(">");
    reveal_strlit("<");
    let (x, y) = (comparison_symbol(a), comparison_symbol(b));
    assert(x == y ==> x[0] == y[0]);
}

/// The symbols of arithmetic operations, one for each.
pub proof fn law_arithmetic_symbols(a: ArithOp, b: ArithOp)
    ensures
        arith_symbol(ArithOp::Add) == "+"@,
        arith_symbol(ArithOp::Sub) == "-"@,
        arith_symbol(ArithOp::Mul) == "×"@,
        arith_symbol(ArithOp::Div) == "÷"@,
        arith_symbol(a).len() == 1,
        arith_symbol(a) == arith_symbol(b) ==> a == b,
{
    reveal_strlit("+");
    reveal_strlit("-");
    reveal_strlit("×");
    reveal_strlit("÷");
    let (x, y) = (arith_symbol(a), arith_symbol(b));
    assert(x == y ==> x[0] == y[0]);
}

/// The two kinds of change never read alike, and the percentage is called one; a
/// name within a sentence differs from that at its start by its first letter alone.
pub proof fn law_change_names(capitalized: bool)
    ensures
        change_name(ChangeKind::Change, capitalized) != change_name(
            ChangeKind::PctChange,
            capitalized,
        ),
        change_name(ChangeKind::Change, false) == "change"@,
        begins(change_name(ChangeKind::PctChange, false), "percentage"@),
        begins(change_name(ChangeKind::PctChange, true), "Percentage"@),
        change_name(ChangeKind::PctChange, false) == "percentage "@ + change_name(
            ChangeKind::Change,
            false,
        ),
        change_name(ChangeKind::Change, true)[0] == 'C',
        change_name(ChangeKind::Change, true).skip(1) == change_name(
            ChangeKind::Change,
            false,
        ).skip(1),
        change_name(ChangeKind::PctChange, true).skip(1) == change_name(
            ChangeKind::PctChange,
            false,
        ).skip(1),
{
    reveal_strlit("Change");
    reveal_strlit("change");
    reveal_strlit("Percentage change");
    reveal_strlit("percentage change");
    reveal_strlit("percentage");
    reveal_strlit("percentage ");
    reveal_strlit("Percentage");
    assert("Change"@.len() == 6 && "change"@.len() == 6);
    assert("percentage change"@.len() == 17 && "Percentage change"@.len() == 17);
    assert("percentage change"@.take(10) =~= "percentage"@);
    assert("Percentage change"@.take(10) =~= "Percentage"@);
    assert("percentage change"@ =~= "percentage "@ + "change"@);
    assert("Change"@.skip(1) =~= "change"@.skip(1));
    assert("Percentage change"@.skip(1) =~= "percentage change"@.skip(1));
}

/// What the searches of each source count, and the labels of the sources, one for
/// each.
pub proof fn law_source_words(a: SearchSource, b: SearchSource)
    ensures
        counted_noun(SearchSource::Logs) == "log events"@,
        counted_noun(SearchSource::Events) == "events"@,
        counted_noun(SearchSource::Rum) == "RUM events"@,
        counted_noun(SearchSource::ErrorTracking) == "tracked errors"@,
        source_name(SearchSource::Logs) == "Log"@,
        source_name(SearchSource::Events) == "Event"@,
        source_name(SearchSource::Rum) == "RUM"@,
        source_name(SearchSource::ErrorTracking) == "Error-tracking"@,
        counted_noun(a) == counted_noun(b) ==> a == b,
        source_name(a) == source_name(b) ==> a == b,
{
    reveal_strlit("log events");
    reveal_strlit("events");
    reveal_strlit("RUM events");
    reveal_strlit("tracked errors");
    reveal_strlit("Log");
    reveal_strlit("Event");
    reveal_strlit("RUM");
    reveal_strlit("Error-tracking");
    let (x, y) = (counted_noun(a), counted_noun(b));
    assert("log events"@[0] == 'l' && "events"@[0] == 'e' && "RUM events"@[0] == 'R');
    assert("tracked errors"@[0] == 't');
    assert(x == y ==> x[0] == y[0]);
    let (u, v) = (source_name(a), source_name(b));
    assert("Log"@[0] == 'L' && "Event"@[0] == 'E' && "RUM"@[0] == 'R');
    assert("Event"@[1] == 'v' && "Error-tracking"@[1] == 'r' && "Error-tracking"@[0] == 'E');
    assert(u == v ==> u[0] == v[0] && u[1] == v[1]);
}

/// The names of transforms that have a phrase of their own.
pub open spec fn phrased(name: Seq<char>) -> bool {
    ||| begins(name, "median_"@)
    ||| begins(name, "ewma_"@)
    ||| name == "clamp_min"@
    ||| name == "clamp_max"@
    ||| name == "abs"@
    ||| name == "count_nonzero"@
}

/// The phrases for transforms: a span is said of medians and moving averages, four
/// transforms have words of their own, and any other is its name, character by
/// character, with a space for each underscore.
pub proof fn law_transform_phrases(name: Seq<char>, span: Seq<char>)
    ensures
        transform_phrase("median_"@ + span) == span + "-point median"@,
        transform_phrase("ewma_"@ + span) == span + "-point EWMA"@,
        transform_phrase("clamp_min"@) == "lower-clamped value"@,
        transform_phrase("clamp_max"@) == "upper-clamped value"@,
        transform_phrase("abs"@) == "absolute value"@,
        transform_phrase("count_nonzero"@) == "non-zero count"@,
        !phrased(name) ==> transform_phrase(name).len() == name.len() && forall|i: int|
            0 <= i < name.len() ==> #[trigger] transform_phrase(name)[i] == (if name[i] == '_' {
                ' '
            } else {
                name[i]
            }),
{
    reveal_strlit("median_");
    reveal_strlit("ewma_");
    reveal_strlit("clamp_min");
    reveal_strlit("clamp_max");
    reveal_strlit("abs");
    reveal_strlit("count_nonzero");
    let (m, e) = ("median_"@, "ewma_"@);
    let (a, b) = (m + span, e + span);
    assert(m.len() == 7 && e.len() == 5 && m[0] == 'm' && e[0] == 'e');
    assert(a.take(7) =~= m && a.skip(7) =~= span);
    assert(b.take(5) =~= e && b.skip(5) =~= span);
    assert(b.len() >= 7 ==> b.take(7)[0] == 'e');
    assert("clamp_min"@.len() == 9 && "clamp_max"@.len() == 9 && "abs"@.len() == 3);
    assert("count_nonzero"@.len() == 13);
    assert("clamp_min"@.take(7)[0] == 'c' && "clamp_min"@.take(5)[0] == 'c');
    assert("clamp_max"@.take(7)[0] == 'c' && "clamp_max"@.take(5)[0] == 'c');
    assert("count_nonzero"@.take(7)[0] == 'c' && "count_nonzero"@.take(5)[0] == 'c');
    assert("clamp_min"@[7] == 'i' && "clamp_max"@[7] == 'a');
}

} // verus!
