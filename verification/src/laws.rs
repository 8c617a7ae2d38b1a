//! What holds of the library as a whole: laws that relate several functions.

use vstd::prelude::*;
use vstd::utf8::encode_scalar;
use crate::ast::{
    ArithOp, BoolOp, ChangeKind, CmpOp, CompositeExprView, FilterView, FuncKind, MetricExprView,
    MonitorQueryView, SpaceAgg, SpaceAggView, TimeAgg, WindowView,
};
use crate::composites::boolean;
use crate::cursor::{
    done, eaten, expecting, lemma_skipped_once, lemma_split, next_is, peeked, prepended, quoting,
    skipped, unquoted,
};
use crate::error::ParseErrorView;
use crate::grammar::{
    arith, colon, conjunction, conjuncts, dialect, disjunction, disjuncts, filter, filters, group,
    in_digits, in_scope_token, in_separator, lemma_eaten, metric_body, negation, next_operator,
    operations, parsed, plain_metric, power_of, query, scope, scope_tokens, term, too_deep,
    window_in_parens, Dialect, MAX_DEPTH,
};
use crate::literal::number_of;
use crate::parsed_or_kept;
use crate::phrasing::summary;
use crate::reasons::{
    lemma_arith, lemma_conjunction, lemma_metric, lemma_negation, lemma_term, lemma_whole, one_line,
    printable, shaped,
};
use crate::rendering::lemma_decimal;
use crate::text::{
    after_run, ascii_white, begins, bytes, decimal, digit, lemma_bytes_prefix, lemma_bytes_step,
    lemma_run, lemma_run_behind, lemma_run_is, numeral_value, trimmed, trimmed_end, trimmed_start,
    white,
};
use crate::window::{unit_of, window_of, window_text};

verus! {

// ----- degradation --------------------------------------------------------------

/// A query that parses belongs to one of the dialects: parsing never gives an
/// unparsed query.
pub proof fn law_parsing_never_gives_unparsed(s: Seq<char>)
    ensures
        parsed(s) matches Ok(q) ==> !(q is Unparsed),
{
}

/// A query that does not parse is kept verbatim, with the reason and the offset
/// of the error; one that parses is not changed.
pub proof fn law_nothing_is_dropped(s: Seq<char>)
    ensures
        match parsed(s) {
            Ok(q) => parsed_or_kept(s) == q,
            Err(e) => parsed_or_kept(s) == (MonitorQueryView::Unparsed {
                raw: s,
                reason: e.reason,
                offset: e.offset,
            }),
        },
        parsed_or_kept(s) is Unparsed <==> parsed(s) is Err,
{
    law_parsing_never_gives_unparsed(s);
}

/// A summary holds the query verbatim, whatever the query is.
pub proof fn law_summaries_keep_the_query(q: MonitorQueryView, raw: Seq<char>)
    ensures
        summary(q, raw).raw == raw,
{
}

// ----- parsing ------------------------------------------------------------------

/// Every query that does not parse is told why in one line of printable ASCII,
/// which is not empty.
pub proof fn law_reasons_are_one_line(s: Seq<char>)
    ensures
        parsed(s) matches Err(e) ==> one_line(e.reason),
{
    assert(one_line("empty query"@)) by {
        reveal(printable);
        reveal_strlit("empty query");
    }
    lemma_whole(s);
}

/// In every metric query that parses, a combination is by an aggregator and
/// of two expressions or more, and a change stands at the root alone.
pub proof fn law_expressions_are_shaped(s: Seq<char>)
    ensures
        parsed(s) matches Ok(MonitorQueryView::Metric(m)) ==> match m.expr {
            MetricExprView::Change { kind, inner_agg, shift, arg } => shaped(*arg),
            other => shaped(other),
        },
{
    lemma_metric(skipped(s));
}

// ----- tokens -------------------------------------------------------------------

/// The token of a time aggregation stands for it, and for nothing else.
pub proof fn law_time_agg_tokens(v: TimeAgg, s: Seq<char>)
    ensures
        TimeAgg::of_token(v.token()) == Some(v),
        TimeAgg::of_token(s) == Some(v) <==> s == v.token(),
{
    reveal_strlit("avg");
    reveal_strlit("sum");
    reveal_strlit("min");
    reveal_strlit("max");
    reveal_strlit("count");
    reveal_strlit("percentile");
    assert("count"@.len() == 5 && "percentile"@.len() == 10 && "avg"@.len() == 3);
    assert("sum"@.len() == 3 && "min"@.len() == 3 && "max"@.len() == 3);
    assert("avg"@[0] == 'a' && "sum"@[0] == 's' && "min"@[1] == 'i' && "max"@[1] == 'a');
}

/// The token of an evaluation function stands for it, and for nothing else.
pub proof fn law_func_kind_tokens(v: FuncKind, s: Seq<char>)
    ensures
        FuncKind::of_token(v.token()) == Some(v),
        FuncKind::of_token(s) == Some(v) <==> s == v.token(),
{
    reveal_strlit("anomalies");
    reveal_strlit("outliers");
    reveal_strlit("forecast");
    assert("anomalies"@.len() == 9 && "outliers"@[0] == 'o' && "forecast"@[0] == 'f');
}

/// The token of an arithmetic operator stands for it, and for nothing else.
pub proof fn law_arith_op_tokens(v: ArithOp, s: Seq<char>)
    ensures
        ArithOp::of_token(v.token()) == Some(v),
        ArithOp::of_token(s) == Some(v) <==> s == v.token(),
{
    reveal_strlit("+");
    reveal_strlit("-");
    reveal_strlit("*");
    reveal_strlit("/");
    assert("+"@[0] == '+' && "-"@[0] == '-' && "*"@[0] == '*' && "/"@[0] == '/');
}

/// The token of a kind of change stands for it, and for nothing else.
pub proof fn law_change_kind_tokens(v: ChangeKind, s: Seq<char>)
    ensures
        ChangeKind::of_token(v.token()) == Some(v),
        ChangeKind::of_token(s) == Some(v) <==> s == v.token(),
{
    reveal_strlit("change");
    reveal_strlit("pct_change");
    assert("change"@.len() == 6 && "pct_change"@.len() == 10);
}

/// The token of a boolean operator stands for it, and for nothing else.
pub proof fn law_bool_op_tokens(v: BoolOp, s: Seq<char>)
    ensures
        BoolOp::of_token(v.token()) == Some(v),
        BoolOp::of_token(s) == Some(v) <==> s == v.token(),
{
    reveal_strlit("&&");
    reveal_strlit("||");
    assert("&&"@[0] == '&' && "||"@[0] == '|');
}

/// The token of a comparison stands for it, and for nothing else.
pub proof fn law_comparison_tokens(v: CmpOp, s: Seq<char>)
    ensures
        CmpOp::of_token(v.token()) == Some(v),
        CmpOp::of_token(s) == Some(v) <==> s == v.token(),
{
    reveal_strlit(">=");
    reveal_strlit("<=");
    reveal_strlit("==");
    reveal_strlit("!=");
    reveal_strlit(">");
    reveal_strlit("<");
    assert(">="@[0] == '>' && "<="@[0] == '<' && "=="@[0] == '=' && "!="@[0] == '!');
    assert(">"@[0] == '>' && "<"@[0] == '<' && ">"@.len() == 1 && "<"@.len() == 1);
    assert(">="@.len() == 2 && "<="@.len() == 2 && "=="@.len() == 2 && "!="@.len() == 2);
}

/// A space aggregation is written back as it was read: a percentile keeps its
/// rank, whole or fractional, without loss.
pub proof fn law_space_agg_is_written_back(s: Seq<char>)
    ensures
        SpaceAgg::of_token(s) matches Some(v) ==> v.token() == s,
{
    match SpaceAgg::of_token(s) {
        Some(SpaceAggView::Percentile(rank)) => {
            assert(seq!['p'] + s.skip(1) =~= s);
        },
        _ => {},
    }
}

/// A space aggregation is read back as it was written: always if it is named, and
/// if it is a percentile, where its rank is a number between 0 and 100.
pub proof fn law_space_agg_is_read_back(v: SpaceAggView)
    ensures
        match v {
            SpaceAggView::Percentile(rank) => SpaceAgg::of_token(v.token()) == (match number_of(
                rank,
            ) {
                Some(x) => if x.is_percentage() {
                    Some(v)
                } else {
                    None
                },
                None => None,
            }),
            _ => SpaceAgg::of_token(v.token()) == Some(v),
        },
{
    reveal_strlit("avg");
    reveal_strlit("sum");
    reveal_strlit("min");
    reveal_strlit("max");
    reveal_strlit("count");
    assert("avg"@[0] == 'a' && "sum"@[0] == 's' && "min"@[1] == 'i' && "max"@[1] == 'a');
    assert("min"@[0] == 'm' && "max"@[0] == 'm' && "count"@[0] == 'c');
    match v {
        SpaceAggView::Percentile(rank) => {
            let t = seq!['p'] + rank;
            assert(t[0] == 'p');
            assert(t.skip(1) =~= rank);
        },
        _ => {},
    }
}

// ----- windows ------------------------------------------------------------------

/// A window keeps its token, and its length does not depend on how it is
/// anchored: `last_5m`, `current_5m` and `5m` last equally long, and a window
/// without an anchor is one of the last period. They are displayed alike but for
/// the first word.
pub proof fn law_windows_do_not_depend_on_the_anchor(body: Seq<char>)
    requires
        !begins(body, "last_"@),
        !begins(body, "current_"@),
    ensures
        window_of(body) is Some <==> window_of("last_"@ + body) is Some,
        window_of(body) is Some <==> window_of("current_"@ + body) is Some,
        window_of(body) matches Some(w) ==> {
            let last = window_of("last_"@ + body)->Some_0;
            let current = window_of("current_"@ + body)->Some_0;
            &&& w.raw == body
            &&& last.raw == "last_"@ + body
            &&& current.raw == "current_"@ + body
            &&& w.seconds == last.seconds
            &&& w.seconds == current.seconds
            &&& w.display == last.display
            &&& begins(last.display, "last "@)
            &&& current.display == "current "@ + last.display.skip("last "@.len() as int)
        },
{
    reveal_strlit("last_");
    reveal_strlit("current_");
    let a = "last_"@ + body;
    let b = "current_"@ + body;
    assert(a.take("last_"@.len() as int) =~= "last_"@);
    assert(a.skip("last_"@.len() as int) =~= body);
    assert(b.take("current_"@.len() as int) =~= "current_"@);
    assert(b.skip("current_"@.len() as int) =~= body);
    if begins(b, "last_"@) {
        assert(b.take(5)[0] == "current_"@[0]);
    }
    if window_of(body) is Some {
        let last = window_of(a)->Some_0.display;
        let current = window_of(b)->Some_0.display;
        reveal_strlit("last");
        reveal_strlit("current");
        reveal_strlit("last ");
        reveal_strlit("current ");
        reveal_strlit(" ");
        assert("last "@ =~= "last"@ + " "@);
        assert("current "@ =~= "current"@ + " "@);
        assert(last.take(5) =~= "last "@);
        assert(current =~= "current "@ + last.skip(5));
    }
}

/// The units of time: the token, the word and the length in seconds.
pub open spec fn unit_of_time(unit: Seq<char>, noun: Seq<char>, seconds: nat) -> bool {
    ||| unit == "s"@ && noun == "second"@ && seconds == 1
    ||| unit == "m"@ && noun == "minute"@ && seconds == 60
    ||| unit == "h"@ && noun == "hour"@ && seconds == 60 * 60
    ||| unit == "d"@ && noun == "day"@ && seconds == 24 * 60 * 60
    ||| unit == "w"@ && noun == "week"@ && seconds == 7 * 24 * 60 * 60
    ||| unit == "mo"@ && noun == "month"@ && seconds == 30 * 24 * 60 * 60
}

proof fn lemma_units(unit: Seq<char>, noun: Seq<char>, seconds: nat)
    requires
        unit_of_time(unit, noun, seconds),
    ensures
        unit.len() > 0,
        !digit(unit[0]),
        unit_of(unit) == Some((seconds as u64, noun)),
{
    reveal_strlit("s");
    reveal_strlit("m");
    reveal_strlit("h");
    reveal_strlit("d");
    reveal_strlit("w");
    reveal_strlit("mo");
    assert("s"@.len() == 1 && "m"@.len() == 1 && "h"@.len() == 1 && "d"@.len() == 1);
    assert("w"@.len() == 1 && "mo"@.len() == 2);
    assert("s"@[0] == 's' && "m"@[0] == 'm' && "h"@[0] == 'h' && "d"@[0] == 'd' && "w"@[0] == 'w');
}

/// A window of a number and a unit is that many units long, and is displayed by that
/// number and the word for the unit, which is plural for every number but 1. A
/// window whose length does not fit 64 bits is none.
pub proof fn law_windows_are_measured(
    numeral: Seq<char>,
    unit: Seq<char>,
    noun: Seq<char>,
    seconds: nat,
)
    requires
        numeral.len() > 0,
        forall|i: int| 0 <= i < numeral.len() ==> digit(#[trigger] numeral[i]),
        unit_of_time(unit, noun, seconds),
    ensures
        ({
            let count = numeral_value(numeral);
            let span = decimal(count) + " "@ + noun + if count == 1 {
                Seq::empty()
            } else {
                seq!['s']
            };
            &&& count * seconds <= u64::MAX ==> window_of("last_"@ + numeral + unit) == Some(
                WindowView {
                    raw: "last_"@ + numeral + unit,
                    seconds: (count * seconds) as u64,
                    display: "last "@ + span,
                },
            )
            &&& count * seconds > u64::MAX ==> window_of("last_"@ + numeral + unit) is None
        }),
{
    let body = numeral + unit;
    let raw = "last_"@ + numeral + unit;
    let count = numeral_value(numeral);
    reveal_strlit("last_");
    reveal_strlit("last");
    reveal_strlit("last ");
    reveal_strlit(" ");
    reveal_strlit("");
    reveal_strlit("s");
    lemma_units(unit, noun, seconds);
    assert(raw =~= "last_"@ + body);
    assert(raw.take(5) =~= "last_"@);
    assert(raw.skip(5) =~= body);
    lemma_split(body, numeral, unit, |c: char| digit(c));
    assert(body.take(numeral.len() as int) =~= numeral);
    assert(body.skip(numeral.len() as int) =~= unit);
    let span = decimal(count) + " "@ + noun + if count == 1 {
        Seq::empty()
    } else {
        seq!['s']
    };
    assert("s"@ =~= seq!['s']);
    assert(""@ =~= Seq::<char>::empty());
    assert(window_text("last"@, count, noun) =~= "last "@ + span);
}

/// A token that does not begin with a digit behind its anchor, or that does not end
/// with a unit of time, is no window.
pub proof fn law_other_windows_are_none(numeral: Seq<char>, unit: Seq<char>)
    requires
        forall|i: int| 0 <= i < numeral.len() ==> digit(#[trigger] numeral[i]),
        unit.len() > 0 ==> !digit(unit[0]),
        numeral.len() == 0 || (unit != "s"@ && unit != "m"@ && unit != "h"@ && unit != "d"@ && unit
            != "w"@ && unit != "mo"@),
    ensures
        window_of("last_"@ + numeral + unit) is None,
        window_of("current_"@ + numeral + unit) is None,
        numeral.len() > 0 ==> window_of(numeral + unit) is None,
{
    let body = numeral + unit;
    let (last, current) = ("last_"@ + numeral + unit, "current_"@ + numeral + unit);
    reveal_strlit("last_");
    reveal_strlit("current_");
    assert(last.take(5) =~= "last_"@);
    assert(last.skip(5) =~= body);
    assert(current.take(8) =~= "current_"@);
    assert(current.skip(8) =~= body);
    assert(current.take(5)[0] == 'c');
    lemma_split(body, numeral, unit, |c: char| digit(c));
    assert(body.take(numeral.len() as int) =~= numeral);
    assert(body.skip(numeral.len() as int) =~= unit);
    if numeral.len() > 0 {
        assert(body[0] == numeral[0] && digit(numeral[0]));
        assert(body.len() >= 5 ==> body.take(5)[0] == body[0]);
        assert(body.len() >= 8 ==> body.take(8)[0] == body[0]);
    }
}

/// Numerals have their value by place: a digit counts itself, and each digit behind
/// it counts it ten times more. A number is written without zeros before it.
pub proof fn law_numerals(a: Seq<char>, c: char, n: nat)
    requires
        digit(c),
    ensures
        numeral_value(Seq::<char>::empty()) == 0,
        numeral_value(a.push(c)) == 10 * numeral_value(a) + (c as int - '0' as int),
        numeral_value(decimal(n)) == n,
        decimal(n).len() > 0,
        forall|i: int| 0 <= i < decimal(n).len() ==> digit(#[trigger] decimal(n)[i]),
        decimal(n).len() > 1 ==> decimal(n)[0] != '0',
    decreases n,
{
    assert(a.push(c).drop_last() =~= a);
    assert(a.push(c).last() == c);
    lemma_decimal(n);
    if n >= 10 {
        law_numerals(a, c, n / 10);
        let front = decimal(n / 10);
        assert(decimal(n)[0] == front[0]);
        if front.len() == 1 {
            assert(front =~= Seq::<char>::empty().push(front[0]));
            assert(front.drop_last() =~= Seq::<char>::empty());
            assert(numeral_value(front.drop_last()) == 0);
            assert(numeral_value(front) == n / 10);
        }
    }
}

// ----- scopes -------------------------------------------------------------------

/// A filter as it is written in a query.
pub open spec fn filter_source(f: FilterView) -> Seq<char> {
    match f {
        FilterView::All => "*"@,
        FilterView::Glob(glob) => glob,
        FilterView::Tag { negated, key, value } => (if negated {
            seq!['!']
        } else {
            seq![]
        }) + key + seq![':'] + value,
    }
}

/// A filter keeps all of the token that it was read from.
pub proof fn law_filters_keep_their_token(token: Seq<char>)
    ensures
        filter_source(filter(token)) == token,
{
    if token != "*"@ {
        let negated = token.len() > 0 && token[0] == '!';
        let body = if negated {
            token.skip(1)
        } else {
            token
        };
        lemma_run(body, |c: char| c != ':');
        let n = colon(body) as int;
        if n < body.len() {
            assert(filter_source(filter(token)) =~= token);
        }
    }
}

/// A tag is split at its first colon: its key is all that stands before it, without
/// the mark of a negation, and its value is all that stands behind it, further
/// colons included.
pub proof fn law_tags_split_at_the_first_colon(key: Seq<char>, value: Seq<char>)
    requires
        forall|i: int| 0 <= i < key.len() ==> #[trigger] key[i] != ':',
    ensures
        filter(seq!['!'] + key + seq![':'] + value) == (FilterView::Tag {
            negated: true,
            key,
            value,
        }),
        !(key.len() > 0 && key[0] == '!') ==> filter(key + seq![':'] + value) == (FilterView::Tag {
            negated: false,
            key,
            value,
        }),
{
    let body = key + seq![':'] + value;
    let token = seq!['!'] + key + seq![':'] + value;
    let p = |c: char| c != ':';
    reveal_strlit("*");
    assert(token.skip(1) =~= body);
    assert(body =~= key + (seq![':'] + value));
    lemma_split(body, key, seq![':'] + value, p);
    assert(body.take(key.len() as int) =~= key);
    assert(body.skip(key.len() as int + 1) =~= value);
    assert(body[key.len() as int] == ':');
    assert(token[0] == '!');
    assert(body != "*"@) by {
        assert("*"@.len() == 1 && "*"@[0] == '*');
    }
}

/// The key of a tag holds no colon, whatever token it was read from.
pub proof fn law_keys_hold_no_colon(token: Seq<char>)
    ensures
        filter(token) matches FilterView::Tag { negated, key, value } ==> !key.contains(':')
            && (negated <==> token[0] == '!'),
{
    let body = if token.len() > 0 && token[0] == '!' {
        token.skip(1)
    } else {
        token
    };
    lemma_run(body, |c: char| c != ':');
}

/// `*` matches everything, and any other token without a colon is a glob, kept as
/// it is.
pub proof fn law_plain_tokens_are_globs(token: Seq<char>)
    requires
        !token.contains(':'),
    ensures
        filter("*"@) == FilterView::All,
        token != "*"@ ==> filter(token) == FilterView::Glob(token),
{
    let body = if token.len() > 0 && token[0] == '!' {
        token.skip(1)
    } else {
        token
    };
    assert forall|i: int| 0 <= i < body.len() implies #[trigger] body[i] != ':' by {
        assert(token.contains(body[i]) ==> body[i] != ':');
        if token.len() > 0 && token[0] == '!' {
            assert(body[i] == token[i + 1]);
        }
    }
    lemma_run_is(body, |c: char| c != ':', body.len());
}

/// Characters that separate filters.
pub open spec fn separators(s: Seq<char>) -> bool {
    forall|i: int| 0 <= i < s.len() ==> in_separator()(#[trigger] s[i])
}

/// A token of a scope: not empty, and without separators and `}`.
pub open spec fn scope_token(s: Seq<char>) -> bool {
    s.len() > 0 && forall|i: int| 0 <= i < s.len() ==> in_scope_token()(#[trigger] s[i])
}

proof fn lemma_leading_separators(first: Seq<char>, rest: Seq<char>)
    requires
        separators(first),
    ensures
        scope_tokens(first + rest) == scope_tokens(rest),
{
    lemma_run_behind(first, rest, in_separator());
}

proof fn lemma_leading_token(token: Seq<char>, rest: Seq<char>)
    requires
        scope_token(token),
        rest.len() > 0,
        !in_scope_token()(rest[0]),
    ensures
        scope_tokens(token + rest) == (seq![token] + scope_tokens(rest).0, scope_tokens(rest).1),
{
    let (p, q) = (in_separator(), in_scope_token());
    let t = token + rest;
    assert(t[0] == token[0]);
    assert(q(token[0]));
    lemma_run_is(t, p, 0);
    assert(t.skip(0) =~= t);
    lemma_split(t, token, rest, q);
    assert(after_run(t, p) == t);
}

/// Tokens with separators before, between and behind them.
pub open spec fn scope_text(tokens: Seq<Seq<char>>, gaps: Seq<Seq<char>>) -> Seq<char>
    decreases tokens.len(),
{
    if tokens.len() == 0 {
        gaps[0]
    } else {
        gaps[0] + tokens[0] + scope_text(tokens.skip(1), gaps.skip(1))
    }
}

/// Commas and runs of white space are equivalent separators: in a scope, tokens
/// are read in order, whichever separators stand between them, and whether or
/// not separators stand before the first and behind the last; reading stops at
/// the closing `}`, and each token becomes its filter.
pub proof fn law_separators_are_equivalent(
    tokens: Seq<Seq<char>>,
    gaps: Seq<Seq<char>>,
    rest: Seq<char>,
)
    requires
        gaps.len() == tokens.len() + 1,
        forall|i: int| 0 <= i < tokens.len() ==> scope_token(#[trigger] tokens[i]),
        forall|i: int| 0 <= i < gaps.len() ==> separators(#[trigger] gaps[i]),
        forall|i: int| 0 < i < tokens.len() ==> (#[trigger] gaps[i]).len() > 0,
    ensures
        scope_tokens(scope_text(tokens, gaps) + seq!['}'] + rest) == (tokens, seq!['}'] + rest),
        filters(scope_tokens(scope_text(tokens, gaps) + seq!['}'] + rest).0) == Seq::new(
            tokens.len(),
            |i: int| filter(tokens[i]),
        ),
        scope(seq!['{'] + scope_text(tokens, gaps) + seq!['}'] + rest) == done(tokens, rest),
    decreases tokens.len(),
{
    let closing = seq!['}'] + rest;
    let s = scope_text(tokens, gaps) + seq!['}'] + rest;
    assert(separators(gaps[0]));
    if tokens.len() == 0 {
        assert(s =~= gaps[0] + closing);
        lemma_leading_separators(gaps[0], closing);
        assert(closing[0] == '}');
        lemma_run_is(closing, in_separator(), 0);
        assert(closing.skip(0) =~= closing);
        assert(tokens =~= seq![]);
    } else {
        let (more, others) = (tokens.skip(1), gaps.skip(1));
        let tail = scope_text(more, others) + seq!['}'] + rest;
        assert forall|i: int| 0 <= i < more.len() implies scope_token(#[trigger] more[i]) by {
            assert(more[i] == tokens[i + 1]);
        }
        assert forall|i: int| 0 <= i < others.len() implies separators(#[trigger] others[i]) by {
            assert(others[i] == gaps[i + 1]);
        }
        assert forall|i: int| 0 < i < more.len() implies (#[trigger] others[i]).len() > 0 by {
            assert(others[i] == gaps[i + 1]);
        }
        law_separators_are_equivalent(more, others, rest);
        assert(s =~= gaps[0] + (tokens[0] + tail));
        lemma_leading_separators(gaps[0], tokens[0] + tail);
        assert(!in_scope_token()(tail[0])) by {
            assert(others[0] == gaps[1]);
            assert(separators(gaps[1]));
            if gaps[1].len() > 0 {
                assert(tail[0] == gaps[1][0]);
            } else {
                assert(more.len() == 0);
                assert(tail =~= closing);
            }
        }
        assert(scope_token(tokens[0]));
        lemma_leading_token(tokens[0], tail);
        assert(seq![tokens[0]] + more =~= tokens);
    }
    assert(filters(tokens) =~= Seq::new(tokens.len(), |i: int| filter(tokens[i])));
    let t = seq!['{'] + scope_text(tokens, gaps) + seq!['}'] + rest;
    reveal_strlit("{");
    reveal_strlit("}");
    assert(t[0] == '{' && closing[0] == '}');
    lemma_eat_first(t, "{"@);
    assert(t.skip(1) =~= s);
    lemma_eat_first(closing, "}"@);
    assert(closing.skip(1) =~= rest);
}

// ----- quoted strings -----------------------------------------------------------

/// A text with a backslash before each quote and each backslash.
pub open spec fn escaped(text: Seq<char>) -> Seq<char>
    decreases text.len(),
{
    if text.len() == 0 {
        seq![]
    } else {
        (if text[0] == '"' || text[0] == '\'' || text[0] == '\\' {
            seq!['\\', text[0]]
        } else {
            seq![text[0]]
        }) + escaped(text.skip(1))
    }
}

proof fn lemma_escaped(text: Seq<char>, quote: char, rest: Seq<char>)
    requires
        quote == '"' || quote == '\'',
    ensures
        unquoted(escaped(text) + seq![quote] + rest, quote) == Some((text, rest)),
    decreases text.len(),
{
    let s = escaped(text) + seq![quote] + rest;
    if text.len() == 0 {
        assert(s.skip(1) =~= rest);
        assert(text =~= seq![]);
    } else {
        let more = text.skip(1);
        let t = escaped(more) + seq![quote] + rest;
        lemma_escaped(more, quote, rest);
        assert(seq![text[0]] + more =~= text);
        if text[0] == '"' || text[0] == '\'' || text[0] == '\\' {
            assert(s[0] == '\\' && s[1] == text[0]);
            assert(s.skip(2) =~= t);
        } else {
            assert(s[0] == text[0]);
            assert(s.skip(1) =~= t);
        }
    }
}

/// A text between quotes is read back, once its quotes and backslashes are
/// escaped.
pub proof fn law_quoted_text_is_read_back(text: Seq<char>, quote: char, rest: Seq<char>)
    requires
        quote == '"' || quote == '\'',
    ensures
        quoting(seq![quote] + escaped(text) + seq![quote] + rest) == done(text, rest),
{
    let s = seq![quote] + escaped(text) + seq![quote] + rest;
    assert(s[0] == quote);
    lemma_run_is(s, |c: char| ascii_white(c), 0);
    assert(s.skip(0) =~= s);
    assert(s.skip(1) =~= escaped(text) + seq![quote] + rest);
    lemma_escaped(text, quote, rest);
}

/// What stands before an escaped text is read first.
proof fn lemma_escaped_front(a: Seq<char>, quote: char, tail: Seq<char>)
    requires
        quote == '"' || quote == '\'',
    ensures
        unquoted(escaped(a) + tail, quote) == prepended(a, unquoted(tail, quote)),
    decreases a.len(),
{
    let s = escaped(a) + tail;
    if a.len() == 0 {
        assert(s =~= tail);
        assert(a =~= seq![]);
        match unquoted(tail, quote) {
            Some((t, rest)) => {
                assert(a + t =~= t);
            },
            None => {},
        }
    } else {
        let (c, more) = (a[0], a.skip(1));
        lemma_escaped_front(more, quote, tail);
        let inner = escaped(more) + tail;
        if c == '"' || c == '\'' || c == '\\' {
            assert(s[0] == '\\' && s[1] == c);
            assert(s.skip(2) =~= inner);
        } else {
            assert(s[0] == c);
            assert(s.skip(1) =~= inner);
        }
        match unquoted(tail, quote) {
            Some((t, rest)) => {
                assert(seq![c] + (more + t) =~= a + t);
            },
            None => {},
        }
    }
}

/// A backslash before any other character is kept, with that character, wherever it
/// stands in a quoted text.
pub proof fn law_other_escapes_are_kept(
    a: Seq<char>,
    c: char,
    b: Seq<char>,
    quote: char,
    rest: Seq<char>,
)
    requires
        quote == '"' || quote == '\'',
        c != '"' && c != '\'' && c != '\\',
    ensures
        quoting(
            seq![quote] + escaped(a) + seq!['\\', c] + escaped(b) + seq![quote] + rest,
        ) == done(a + seq!['\\', c] + b, rest),
{
    let s = seq![quote] + escaped(a) + seq!['\\', c] + escaped(b) + seq![quote] + rest;
    let behind = escaped(b) + seq![quote] + rest;
    let tail = seq!['\\', c] + behind;
    assert(s[0] == quote);
    lemma_first(s);
    assert(s.skip(1) =~= escaped(a) + tail);
    lemma_escaped_front(a, quote, tail);
    assert(tail[0] == '\\' && tail[1] == c);
    assert(tail.skip(2) =~= behind);
    lemma_escaped(b, quote, rest);
    assert(a + (seq!['\\', c] + b) =~= a + seq!['\\', c] + b);
}

/// A text without backslashes and without the quote is read as it is between two
/// quotes, and is refused where the second is missing.
pub proof fn law_plain_text_is_read_as_it_is(text: Seq<char>, quote: char, rest: Seq<char>)
    requires
        quote == '"' || quote == '\'',
        !text.contains(quote),
        !text.contains('\\'),
    ensures
        quoting(seq![quote] + text + seq![quote] + rest) == done(text, rest),
        quoting(seq![quote] + text).result is Err,
{
    let s = seq![quote] + text + seq![quote] + rest;
    let t = seq![quote] + text;
    assert(s[0] == quote && t[0] == quote);
    lemma_first(s);
    lemma_first(t);
    assert(s.skip(1) =~= text + (seq![quote] + rest));
    assert(t.skip(1) =~= text);
    lemma_plain_text(text, quote, rest);
}

proof fn lemma_plain_text(text: Seq<char>, quote: char, rest: Seq<char>)
    requires
        !text.contains(quote),
        !text.contains('\\'),
    ensures
        unquoted(text + (seq![quote] + rest), quote) == Some((text, rest)),
        unquoted(text, quote) is None,
    decreases text.len(),
{
    let tail = seq![quote] + rest;
    let s = text + tail;
    if text.len() == 0 {
        assert(s =~= tail);
        assert(tail.skip(1) =~= rest);
        assert(text =~= seq![]);
    } else {
        let more = text.skip(1);
        assert(text.contains(text[0]));
        assert forall|c: char| #[trigger] more.contains(c) implies text.contains(c) by {
            let i = choose|i: int| 0 <= i < more.len() && more[i] == c;
            assert(text[i + 1] == c);
        }
        assert(s[0] == text[0]);
        assert(s.skip(1) =~= more + tail);
        lemma_plain_text(more, quote, rest);
        assert(seq![text[0]] + more =~= text);
    }
}

// ----- refusals -----------------------------------------------------------------

/// Nothing but white space is no query, and is told so at its start.
pub proof fn law_blank_queries_are_refused(s: Seq<char>)
    requires
        forall|i: int| 0 <= i < s.len() ==> white(#[trigger] s[i]),
    ensures
        parsed(s) == Err::<MonitorQueryView, ParseErrorView>(
            ParseErrorView { offset: 0, reason: "empty query"@ },
        ),
{
    lemma_run_is(s, |c: char| white(c), s.len());
    assert(s.skip(s.len() as int) =~= Seq::<char>::empty());
}

/// What follows a whole query is refused, at the place where it begins: `read` is
/// what was read, and `rest` is what follows it.
pub proof fn law_trailing_input_is_refused(read: Seq<char>, rest: Seq<char>)
    requires
        query(read + rest).result is Ok,
        skipped(query(read + rest).rest) == rest,
        rest.len() > 0,
        !white(rest[0]),
        trimmed(read + rest).len() > 0,
    ensures
        parsed(read + rest) == Err::<MonitorQueryView, ParseErrorView>(
            ParseErrorView { offset: bytes(read), reason: "unexpected trailing input"@ },
        ),
{
    let s = read + rest;
    lemma_run_is(rest, |c: char| white(c), 0);
    assert(rest.skip(0) =~= rest);
    lemma_bytes_prefix(s, read.len() as int);
    assert(s.take(read.len() as int) =~= read);
    assert(s.skip(read.len() as int) =~= rest);
}

/// A literal that is missing is named, where it was expected.
pub proof fn law_missing_literals_are_named(s: Seq<char>, lit: Seq<char>)
    requires
        !next_is(s, lit),
    ensures
        expecting(s, lit).result == Err::<(), Seq<char>>("expected `"@ + lit + "`"@),
        expecting(s, lit).rest == skipped(s),
{
}

// ----- nesting ------------------------------------------------------------------

/// What comes next where the first character is no white space.
pub(crate) proof fn lemma_first(s: Seq<char>)
    requires
        s.len() > 0,
        !white(s[0]),
    ensures
        skipped(s) == s,
        peeked(s) == Some(s[0]),
{
    lemma_run_is(s, |c: char| ascii_white(c), 0);
    lemma_run_is(s, |c: char| white(c), 0);
    assert(s.skip(0) =~= s);
}

/// A literal of one character is consumed where it comes first.
pub(crate) proof fn lemma_eat_first(s: Seq<char>, lit: Seq<char>)
    requires
        s.len() > 0,
        !white(s[0]),
        lit.len() == 1,
    ensures
        next_is(s, lit) == (s[0] == lit[0]),
        s[0] == lit[0] ==> eaten(s, lit) == s.skip(1),
{
    lemma_first(s);
    assert(s.take(1)[0] == s[0]);
    if s[0] == lit[0] {
        assert(s.take(1) =~= lit);
    }
}

proof fn lemma_deep_groups(s: Seq<char>, least: u8, depth: nat)
    requires
        depth <= MAX_DEPTH + 1,
        s.len() + depth > MAX_DEPTH,
        forall|i: int| 0 <= i <= MAX_DEPTH - depth ==> #[trigger] s[i] == '(',
    ensures
        arith(s, least, depth).result == Err::<MetricExprView, Seq<char>>(too_deep()),
        arith(s, least, depth).rest == s.skip(MAX_DEPTH + 1 - depth),
    decreases MAX_DEPTH + 1 - depth,
{
    if depth <= MAX_DEPTH {
        reveal_strlit("(");
        assert(s[0] == '(');
        lemma_first(s);
        lemma_eat_first(s, "("@);
        assert forall|i: int| 0 <= i <= MAX_DEPTH - (depth + 1) implies #[trigger] s.skip(1)[i]
            == '(' by {
            assert(s.skip(1)[i] == s[i + 1]);
        }
        lemma_deep_groups(s.skip(1), 0, depth + 1);
        assert(s.skip(1).skip(MAX_DEPTH - depth) =~= s.skip(MAX_DEPTH + 1 - depth));
        assert(group(s, depth) == arith(s.skip(1), 0, depth + 1));
        assert(term(s, depth) == group(s, depth));
    } else {
        assert(s.skip(0) =~= s);
    }
}

/// An expression in more parentheses than may be nested is rejected, however
/// it goes on.
pub proof fn law_deep_expressions_are_rejected(s: Seq<char>)
    requires
        s.len() > MAX_DEPTH,
        forall|i: int| 0 <= i <= MAX_DEPTH ==> #[trigger] s[i] == '(',
    ensures
        arith(s, 0, 0).result == Err::<MetricExprView, Seq<char>>(too_deep()),
{
    lemma_deep_groups(s, 0, 0);
}

/// A metric query whose expression begins with more parentheses than may be
/// nested is rejected for that, whatever its aggregation and its window.
pub proof fn law_deep_metric_queries_are_rejected(agg: TimeAgg, s: Seq<char>)
    requires
        window_in_parens(s).result is Ok,
        expecting(window_in_parens(s).rest, ":"@).result is Ok,
        ({
            let expr = expecting(window_in_parens(s).rest, ":"@).rest;
            &&& expr.len() > MAX_DEPTH
            &&& forall|i: int| 0 <= i <= MAX_DEPTH ==> #[trigger] expr[i] == '('
        }),
    ensures
        plain_metric(agg, s).result is Err,
        plain_metric(agg, s).result->Err_0 == too_deep(),
{
    let expr = expecting(window_in_parens(s).rest, ":"@).rest;
    lemma_deep_groups(expr, 0, 0);
    assert(metric_body(window_in_parens(s).rest).result is Err);
}

/// A failure behind a first negation or parenthesis is that of the whole.
proof fn lemma_failure_within(s: Seq<char>, depth: nat)
    requires
        depth <= MAX_DEPTH,
        s.len() > 0,
        s[0] == '(' || s[0] == '!',
        negation(s.skip(1), depth + 1).result is Err,
        disjunction(s.skip(1), depth + 1) == negation(s.skip(1), depth + 1),
    ensures
        negation(s, depth) == negation(s.skip(1), depth + 1),
        disjunction(s, depth) == negation(s, depth),
{
    reveal_strlit("(");
    reveal_strlit("!");
    lemma_eat_first(s, "("@);
    lemma_eat_first(s, "!"@);
    let r = negation(s.skip(1), depth + 1);
    if s[0] == '!' {
        assert(next_is(s, "!"@));
    } else {
        assert(!next_is(s, "!"@) && next_is(s, "("@));
    }
    assert(negation(s, depth) == r);
    assert(conjunction(s, depth) == r);
}

proof fn lemma_deep_composites(s: Seq<char>, depth: nat)
    requires
        depth <= MAX_DEPTH + 1,
        s.len() + depth > MAX_DEPTH,
        forall|i: int| 0 <= i <= MAX_DEPTH - depth ==> #[trigger] s[i] == '(' || s[i] == '!',
    ensures
        negation(s, depth).result == Err::<CompositeExprView, Seq<char>>(too_deep()),
        negation(s, depth).rest == s.skip(MAX_DEPTH + 1 - depth),
        disjunction(s, depth) == negation(s, depth),
    decreases MAX_DEPTH + 1 - depth,
{
    if depth <= MAX_DEPTH {
        assert(s[0] == '(' || s[0] == '!');
        let t = s.skip(1);
        assert forall|i: int| 0 <= i <= MAX_DEPTH - (depth + 1) implies #[trigger] t[i] == '('
            || t[i] == '!' by {
            assert(t[i] == s[i + 1]);
        }
        lemma_deep_composites(t, depth + 1);
        assert(t.skip(MAX_DEPTH - depth) =~= s.skip(MAX_DEPTH + 1 - depth));
        lemma_failure_within(s, depth);
    } else {
        assert(s.skip(0) =~= s);
    }
}

proof fn lemma_ascii_width(c: char)
    requires
        c <= '~',
    ensures
        encode_scalar(c as u32).len() == 1,
{
}

proof fn lemma_ascii_bytes(s: Seq<char>, k: int)
    requires
        0 <= k <= s.len(),
        forall|i: int| 0 <= i < k ==> #[trigger] s[i] <= '~',
    ensures
        bytes(s.take(k)) == k,
    decreases k,
{
    if k > 0 {
        lemma_ascii_bytes(s, k - 1);
        lemma_bytes_step(s, k - 1);
        assert(s[k - 1] <= '~');
        lemma_ascii_width(s[k - 1]);
    } else {
        assert(s.take(0) =~= Seq::<char>::empty());
    }
}

/// A composite query with more negations and parentheses at its start than may
/// be nested is rejected at the first that is too deep.
pub proof fn law_deep_composites_are_rejected(s: Seq<char>)
    requires
        s.len() > MAX_DEPTH,
        forall|i: int| 0 <= i <= MAX_DEPTH ==> #[trigger] s[i] == '(' || s[i] == '!',
    ensures
        parsed(s) == Err::<MonitorQueryView, ParseErrorView>(
            ParseErrorView { offset: MAX_DEPTH as nat + 1, reason: too_deep() },
        ),
{
    assert(s[0] == '(' || s[0] == '!');
    lemma_first(s);
    lemma_deep_composites(s, 0);
    assert(trimmed(s).len() > 0) by {
        let t = trimmed_start(s);
        assert(t == s);
        lemma_trimmed_end(t);
    }
    assert(dialect(s) == Ok::<Dialect, Seq<char>>(Dialect::Composite));
    assert forall|i: int| 0 <= i < MAX_DEPTH + 1 implies #[trigger] s[i] <= '~' by {
        assert(s[i] == '(' || s[i] == '!');
    }
    lemma_ascii_bytes(s, MAX_DEPTH + 1);
    lemma_bytes_prefix(s, MAX_DEPTH + 1);
}

/// What begins with a character that is no white space is not trimmed away.
pub(crate) proof fn lemma_trimmed_end(s: Seq<char>)
    requires
        s.len() > 0,
        !white(s[0]),
    ensures
        trimmed_end(s).len() > 0,
    decreases s.len(),
{
    if white(s.last()) {
        assert(s.drop_last()[0] == s[0]);
        lemma_trimmed_end(s.drop_last());
    }
}

/// `n` exclamation marks.
pub open spec fn marks(n: nat) -> Seq<char> {
    Seq::new(n, |i: int| '!')
}

/// `c` negated `n` times.
pub open spec fn negated(n: nat, c: CompositeExprView) -> CompositeExprView
    decreases n,
{
    if n == 0 {
        c
    } else {
        CompositeExprView::Not(Box::new(negated((n - 1) as nat, c)))
    }
}

/// The id of a monitor, which is read where it comes first.
pub(crate) proof fn lemma_id(id: Seq<char>, rest: Seq<char>, depth: nat)
    requires
        depth <= MAX_DEPTH,
        id.len() > 0,
        forall|i: int| 0 <= i < id.len() ==> digit(#[trigger] id[i]),
        rest.len() > 0 ==> !digit(rest[0]),
    ensures
        negation(id + rest, depth) == done(CompositeExprView::Ref(id), rest),
{
    let s = id + rest;
    reveal_strlit("(");
    reveal_strlit("!");
    assert(s[0] == id[0]);
    lemma_eat_first(s, "("@);
    lemma_eat_first(s, "!"@);
    lemma_first(s);
    lemma_split(s, id, rest, in_digits());
}

/// The id of a monitor behind `n` negations is read as that many negations of
/// it, as long as they are not nested too deep, and is rejected for that
/// otherwise, whatever the depth is at which it stands.
pub proof fn law_negations_nest(n: nat, id: Seq<char>, depth: nat)
    requires
        id.len() > 0,
        forall|i: int| 0 <= i < id.len() ==> digit(#[trigger] id[i]),
    ensures
        depth + n <= MAX_DEPTH ==> negation(marks(n) + id, depth) == done(
            negated(n, CompositeExprView::Ref(id)),
            seq![],
        ),
        depth + n > MAX_DEPTH ==> negation(marks(n) + id, depth).result == Err::<
            CompositeExprView,
            Seq<char>,
        >(too_deep()),
    decreases n,
{
    let s = marks(n) + id;
    if depth <= MAX_DEPTH {
        if n == 0 {
            assert(s =~= id + Seq::<char>::empty());
            lemma_id(id, seq![], depth);
        } else {
            reveal_strlit("!");
            assert(s[0] == '!');
            lemma_eat_first(s, "!"@);
            assert(s.skip(1) =~= marks((n - 1) as nat) + id);
            law_negations_nest((n - 1) as nat, id, depth + 1);
        }
    }
}

// ----- precedence ---------------------------------------------------------------

/// `lhs op rhs`.
pub open spec fn arithmetic(
    op: ArithOp,
    lhs: MetricExprView,
    rhs: MetricExprView,
) -> MetricExprView {
    MetricExprView::Arith { op, lhs: Box::new(lhs), rhs: Box::new(rhs) }
}

proof fn lemma_last_operand(
    s: Seq<char>,
    least: u8,
    depth: nat,
    c: MetricExprView,
    rest: Seq<char>,
)
    requires
        depth <= MAX_DEPTH,
        term(s, depth) == done(c, rest),
        next_operator(rest) is None,
    ensures
        arith(s, least, depth) == done(c, rest),
        rest.len() <= s.len(),
{
    lemma_arith(s, least, depth);
}

/// After the operand `a`, the text `op1 b op2 c` reads as `a op1 (b op2 c)` where
/// the second operator is `*` or `/` and the first is `+` or `-`, and otherwise
/// as `(a op1 b) op2 c`: multiplication and division bind tighter than addition
/// and subtraction, and operators that bind equally associate to the left.
pub proof fn law_products_bind_tighter(
    a: MetricExprView,
    op1: ArithOp,
    b: MetricExprView,
    op2: ArithOp,
    c: MetricExprView,
    s: Seq<char>,
    behind_b: Seq<char>,
    behind_c: Seq<char>,
    depth: nat,
)
    requires
        depth + 2 <= MAX_DEPTH,
        next_operator(s) == Some(op1),
        next_is(s, op1.token()),
        term(eaten(s, op1.token()), depth + 1) == done(b, behind_b),
        next_operator(behind_b) == Some(op2),
        next_is(behind_b, op2.token()),
        term(eaten(behind_b, op2.token()), depth + 1) == done(c, behind_c),
        term(eaten(behind_b, op2.token()), depth + 2) == done(c, behind_c),
        next_operator(behind_c) is None,
    ensures
        operations(a, s, 0, depth) == done(
            if (op1 is Add || op1 is Sub) && (op2 is Mul || op2 is Div) {
                arithmetic(op1, a, arithmetic(op2, b, c))
            } else {
                arithmetic(op2, arithmetic(op1, a, b), c)
            },
            behind_c,
        ),
{
    lemma_token_length(op1);
    lemma_token_length(op2);
    let first = eaten(s, op1.token());
    let second = eaten(behind_b, op2.token());
    let least = power_of(op1).1;
    lemma_eaten(s, op1.token());
    lemma_eaten(behind_b, op2.token());
    lemma_term(first, depth + 1);
    lemma_last_operand(second, power_of(op2).1, depth + 1, c, behind_c);
    lemma_last_operand(second, power_of(op2).1, depth + 2, c, behind_c);
    assert(arith(first, least, depth + 1) == operations(b, behind_b, least, depth + 1));
    if (op1 is Add || op1 is Sub) && (op2 is Mul || op2 is Div) {
        let product = arithmetic(op2, b, c);
        assert(operations(product, behind_c, least, depth + 1) == done(product, behind_c));
        assert(operations(b, behind_b, least, depth + 1) == done(product, behind_c));
        let sum = arithmetic(op1, a, product);
        assert(operations(sum, behind_c, 0, depth) == done(sum, behind_c));
    } else {
        assert(operations(b, behind_b, least, depth + 1) == done(b, behind_b));
        let left = arithmetic(op1, a, b);
        let all = arithmetic(op2, left, c);
        assert(operations(all, behind_c, 0, depth) == done(all, behind_c));
        assert(operations(left, behind_b, 0, depth) == done(all, behind_c));
    }
}

proof fn lemma_token_length(op: ArithOp)
    ensures
        op.token().len() == 1,
{
    reveal_strlit("+");
    reveal_strlit("-");
    reveal_strlit("*");
    reveal_strlit("/");
}

/// `a && b || c` reads as `(a && b) || c`.
pub proof fn law_and_binds_tighter_on_the_left(
    a: CompositeExprView,
    b: CompositeExprView,
    c: CompositeExprView,
    s: Seq<char>,
    behind_a: Seq<char>,
    behind_b: Seq<char>,
    behind_c: Seq<char>,
    depth: nat,
)
    requires
        depth + 1 <= MAX_DEPTH,
        negation(s, depth) == done(a, behind_a),
        next_is(behind_a, "&&"@),
        negation(eaten(behind_a, "&&"@), depth + 1) == done(b, behind_b),
        !next_is(behind_b, "&&"@),
        next_is(behind_b, "||"@),
        conjunction(eaten(behind_b, "||"@), depth + 1) == done(c, behind_c),
        !next_is(behind_c, "||"@),
    ensures
        disjunction(s, depth) == done(
            boolean(BoolOp::Or, boolean(BoolOp::And, a, b), c),
            skipped(behind_c),
        ),
{
    reveal_strlit("&&");
    reveal_strlit("||");
    let both = boolean(BoolOp::And, a, b);
    let all = boolean(BoolOp::Or, both, c);
    lemma_eaten(behind_a, "&&"@);
    lemma_eaten(behind_b, "||"@);
    lemma_negation(eaten(behind_a, "&&"@), depth + 1);
    lemma_conjunction(eaten(behind_b, "||"@), depth + 1);
    lemma_skipped_once(behind_b);
    assert(skipped(behind_b).len() <= behind_b.len()) by {
        lemma_eaten(behind_b, "&&"@);
    }
    assert(conjuncts(both, behind_b, depth) == done(both, skipped(behind_b)));
    assert(conjuncts(a, behind_a, depth) == done(both, skipped(behind_b)));
    assert(conjunction(s, depth) == done(both, skipped(behind_b)));
    assert(disjuncts(all, behind_c, depth) == done(all, skipped(behind_c)));
    lemma_eaten(skipped(behind_b), "||"@);
    assert(disjuncts(both, skipped(behind_b), depth) == done(all, skipped(behind_c)));
}

/// `a && b && c` reads as `(a && b) && c`.
pub proof fn law_conjunctions_associate_to_the_left(
    a: CompositeExprView,
    b: CompositeExprView,
    c: CompositeExprView,
    s: Seq<char>,
    behind_a: Seq<char>,
    behind_b: Seq<char>,
    behind_c: Seq<char>,
    depth: nat,
)
    requires
        depth + 1 <= MAX_DEPTH,
        negation(s, depth) == done(a, behind_a),
        next_is(behind_a, "&&"@),
        negation(eaten(behind_a, "&&"@), depth + 1) == done(b, behind_b),
        next_is(behind_b, "&&"@),
        negation(eaten(behind_b, "&&"@), depth + 1) == done(c, behind_c),
        !next_is(behind_c, "&&"@),
    ensures
        conjunction(s, depth) == done(
            boolean(BoolOp::And, boolean(BoolOp::And, a, b), c),
            skipped(behind_c),
        ),
{
    reveal_strlit("&&");
    let both = boolean(BoolOp::And, a, b);
    let all = boolean(BoolOp::And, both, c);
    lemma_eaten(behind_a, "&&"@);
    lemma_eaten(behind_b, "&&"@);
    lemma_negation(eaten(behind_a, "&&"@), depth + 1);
    lemma_negation(eaten(behind_b, "&&"@), depth + 1);
    assert(conjuncts(all, behind_c, depth) == done(all, skipped(behind_c)));
    assert(conjuncts(both, behind_b, depth) == done(all, skipped(behind_c)));
    assert(conjuncts(a, behind_a, depth) == done(all, skipped(behind_c)));
}

/// `a || b || c` reads as `(a || b) || c`.
pub proof fn law_disjunctions_associate_to_the_left(
    a: CompositeExprView,
    b: CompositeExprView,
    c: CompositeExprView,
    s: Seq<char>,
    behind_a: Seq<char>,
    behind_b: Seq<char>,
    behind_c: Seq<char>,
    depth: nat,
)
    requires
        depth + 1 <= MAX_DEPTH,
        conjunction(s, depth) == done(a, behind_a),
        next_is(behind_a, "||"@),
        conjunction(eaten(behind_a, "||"@), depth + 1) == done(b, behind_b),
        next_is(behind_b, "||"@),
        conjunction(eaten(behind_b, "||"@), depth + 1) == done(c, behind_c),
        !next_is(behind_c, "||"@),
    ensures
        disjunction(s, depth) == done(
            boolean(BoolOp::Or, boolean(BoolOp::Or, a, b), c),
            skipped(behind_c),
        ),
{
    reveal_strlit("||");
    let both = boolean(BoolOp::Or, a, b);
    let all = boolean(BoolOp::Or, both, c);
    lemma_eaten(behind_a, "||"@);
    lemma_eaten(behind_b, "||"@);
    lemma_conjunction(eaten(behind_a, "||"@), depth + 1);
    lemma_conjunction(eaten(behind_b, "||"@), depth + 1);
    assert(disjuncts(all, behind_c, depth) == done(all, skipped(behind_c)));
    assert(disjuncts(both, behind_b, depth) == done(all, skipped(behind_c)));
    assert(disjuncts(a, behind_a, depth) == done(all, skipped(behind_c)));
}

/// `a || b && c` reads as `a || (b && c)`.
pub proof fn law_and_binds_tighter_on_the_right(
    a: CompositeExprView,
    b: CompositeExprView,
    c: CompositeExprView,
    s: Seq<char>,
    behind_a: Seq<char>,
    behind_b: Seq<char>,
    behind_c: Seq<char>,
    depth: nat,
)
    requires
        depth + 2 <= MAX_DEPTH,
        conjunction(s, depth) == done(a, behind_a),
        next_is(behind_a, "||"@),
        negation(eaten(behind_a, "||"@), depth + 1) == done(b, behind_b),
        next_is(behind_b, "&&"@),
        negation(eaten(behind_b, "&&"@), depth + 2) == done(c, behind_c),
        !next_is(behind_c, "&&"@),
        !next_is(behind_c, "||"@),
    ensures
        disjunction(s, depth) == done(
            boolean(BoolOp::Or, a, boolean(BoolOp::And, b, c)),
            skipped(behind_c),
        ),
{
    reveal_strlit("&&");
    reveal_strlit("||");
    let both = boolean(BoolOp::And, b, c);
    let all = boolean(BoolOp::Or, a, both);
    let first = eaten(behind_a, "||"@);
    lemma_eaten(behind_a, "||"@);
    lemma_eaten(behind_b, "&&"@);
    lemma_negation(first, depth + 1);
    lemma_negation(eaten(behind_b, "&&"@), depth + 2);
    lemma_conjunction(first, depth + 1);
    lemma_skipped_once(behind_c);
    assert(conjuncts(both, behind_c, depth + 1) == done(both, skipped(behind_c)));
    assert(conjuncts(b, behind_b, depth + 1) == done(both, skipped(behind_c)));
    assert(conjunction(first, depth + 1) == done(both, skipped(behind_c)));
    assert(disjuncts(all, skipped(behind_c), depth) == done(all, skipped(behind_c)));
    assert(disjuncts(a, behind_a, depth) == done(all, skipped(behind_c)));
}

} // verus!
