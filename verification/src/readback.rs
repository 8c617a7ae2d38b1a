//! Metric queries as they are written, and that they are read back.
//!
//! [`metric_source`] writes a metric query out in full, with every operation in
//! parentheses. What it writes is read as the query it was written from.

use vstd::prelude::*;
use crate::ast::{
    ArithOp, ChangeKind, CmpOp, Condition, FilterView, FuncKind, FuncParamView, MetricExprView,
    MetricQueryView, ModifierView, MonitorQueryView, ParamValueView, Scalar, SeriesView,
    SloQueryView, SpaceAgg, SpaceAggView, TimeAgg, WindowView,
};
use crate::binary64::{Binary64, INFINITE};
use crate::cursor::{
    done, eaten, expecting, has_digit, lemma_skipped_once, lemma_split, number_span, numbering,
    peeked, skipped, taken, untaken,
};
use crate::error::ParseErrorView;
use crate::grammar::{
    arith, attached, bareword, budget_window, call, change_head, change_metric, combination,
    combined, combines, comparison, condition, critical_at, dialect, dialect_of, filter, filters,
    fraction, function, group, group_by, identifier, in_digits, in_head, in_ident, metric,
    metric_body, metric_name, modifiers, named_term, next_operator, opens_number, opens_quote,
    operand, operands, operations, optional_scope, param, param_value, params, parsed, power_of,
    query, quoted_in_parens, scope, segments, series, series_term, slo, term, term_name, transform,
    values, whole, whole_rank, window, window_in_parens, Dialect, MAX_DEPTH,
};
use crate::laws::{
    filter_source, law_change_kind_tokens, law_func_kind_tokens, law_plain_tokens_are_globs,
    law_separators_are_equivalent, law_space_agg_is_read_back, law_tags_split_at_the_first_colon,
    law_time_agg_tokens, lemma_eat_first, lemma_first, lemma_trimmed_end, scope_text, scope_token,
    separators,
};
use crate::literal::number_of;
use crate::methods::{lemma_args, lemma_opened, lemma_quoted, opened, quoted, quoted_args};
use crate::rendering::{
    figures, law_numbers_are_read_back, lemma_decimal, magnitude_text, number_text, shortest,
    spelled, zeros,
};
use crate::text::{
    ascii_white, decimal, digit, ident_char, lemma_run, lemma_run_behind, lemma_run_is, run,
    trimmed, white,
};
use crate::window::window_of;
use crate::wording::law_dialects;

verus! {

// ----- numbers ------------------------------------------------------------------

/// A number that is neither infinite nor undefined.
pub open spec fn finite(x: Binary64) -> bool {
    x.magnitude() < INFINITE
}

/// Nothing follows, or something that no number goes on with.
spec fn after_number(rest: Seq<char>) -> bool {
    rest.len() > 0 ==> rest[0] == ' ' || rest[0] == ')' || rest[0] == ','
}

proof fn lemma_figures_span(s: Seq<char>, rest: Seq<char>, signable: bool, pointed: bool)
    requires
        figures(s),
    ensures
        s.len() > 0 ==> number_span(s + rest, signable, pointed) == s.len() + number_span(
            rest,
            false,
            pointed,
        ),
    decreases s.len(),
{
    let t = s + rest;
    if s.len() > 0 {
        assert(t[0] == s[0]);
        assert(t.skip(1) =~= s.skip(1) + rest);
        if s.len() == 1 {
            assert(t.skip(1) =~= rest);
        } else {
            assert forall|i: int| 0 <= i < s.len() - 1 implies digit(#[trigger] s.skip(1)[i]) by {
                assert(s.skip(1)[i] == s[i + 1]);
            }
            lemma_figures_span(s.skip(1), rest, false, pointed);
        }
    }
}

/// A decimal that is written out is made of digits, with at most one point.
proof fn lemma_spelled_span(c: nat, q: int, rest: Seq<char>, signable: bool)
    requires
        after_number(rest),
    ensures
        spelled(c, q).len() > 0,
        digit(spelled(c, q)[0]),
        number_span(spelled(c, q) + rest, signable, false) == spelled(c, q).len(),
{
    let d = decimal(c);
    let s = spelled(c, q);
    lemma_decimal(c);
    if q >= 0 {
        assert forall|k: int| 0 <= k < s.len() implies digit(#[trigger] s[k]) by {
            if k < d.len() {
                assert(s[k] == d[k]);
            }
        }
        lemma_figures_span(s, rest, signable, false);
    } else {
        let (a, b) = if d.len() > -q {
            (d.take(d.len() + q), d.skip(d.len() + q))
        } else {
            (seq!['0'], zeros((-q - d.len()) as nat) + d)
        };
        assert forall|k: int| 0 <= k < a.len() implies digit(#[trigger] a[k]) by {
            if d.len() > -q {
                assert(a[k] == d[k]);
            }
        }
        assert forall|k: int| 0 <= k < b.len() implies digit(#[trigger] b[k]) by {
            if d.len() > -q {
                assert(b[k] == d[k + d.len() + q]);
            } else {
                let z = (-q - d.len()) as nat;
                if k >= z {
                    assert(b[k] == d[k - z]);
                }
            }
        }
        assert(s =~= a + seq!['.'] + b);
        let tail = seq!['.'] + (b + rest);
        assert(s + rest =~= a + tail);
        lemma_figures_span(a, tail, signable, false);
        assert(tail.skip(1) =~= b + rest);
        lemma_figures_span(b, rest, false, true);
        assert(s[0] == a[0]);
    }
}

/// The text of a finite number is read as that number.
proof fn lemma_number(x: Binary64, rest: Seq<char>)
    requires
        finite(x),
        after_number(rest),
    ensures
        numbering(number_text(x) + rest) == done(x, rest),
        number_text(x).len() > 0,
        opens_number(number_text(x)[0]),
        !white(number_text(x)[0]),
        number_text(x)[0] == '-' || digit(number_text(x)[0]),
{
    let text = number_text(x);
    let body = magnitude_text(x.magnitude());
    let s = text + rest;
    law_numbers_are_read_back(x);
    if x.magnitude() == 0 {
        lemma_figures_span(body, rest, false, false);
        lemma_figures_span(body, rest, true, false);
    } else {
        let (c, q) = shortest(x.magnitude());
        lemma_spelled_span(c, q, rest, false);
        lemma_spelled_span(c, q, rest, true);
    }
    assert(number_span(rest, false, false) == 0);
    assert(digit(body[0]));
    if x.negative() {
        assert(text[0] == '-' && text[1] == body[0]);
        assert(s.skip(1) =~= body + rest);
        assert(digit(text[1]));
    } else {
        assert(digit(text[0]));
    }
    assert(s[0] == text[0]);
    lemma_first(s);
    assert(number_span(s, true, false) == text.len());
    assert(s.take(text.len() as int) =~= text);
    assert(s.skip(text.len() as int) =~= rest);
    assert(has_digit(text));
}

// ----- names --------------------------------------------------------------------

/// An identifier.
pub open spec fn name(s: Seq<char>) -> bool {
    s.len() > 0 && forall|i: int| 0 <= i < s.len() ==> ident_char(#[trigger] s[i])
}

/// An identifier that does not begin with a digit.
pub open spec fn word(s: Seq<char>) -> bool {
    name(s) && !digit(s[0])
}

proof fn lemma_name(s: Seq<char>, rest: Seq<char>)
    requires
        name(s),
        rest.len() > 0 ==> !ident_char(rest[0]),
    ensures
        identifier(s + rest) == done(s, rest),
        taken(s + rest, in_ident()) == s,
        untaken(s + rest, in_ident()) == rest,
        (s + rest)[0] == s[0],
        !white(s[0]),
        skipped(s + rest) == s + rest,
        peeked(s + rest) == Some(s[0]),
{
    let t = s + rest;
    assert(t[0] == s[0] && ident_char(s[0]));
    lemma_first(t);
    lemma_split(t, s, rest, in_ident());
}

// ----- parameters ---------------------------------------------------------------

/// A value that can be written: a number has to be finite.
pub open spec fn writable_value(v: ParamValueView) -> bool {
    v matches ParamValueView::Number(x) ==> finite(x)
}

/// A value as it is written.
pub open spec fn value_source(v: ParamValueView) -> Seq<char> {
    match v {
        ParamValueView::Bool(b) => if b {
            "true"@
        } else {
            "false"@
        },
        ParamValueView::Number(x) => number_text(x),
        ParamValueView::Str(s) => quoted(s),
    }
}

/// What follows a value or an operand in a list.
spec fn after_item(rest: Seq<char>) -> bool {
    rest.len() > 0 && (rest[0] == ')' || rest[0] == ',')
}

proof fn lemma_truth(b: bool)
    ensures
        word(value_source(ParamValueView::Bool(b))),
        bareword(value_source(ParamValueView::Bool(b))) == ParamValueView::Bool(b),
{
    reveal_strlit("true");
    reveal_strlit("false");
    assert("true"@.len() == 4 && "false"@.len() == 5);
}

proof fn lemma_value(v: ParamValueView, rest: Seq<char>)
    requires
        writable_value(v),
        after_item(rest),
    ensures
        param_value(value_source(v) + rest) == done(v, rest),
{
    match v {
        ParamValueView::Bool(b) => {
            lemma_truth(b);
            lemma_name(value_source(v), rest);
        },
        ParamValueView::Number(x) => {
            lemma_number(x, rest);
            let s = number_text(x) + rest;
            assert(s[0] == number_text(x)[0]);
            lemma_first(s);
        },
        ParamValueView::Str(s) => {
            lemma_quoted(s, rest);
            lemma_first(quoted(s) + rest);
        },
    }
}

/// A parameter that can be written: its keyword is a word.
pub open spec fn writable_param(p: FuncParamView) -> bool {
    writable_value(p.value) && (p.key matches Some(key) ==> word(key))
}

/// A parameter as it is written.
pub open spec fn param_source(p: FuncParamView) -> Seq<char> {
    match p.key {
        Some(key) => key + seq!['='] + value_source(p.value),
        None => value_source(p.value),
    }
}

proof fn lemma_param(p: FuncParamView, rest: Seq<char>)
    requires
        writable_param(p),
        after_item(rest),
    ensures
        param(param_source(p) + rest) == done(p, rest),
{
    let s = param_source(p) + rest;
    let v = value_source(p.value) + rest;
    reveal_strlit("=");
    lemma_value(p.value, rest);
    lemma_eat_first(rest, "="@);
    lemma_first(rest);
    match p.key {
        Some(key) => {
            let t = seq!['='] + v;
            assert(s =~= key + t);
            lemma_name(key, t);
            assert(t[0] == '=');
            lemma_eat_first(t, "="@);
            assert(t.skip(1) =~= v);
            assert(!opens_quote(key[0]) && !opens_number(key[0])) by {
                assert(ident_char(key[0]));
            }
        },
        None => match p.value {
            ParamValueView::Bool(b) => {
                lemma_truth(b);
                lemma_name(value_source(p.value), rest);
                assert(!opens_quote(s[0]) && !opens_number(s[0])) by {
                    assert(ident_char(value_source(p.value)[0]));
                }
            },
            ParamValueView::Number(x) => {
                lemma_number(x, rest);
                assert(s[0] == number_text(x)[0]);
                lemma_first(s);
            },
            ParamValueView::Str(text) => {
                lemma_quoted(text, rest);
                lemma_first(s);
            },
        },
    }
}

/// Parameters as they are written, each behind a comma.
pub open spec fn params_source(list: Seq<FuncParamView>) -> Seq<char>
    decreases list.len(),
{
    if list.len() == 0 {
        seq![]
    } else {
        seq![','] + param_source(list[0]) + params_source(list.skip(1))
    }
}

/// Values as they are written, each behind a comma.
pub open spec fn values_source(list: Seq<ParamValueView>) -> Seq<char>
    decreases list.len(),
{
    if list.len() == 0 {
        seq![]
    } else {
        seq![','] + value_source(list[0]) + values_source(list.skip(1))
    }
}

proof fn lemma_params(list: Seq<FuncParamView>, rest: Seq<char>)
    requires
        forall|i: int| 0 <= i < list.len() ==> writable_param(#[trigger] list[i]),
        rest.len() > 0,
        rest[0] == ')',
    ensures
        params(params_source(list) + rest) == done(list, rest),
        after_item(params_source(list) + rest),
    decreases list.len(),
{
    let s = params_source(list) + rest;
    reveal_strlit(",");
    if list.len() == 0 {
        assert(s =~= rest);
        lemma_eat_first(rest, ","@);
        lemma_first(rest);
        assert(list =~= seq![]);
    } else {
        let more = list.skip(1);
        let tail = params_source(more) + rest;
        let t = param_source(list[0]) + tail;
        assert(s =~= seq![','] + t);
        assert(s[0] == ',');
        lemma_eat_first(s, ","@);
        assert(s.skip(1) =~= t);
        lemma_params(more, rest);
        lemma_param(list[0], tail);
        assert(seq![list[0]] + more =~= list);
    }
}

proof fn lemma_values(list: Seq<ParamValueView>, rest: Seq<char>)
    requires
        forall|i: int| 0 <= i < list.len() ==> writable_value(#[trigger] list[i]),
        rest.len() > 0,
        rest[0] == ')',
    ensures
        values(values_source(list) + rest) == done(list, rest),
        after_item(values_source(list) + rest),
    decreases list.len(),
{
    let s = values_source(list) + rest;
    reveal_strlit(",");
    if list.len() == 0 {
        assert(s =~= rest);
        lemma_eat_first(rest, ","@);
        lemma_first(rest);
        assert(list =~= seq![]);
    } else {
        let more = list.skip(1);
        let tail = values_source(more) + rest;
        let t = value_source(list[0]) + tail;
        assert(s =~= seq![','] + t);
        assert(s[0] == ',');
        lemma_eat_first(s, ","@);
        assert(s.skip(1) =~= t);
        lemma_values(more, rest);
        lemma_value(list[0], tail);
        assert(seq![list[0]] + more =~= list);
    }
}

// ----- series -------------------------------------------------------------------

/// A rank as a query may hold it: digits, with a point and digits behind them or
/// not, and between 0 and 100.
pub open spec fn writable_rank(rank: Seq<char>) -> bool {
    let n = run(rank, in_digits()) as int;
    &&& n > 0
    &&& n < rank.len() ==> rank[n] == '.' && n + 1 < rank.len() && forall|i: int|
        n < i < rank.len() ==> digit(#[trigger] rank[i])
    &&& number_of(rank) matches Some(x) && x.is_percentage()
}

/// A space aggregation that a query may hold.
pub open spec fn writable_agg(a: SpaceAggView) -> bool {
    a matches SpaceAggView::Percentile(rank) ==> writable_rank(rank)
}

proof fn lemma_named_agg(a: SpaceAggView)
    requires
        !(a is Percentile),
    ensures
        word(a.token()),
        !whole_rank(a.token()),
{
    reveal_strlit("avg");
    reveal_strlit("sum");
    reveal_strlit("min");
    reveal_strlit("max");
    reveal_strlit("count");
}

proof fn lemma_agg(a: SpaceAggView, rest: Seq<char>)
    requires
        writable_agg(a),
        rest.len() > 0,
        rest[0] == ':',
    ensures
        term_name(a.token() + rest) == done(a.token(), rest),
        SpaceAgg::of_token(a.token()) == Some(a),
        a.token().len() > 0,
        word(seq![a.token()[0]]),
{
    law_space_agg_is_read_back(a);
    let s = a.token() + rest;
    match a {
        SpaceAggView::Percentile(rank) => {
            let n = run(rank, in_digits()) as int;
            lemma_run(rank, in_digits());
            let whole = seq!['p'] + rank.take(n);
            let tail = rank.skip(n) + rest;
            assert(s =~= whole + tail);
            assert forall|i: int| 0 <= i < whole.len() implies ident_char(#[trigger] whole[i]) by {
                if i > 0 {
                    assert(whole[i] == rank[i - 1]);
                    assert(in_digits()(rank[i - 1]));
                }
            }
            assert forall|i: int| 1 <= i < whole.len() implies digit(#[trigger] whole[i]) by {
                assert(whole[i] == rank[i - 1]);
                assert(in_digits()(rank[i - 1]));
            }
            if n < rank.len() {
                assert(tail[0] == '.');
                let digits = rank.skip(n + 1);
                assert forall|i: int| 0 <= i < digits.len() implies in_digits()(
                    #[trigger] digits[i],
                ) by {
                    assert(digits[i] == rank[n + 1 + i]);
                }
                assert(tail.skip(1) =~= digits + rest);
                lemma_split(digits + rest, digits, rest, in_digits());
                let k = digits.len() as int;
                assert(tail.skip(1 + k) =~= rest);
                lemma_first(rest);
                assert(fraction(tail) == 1 + k);
                assert(tail.take(1 + k) =~= rank.skip(n));
                assert(whole + rank.skip(n) =~= a.token());
            } else {
                assert(tail =~= rest);
                assert(tail.take(0) =~= Seq::<char>::empty());
                assert(tail.skip(0) =~= tail);
                assert(whole + Seq::<char>::empty() =~= a.token());
            }
            lemma_name(whole, tail);
        },
        _ => {
            lemma_named_agg(a);
            lemma_name(a.token(), rest);
            assert(ident_char(a.token()[0]));
        },
    }
}

/// A metric name: identifiers with points between them.
pub open spec fn dotted(s: Seq<char>) -> bool {
    &&& s.len() > 0
    &&& ident_char(s[0])
    &&& ident_char(s[s.len() - 1])
    &&& forall|i: int|
        0 <= i < s.len() ==> ident_char(#[trigger] s[i]) || (s[i] == '.' && ident_char(s[i + 1]))
}

/// What a metric name does not go on with.
spec fn after_name(rest: Seq<char>) -> bool {
    &&& rest.len() > 0
    &&& !ident_char(rest[0])
    &&& rest[0] != '('
    &&& segments(rest) == (Seq::<char>::empty(), rest)
}

proof fn lemma_segments(t: Seq<char>, rest: Seq<char>)
    requires
        t.len() > 0 ==> t[0] == '.' && ident_char(t[t.len() - 1]),
        forall|i: int|
            0 <= i < t.len() ==> ident_char(#[trigger] t[i]) || (t[i] == '.' && ident_char(
                t[i + 1],
            )),
        after_name(rest),
    ensures
        segments(t + rest) == (t, rest),
    decreases t.len(),
{
    let s = t + rest;
    if t.len() == 0 {
        assert(s =~= rest);
        assert(t =~= seq![]);
    } else {
        let u = t.skip(1);
        let n = run(u, in_ident()) as int;
        lemma_run(u, in_ident());
        assert(u[0] == t[1] && in_ident()(u[0]));
        let first = u.take(n);
        let more = u.skip(n);
        assert(s[0] == '.');
        assert(s.skip(1) =~= first + (more + rest));
        assert forall|i: int| 0 <= i < first.len() implies ident_char(#[trigger] first[i]) by {
            assert(in_ident()(u[i]));
        }
        if more.len() > 0 {
            assert(more[0] == u[n] && u[n] == t[n + 1]);
            assert(!in_ident()(u[n]));
            assert(more[more.len() - 1] == t[t.len() - 1]);
            assert((more + rest)[0] == '.');
        } else {
            assert(more + rest =~= rest);
        }
        if n == 0 {
            assert(!in_ident()(u[0]));
        }
        assert forall|i: int| 0 <= i < more.len() implies ident_char(#[trigger] more[i]) || (more[i]
            == '.' && ident_char(more[i + 1])) by {
            assert(more[i] == t[i + n + 1]);
            if i + 1 < more.len() {
                assert(more[i + 1] == t[i + n + 2]);
            }
        }
        lemma_name(first, more + rest);
        lemma_segments(more, rest);
        assert(seq!['.'] + first + more =~= t);
    }
}

proof fn lemma_metric_name(s: Seq<char>, rest: Seq<char>)
    requires
        dotted(s),
        after_name(rest),
    ensures
        metric_name(s + rest) == done(s, rest),
{
    let n = run(s, in_ident()) as int;
    lemma_run(s, in_ident());
    let (first, more) = (s.take(n), s.skip(n));
    assert(in_ident()(s[0]));
    if n == 0 {
        assert(!in_ident()(s[0]));
    }
    assert(s + rest =~= first + (more + rest));
    assert forall|i: int| 0 <= i < first.len() implies ident_char(#[trigger] first[i]) by {
        assert(in_ident()(s[i]));
    }
    if more.len() > 0 {
        assert(more[0] == s[n]);
        assert(!in_ident()(s[n]));
        assert(more[more.len() - 1] == s[s.len() - 1]);
        assert((more + rest)[0] == '.');
    } else {
        assert(more + rest =~= rest);
    }
    assert forall|i: int| 0 <= i < more.len() implies ident_char(#[trigger] more[i]) || (more[i]
        == '.' && ident_char(more[i + 1])) by {
        assert(more[i] == s[i + n]);
        if i + 1 < more.len() {
            assert(more[i + 1] == s[i + n + 1]);
        }
    }
    lemma_name(first, more + rest);
    lemma_segments(more, rest);
    assert(first + more =~= s);
}

/// A filter that a query may hold: its token is one, and says what it is.
pub open spec fn writable_filter(f: FilterView) -> bool {
    scope_token(filter_source(f)) && match f {
        FilterView::All => true,
        FilterView::Glob(glob) => glob != "*"@ && forall|i: int|
            0 <= i < glob.len() ==> #[trigger] glob[i] != ':',
        FilterView::Tag { negated, key, value } => {
            &&& forall|i: int| 0 <= i < key.len() ==> #[trigger] key[i] != ':'
            &&& !negated && key.len() > 0 ==> key[0] != '!'
        },
    }
}

/// The tokens of a list of filters.
pub open spec fn filter_tokens(list: Seq<FilterView>) -> Seq<Seq<char>> {
    list.map_values(|f: FilterView| filter_source(f))
}

proof fn lemma_filter(f: FilterView)
    requires
        writable_filter(f),
    ensures
        filter(filter_source(f)) == f,
{
    match f {
        FilterView::All => {},
        FilterView::Glob(glob) => {
            assert(!glob.contains(':'));
            law_plain_tokens_are_globs(glob);
        },
        FilterView::Tag { negated, key, value } => {
            law_tags_split_at_the_first_colon(key, value);
            if negated {
                assert(filter_source(f) =~= seq!['!'] + key + seq![':'] + value);
            } else {
                assert(filter_source(f) =~= key + seq![':'] + value);
            }
        },
    }
}

/// Commas between `n` tokens.
pub open spec fn commas(n: nat) -> Seq<Seq<char>> {
    Seq::new(
        n + 1,
        |i: int|
            if 0 < i < n {
                seq![',']
            } else {
                Seq::empty()
            },
    )
}

/// Tokens in braces, with commas between them.
pub open spec fn braced(tokens: Seq<Seq<char>>) -> Seq<char> {
    seq!['{'] + scope_text(tokens, commas(tokens.len())) + seq!['}']
}

proof fn lemma_braced(tokens: Seq<Seq<char>>, rest: Seq<char>)
    requires
        forall|i: int| 0 <= i < tokens.len() ==> scope_token(#[trigger] tokens[i]),
    ensures
        scope(braced(tokens) + rest) == done(tokens, rest),
        (braced(tokens) + rest)[0] == '{',
        skipped(braced(tokens) + rest) == braced(tokens) + rest,
        peeked(braced(tokens) + rest) == Some('{'),
{
    let s = braced(tokens) + rest;
    let gaps = commas(tokens.len());
    assert forall|i: int| 0 <= i < gaps.len() implies separators(#[trigger] gaps[i]) by {}
    law_separators_are_equivalent(tokens, gaps, rest);
    assert(s =~= seq!['{'] + scope_text(tokens, gaps) + seq!['}'] + rest);
    assert(s[0] == '{');
    lemma_first(s);
}

/// Grouping tags as they are written, nothing for none.
pub open spec fn grouping_source(tags: Seq<Seq<char>>) -> Seq<char> {
    if tags.len() == 0 {
        seq![]
    } else {
        seq![' ', 'b', 'y', ' '] + braced(tags)
    }
}

/// Modifiers as they are written.
pub open spec fn modifiers_source(list: Seq<ModifierView>) -> Seq<char>
    decreases list.len(),
{
    if list.len() == 0 {
        seq![]
    } else {
        opened(list[0].name) + quoted_args(list[0].args) + modifiers_source(list.skip(1))
    }
}

/// What follows an operand: a bracket, a comma, or a space and an operator.
pub open spec fn after_operand(rest: Seq<char>) -> bool {
    ||| rest.len() > 0 && (rest[0] == ')' || rest[0] == ',')
    ||| rest.len() > 1 && rest[0] == ' ' && operator_sign(rest[1])
}

/// A character that an operator begins with.
pub open spec fn operator_sign(c: char) -> bool {
    ||| c == '+' || c == '-' || c == '*' || c == '/'
    ||| c == '>' || c == '<' || c == '=' || c == '!'
}

/// What is seen behind an operand.
proof fn lemma_after_operand(rest: Seq<char>)
    requires
        after_operand(rest),
    ensures
        ({
            let c = if rest[0] == ' ' {
                rest[1]
            } else {
                rest[0]
            };
            &&& skipped(rest).len() > 0
            &&& skipped(rest)[0] == c
            &&& peeked(rest) == Some(c)
            &&& peeked(skipped(rest)) == Some(c)
        }),
        skipped(skipped(rest)) == skipped(rest),
        rest[0] != ' ' ==> skipped(rest) == rest,
        rest[0] == ' ' ==> skipped(rest) == rest.skip(1),
        skipped(rest).len() <= rest.len(),
{
    lemma_skipped_once(rest);
    if rest[0] == ' ' {
        let t = rest.skip(1);
        assert(rest =~= seq![' '] + t);
        assert(t[0] == rest[1]);
        lemma_split(rest, seq![' '], t, |c: char| ascii_white(c));
        lemma_split(rest, seq![' '], t, |c: char| white(c));
        lemma_first(t);
    } else {
        lemma_first(rest);
    }
}

proof fn lemma_modifiers(list: Seq<ModifierView>, rest: Seq<char>)
    requires
        forall|i: int| 0 <= i < list.len() ==> name((#[trigger] list[i]).name),
        after_operand(rest),
    ensures
        modifiers(modifiers_source(list) + rest) == done(list, skipped(rest)),
        list.len() > 0 ==> (modifiers_source(list) + rest)[0] == '.',
    decreases list.len(),
{
    let s = modifiers_source(list) + rest;
    if list.len() == 0 {
        assert(s =~= rest);
        lemma_after_operand(rest);
        assert(list =~= seq![]);
    } else {
        let (first, more) = (list[0], list.skip(1));
        let tail = modifiers_source(more) + rest;
        let args = quoted_args(first.args) + tail;
        assert(s =~= opened(first.name) + args);
        assert(s[0] == '.');
        lemma_first(s);
        lemma_opened(first.name, args);
        reveal_strlit(".");
        lemma_eat_first(s, "."@);
        lemma_args(first.args, tail);
        lemma_modifiers(more, rest);
        assert(seq![first] + more =~= list);
    }
}

/// A series that a query may hold.
pub open spec fn writable_series(s: SeriesView) -> bool {
    &&& writable_agg(s.space_aggregation)
    &&& dotted(s.metric)
    &&& forall|i: int| 0 <= i < s.filter.len() ==> writable_filter(#[trigger] s.filter[i])
    &&& forall|i: int| 0 <= i < s.group_by.len() ==> scope_token(#[trigger] s.group_by[i])
    &&& forall|i: int| 0 <= i < s.modifiers.len() ==> name((#[trigger] s.modifiers[i]).name)
}

/// A series as it is written.
pub open spec fn series_source(s: SeriesView) -> Seq<char> {
    s.space_aggregation.token() + seq![':'] + s.metric + braced(filter_tokens(s.filter))
        + grouping_source(s.group_by) + modifiers_source(s.modifiers)
}

proof fn lemma_grouping(tags: Seq<Seq<char>>, list: Seq<ModifierView>, rest: Seq<char>)
    requires
        forall|i: int| 0 <= i < tags.len() ==> scope_token(#[trigger] tags[i]),
        forall|i: int| 0 <= i < list.len() ==> name((#[trigger] list[i]).name),
        after_operand(rest),
    ensures
        ({
            let g = group_by(grouping_source(tags) + (modifiers_source(list) + rest));
            g.result == Ok::<Seq<Seq<char>>, Seq<char>>(tags) && modifiers(g.rest) == done(
                list,
                skipped(rest),
            )
        }),
{
    let tail = modifiers_source(list) + rest;
    lemma_modifiers(list, rest);
    if tags.len() == 0 {
        assert(grouping_source(tags) + tail =~= tail);
        assert(tags =~= seq![]);
        lemma_no_grouping(list, rest);
    } else {
        lemma_some_grouping(tags, tail);
    }
}

/// Modifiers and what follows an operand begin no grouping.
proof fn lemma_no_grouping(list: Seq<ModifierView>, rest: Seq<char>)
    requires
        forall|i: int| 0 <= i < list.len() ==> name((#[trigger] list[i]).name),
        after_operand(rest),
    ensures
        ({
            let tail = modifiers_source(list) + rest;
            &&& group_by(tail) == done(Seq::<Seq<char>>::empty(), skipped(tail))
            &&& modifiers(skipped(tail)) == modifiers(tail)
        }),
{
    let tail = modifiers_source(list) + rest;
    lemma_modifiers(list, rest);
    lemma_after_operand(rest);
    reveal_strlit("by");
    if list.len() > 0 {
        lemma_first(tail);
    } else {
        assert(tail =~= rest);
    }
    let t = skipped(tail);
    assert(t[0] != 'b');
    assert(t.len() >= 2 ==> t.take(2)[0] == t[0]);
    lemma_skipped_once(tail);
}

proof fn lemma_some_grouping(tags: Seq<Seq<char>>, tail: Seq<char>)
    requires
        tags.len() > 0,
        forall|i: int| 0 <= i < tags.len() ==> scope_token(#[trigger] tags[i]),
    ensures
        group_by(grouping_source(tags) + tail) == done(tags, tail),
{
    let s = grouping_source(tags) + tail;
    let b = braced(tags) + tail;
    let t = seq!['b', 'y', ' '] + b;
    reveal_strlit("by");
    assert(s =~= seq![' '] + t);
    assert(t[0] == 'b');
    lemma_split(s, seq![' '], t, |c: char| ascii_white(c));
    assert(t.take(2) =~= "by"@);
    assert(t[2] == ' ');
    let u = t.skip(2);
    assert(u =~= seq![' '] + b);
    lemma_braced(tags, tail);
    lemma_split(u, seq![' '], b, |c: char| ascii_white(c));
    assert(scope(u) == scope(b));
}

/// A series behind its aggregation, as it is written.
spec fn series_tail(v: SeriesView, rest: Seq<char>) -> Seq<char> {
    v.metric + (braced(filter_tokens(v.filter)) + (grouping_source(v.group_by) + (modifiers_source(
        v.modifiers,
    ) + rest)))
}

proof fn lemma_filters(list: Seq<FilterView>)
    requires
        forall|i: int| 0 <= i < list.len() ==> writable_filter(#[trigger] list[i]),
    ensures
        filters(filter_tokens(list)) == list,
        forall|i: int|
            0 <= i < filter_tokens(list).len() ==> scope_token(#[trigger] filter_tokens(list)[i]),
{
    let tokens = filter_tokens(list);
    assert forall|i: int| 0 <= i < tokens.len() implies scope_token(#[trigger] tokens[i]) by {
        assert(writable_filter(list[i]));
    }
    assert forall|i: int| 0 <= i < list.len() implies filters(tokens)[i] == #[trigger] list[i] by {
        lemma_filter(list[i]);
    }
    assert(filters(tokens) =~= list);
}

proof fn lemma_series_tail(v: SeriesView, rest: Seq<char>)
    requires
        writable_series(v),
        after_operand(rest),
    ensures
        series(v.space_aggregation, series_tail(v, rest)) == done(v, skipped(rest)),
{
    let tokens = filter_tokens(v.filter);
    let tail = grouping_source(v.group_by) + (modifiers_source(v.modifiers) + rest);
    let scoped = braced(tokens) + tail;
    lemma_filters(v.filter);
    lemma_braced(tokens, tail);
    assert(scoped[0] == '{');
    lemma_metric_name(v.metric, scoped);
    lemma_grouping(v.group_by, v.modifiers, rest);
    assert(optional_scope(scoped) == done(tokens, tail));
}

proof fn lemma_series(v: SeriesView, rest: Seq<char>, depth: nat)
    requires
        writable_series(v),
        after_operand(rest),
        depth <= MAX_DEPTH,
    ensures
        term(series_source(v) + rest, depth) == done(MetricExprView::Series(v), skipped(rest)),
        word(seq![(series_source(v) + rest)[0]]),
{
    let token = v.space_aggregation.token();
    let named = series_tail(v, rest);
    let marked = seq![':'] + named;
    let s = series_source(v) + rest;
    assert(s =~= token + marked);
    assert(marked[0] == ':');
    lemma_agg(v.space_aggregation, marked);
    lemma_series_tail(v, rest);
    lemma_series_term(v, token, s, marked, named, rest, depth);
}

proof fn lemma_series_term(
    v: SeriesView,
    token: Seq<char>,
    s: Seq<char>,
    marked: Seq<char>,
    named: Seq<char>,
    rest: Seq<char>,
    depth: nat,
)
    requires
        depth <= MAX_DEPTH,
        token.len() > 0,
        word(seq![token[0]]),
        s == token + marked,
        marked == seq![':'] + named,
        term_name(s) == done(token, marked),
        SpaceAgg::of_token(token) == Some(v.space_aggregation),
        series(v.space_aggregation, named) == done(v, skipped(rest)),
    ensures
        term(s, depth) == done(MetricExprView::Series(v), skipped(rest)),
        s[0] == token[0],
{
    assert(s[0] == token[0]);
    assert(seq![token[0]][0] == token[0] && ident_char(seq![token[0]][0]));
    lemma_first(s);
    reveal_strlit(":");
    assert(marked[0] == ':');
    lemma_first(marked);
    lemma_eat_first(marked, ":"@);
    assert(marked.skip(1) =~= named);
    assert(series_term(token, marked) == done(MetricExprView::Series(v), skipped(rest)));
    assert(named_term(token, marked, depth) == series_term(token, marked));
    assert(operand(s, depth) == named_term(token, marked, depth));
}

/// Grouping tags may follow `by` at once, or behind white space.
pub proof fn law_groupings_are_read(tags: Seq<Seq<char>>, gap: Seq<char>, rest: Seq<char>)
    requires
        forall|i: int| 0 <= i < tags.len() ==> scope_token(#[trigger] tags[i]),
        forall|i: int| 0 <= i < gap.len() ==> ascii_white(#[trigger] gap[i]),
    ensures
        group_by("by"@ + gap + braced(tags) + rest) == done(tags, rest),
{
    let b = braced(tags) + rest;
    let u = gap + b;
    let t = "by"@ + gap + braced(tags) + rest;
    reveal_strlit("by");
    assert(t[0] == 'b');
    lemma_first(t);
    assert(t.take(2) =~= "by"@);
    assert(t.skip(2) =~= u);
    lemma_braced(tags, rest);
    assert(t[2] == u[0]);
    if gap.len() > 0 {
        assert(u[0] == gap[0]);
    } else {
        assert(u =~= b);
    }
    lemma_run_behind(gap, b, |c: char| ascii_white(c));
    assert(skipped(u) == skipped(b));
    assert(scope(u) == scope(b));
}

/// A series without a scope, as it is written without braces.
pub open spec fn unscoped_source(s: SeriesView) -> Seq<char> {
    s.space_aggregation.token() + seq![':'] + s.metric + grouping_source(s.group_by)
        + modifiers_source(s.modifiers)
}

/// A series without braces has no filters, and is read as far as one with them: a
/// segment of its name before a parenthesis is a modifier.
pub proof fn law_braces_may_be_left_out(v: SeriesView, rest: Seq<char>, depth: nat)
    requires
        writable_series(v),
        v.filter.len() == 0,
        after_operand(rest),
        depth <= MAX_DEPTH,
    ensures
        term(unscoped_source(v) + rest, depth) == done(MetricExprView::Series(v), skipped(rest)),
        term(series_source(v) + rest, depth) == done(MetricExprView::Series(v), skipped(rest)),
{
    let token = v.space_aggregation.token();
    let mods = modifiers_source(v.modifiers) + rest;
    let tail = grouping_source(v.group_by) + mods;
    let named = v.metric + tail;
    let marked = seq![':'] + named;
    let s = unscoped_source(v) + rest;
    lemma_series(v, rest, depth);
    assert(s =~= token + marked);
    assert(marked[0] == ':');
    lemma_agg(v.space_aggregation, marked);
    lemma_unscoped_tail(v, rest);
    lemma_series_term(v, token, s, marked, named, rest, depth);
}

proof fn lemma_unscoped_tail(v: SeriesView, rest: Seq<char>)
    requires
        writable_series(v),
        v.filter.len() == 0,
        after_operand(rest),
    ensures
        series(
            v.space_aggregation,
            v.metric + (grouping_source(v.group_by) + (modifiers_source(v.modifiers) + rest)),
        ) == done(v, skipped(rest)),
{
    let mods = modifiers_source(v.modifiers) + rest;
    let tail = grouping_source(v.group_by) + mods;
    lemma_modifiers(v.modifiers, rest);
    lemma_after_operand(rest);
    if v.group_by.len() > 0 {
        let t = seq!['b', 'y', ' '] + (braced(v.group_by) + mods);
        assert(tail =~= seq![' '] + t);
        assert(tail[0] == ' ' && t[0] == 'b');
        lemma_split(tail, seq![' '], t, |c: char| white(c));
        assert(peeked(tail) == Some('b'));
    } else {
        assert(tail =~= mods);
        if v.modifiers.len() > 0 {
            lemma_first_modifier(v.modifiers, rest);
        } else {
            assert(mods =~= rest);
        }
    }
    assert(peeked(tail) != Some('{'));
    lemma_metric_name(v.metric, tail);
    lemma_grouping(v.group_by, v.modifiers, rest);
    assert(filters(Seq::<Seq<char>>::empty()) =~= v.filter);
}

/// The name of a modifier is no segment of a metric name.
proof fn lemma_first_modifier(list: Seq<ModifierView>, rest: Seq<char>)
    requires
        list.len() > 0,
        name(list[0].name),
    ensures
        after_name(modifiers_source(list) + rest),
        peeked(modifiers_source(list) + rest) == Some('.'),
{
    let s = modifiers_source(list) + rest;
    let first = list[0];
    let t = seq!['('] + (quoted_args(first.args) + (modifiers_source(list.skip(1)) + rest));
    assert(s[0] == '.');
    assert(s.skip(1) =~= first.name + t);
    assert(t[0] == '(');
    lemma_name(first.name, t);
    lemma_first(s);
}

// ----- expressions --------------------------------------------------------------

/// An expression as it is written: operations in parentheses, calls by their names.
pub open spec fn expr_source(e: MetricExprView) -> Seq<char>
    decreases e,
{
    match e {
        MetricExprView::Series(v) => series_source(v),
        MetricExprView::Function { name, arg, params } => name.token() + seq!['('] + expr_source(
            *arg,
        ) + params_source(params) + seq![')'],
        MetricExprView::Transform { name, arg, args } => name + seq!['('] + expr_source(*arg)
            + values_source(args) + seq![')'],
        MetricExprView::Combine { name, args } => name + seq!['('] + operands_source(args)
            + seq![')'],
        MetricExprView::Arith { op, lhs, rhs } => seq!['('] + expr_source(*lhs) + seq![' ']
            + op.token() + seq![' '] + expr_source(*rhs) + seq![')'],
        MetricExprView::Scalar(x) => number_text(x.value),
        MetricExprView::Change { .. } => seq![],
    }
}

/// Operands as they are written, with commas between them.
pub open spec fn operands_source(list: Seq<MetricExprView>) -> Seq<char>
    decreases list,
{
    if list.len() == 0 {
        seq![]
    } else if list.len() == 1 {
        expr_source(list[0])
    } else {
        expr_source(list[0]) + seq![','] + operands_source(list.skip(1))
    }
}

/// An expression that a query may hold: names, filters and numbers are ones, a
/// combination is of two expressions or more that are not all numbers behind the
/// first, and a change stands nowhere within.
pub open spec fn writable(e: MetricExprView) -> bool
    decreases e,
{
    match e {
        MetricExprView::Series(v) => writable_series(v),
        MetricExprView::Function { name, arg, params } => writable(*arg) && forall|i: int|
            0 <= i < params.len() ==> writable_param(#[trigger] params[i]),
        MetricExprView::Transform { name, arg, args } => {
            &&& word(name)
            &&& FuncKind::of_token(name) is None
            &&& writable(*arg)
            &&& forall|i: int| 0 <= i < args.len() ==> writable_value(#[trigger] args[i])
            &&& combines(name) ==> forall|i: int|
                0 <= i < args.len() ==> (#[trigger] args[i]) is Number
        },
        MetricExprView::Combine { name, args } => {
            &&& combines(name)
            &&& exists|i: int| 1 <= i < args.len() && !((#[trigger] args[i]) is Scalar)
            &&& all_writable(args)
        },
        MetricExprView::Arith { op, lhs, rhs } => writable(*lhs) && writable(*rhs),
        MetricExprView::Scalar(x) => finite(x.value),
        MetricExprView::Change { .. } => false,
    }
}

/// Expressions that a query may hold.
pub open spec fn all_writable(list: Seq<MetricExprView>) -> bool
    decreases list,
{
    list.len() > 0 ==> writable(list[0]) && all_writable(list.skip(1))
}

/// How deep an expression is nested when it is read.
pub open spec fn levels(e: MetricExprView) -> nat
    decreases e,
{
    match e {
        MetricExprView::Function { name, arg, params } => 1 + levels(*arg),
        MetricExprView::Transform { name, arg, args } => 1 + levels(*arg),
        MetricExprView::Combine { name, args } => 1 + most_levels(args),
        MetricExprView::Arith { op, lhs, rhs } => if levels(*lhs) > levels(*rhs) {
            1 + levels(*lhs)
        } else {
            2 + levels(*rhs)
        },
        _ => 0,
    }
}

/// How deep the deepest of a list of expressions is nested.
pub open spec fn most_levels(list: Seq<MetricExprView>) -> nat
    decreases list,
{
    if list.len() == 0 {
        0
    } else if levels(list[0]) > most_levels(list.skip(1)) {
        levels(list[0])
    } else {
        most_levels(list.skip(1))
    }
}

/// An operand is read as `e`, up to `rest`, or to what is behind its white space.
#[verifier::opaque]
spec fn reads(e: MetricExprView, s: Seq<char>, depth: nat, rest: Seq<char>) -> bool {
    &&& s.len() > 0
    &&& !white(s[0])
    &&& term(s, depth) == done(e, rest) || term(s, depth) == done(e, skipped(rest))
}

proof fn lemma_scalar(x: Binary64, rest: Seq<char>, depth: nat)
    requires
        finite(x),
        after_operand(rest),
        depth <= MAX_DEPTH,
    ensures
        reads(MetricExprView::Scalar(Scalar { value: x }), number_text(x) + rest, depth, rest),
{
    reveal(reads);
    let s = number_text(x) + rest;
    lemma_number(x, rest);
    assert(s[0] == number_text(x)[0]);
    lemma_first(s);
}

/// An operand in a list is an expression.
proof fn lemma_item(e: MetricExprView, s: Seq<char>, depth: nat, rest: Seq<char>)
    requires
        reads(e, s, depth, rest),
        after_item(rest),
        depth <= MAX_DEPTH,
    ensures
        arith(s, 0, depth) == done(e, rest),
{
    reveal(reads);
    lemma_after_operand(rest);
    assert(operations(e, rest, 0, depth) == done(e, rest));
}

/// The name of a call is read up to its parenthesis.
proof fn lemma_called(called: Seq<char>, s: Seq<char>, t: Seq<char>, depth: nat)
    requires
        word(called),
        s == called + t,
        t.len() > 0,
        t[0] == '(',
        depth <= MAX_DEPTH,
    ensures
        term(s, depth) == call(called, t, depth),
        s.len() > 0,
        !white(s[0]),
{
    lemma_name(called, t);
    lemma_first(t);
    assert(ident_char(called[0]));
    assert(t.take(0) =~= Seq::<char>::empty());
    assert(t.skip(0) =~= t);
    assert(called + Seq::<char>::empty() =~= called);
    assert(term_name(s) == done(called, t));
    assert(named_term(called, t, depth) == call(called, t, depth));
    assert(operand(s, depth) == named_term(called, t, depth));
}

proof fn lemma_opening(t: Seq<char>)
    ensures
        expecting(seq!['('] + t, "("@) == done((), t),
{
    let s = seq!['('] + t;
    reveal_strlit("(");
    assert(s[0] == '(');
    lemma_eat_first(s, "("@);
    assert(s.skip(1) =~= t);
}

proof fn lemma_closing(rest: Seq<char>)
    ensures
        expecting(seq![')'] + rest, ")"@) == done((), rest),
        after_item(seq![')'] + rest),
        after_operand(seq![')'] + rest),
        skipped(seq![')'] + rest) == seq![')'] + rest,
{
    let s = seq![')'] + rest;
    reveal_strlit(")");
    assert(s[0] == ')');
    lemma_first(s);
    lemma_eat_first(s, ")"@);
    assert(s.skip(1) =~= rest);
}

proof fn lemma_function_name(kind: FuncKind)
    ensures
        word(kind.token()),
        FuncKind::of_token(kind.token()) == Some(kind),
{
    reveal_strlit("anomalies");
    reveal_strlit("outliers");
    reveal_strlit("forecast");
    law_func_kind_tokens(kind, kind.token());
}

proof fn lemma_function_read(
    kind: FuncKind,
    arg: MetricExprView,
    inner: Seq<char>,
    list: Seq<FuncParamView>,
    rest: Seq<char>,
    depth: nat,
)
    requires
        depth + 1 <= MAX_DEPTH,
        forall|i: int| 0 <= i < list.len() ==> writable_param(#[trigger] list[i]),
        reads(
            arg,
            inner + (params_source(list) + (seq![')'] + rest)),
            depth + 1,
            params_source(list) + (seq![')'] + rest),
        ),
    ensures
        reads(
            MetricExprView::Function { name: kind, arg: Box::new(arg), params: list },
            kind.token() + (seq!['('] + (inner + (params_source(list) + (seq![')'] + rest)))),
            depth,
            rest,
        ),
{
    let closing = seq![')'] + rest;
    let tail = params_source(list) + closing;
    let t = seq!['('] + (inner + tail);
    let s = kind.token() + t;
    lemma_function_name(kind);
    lemma_called(kind.token(), s, t, depth);
    lemma_opening(inner + tail);
    lemma_params(list, closing);
    lemma_item(arg, inner + tail, depth + 1, tail);
    lemma_closing(rest);
    reveal(reads);
    assert(call(kind.token(), t, depth) == function(kind, t, depth));
}

proof fn lemma_transform_read(
    called: Seq<char>,
    arg: MetricExprView,
    inner: Seq<char>,
    list: Seq<ParamValueView>,
    rest: Seq<char>,
    depth: nat,
)
    requires
        depth + 1 <= MAX_DEPTH,
        word(called),
        FuncKind::of_token(called) is None,
        !combines(called),
        forall|i: int| 0 <= i < list.len() ==> writable_value(#[trigger] list[i]),
        reads(
            arg,
            inner + (values_source(list) + (seq![')'] + rest)),
            depth + 1,
            values_source(list) + (seq![')'] + rest),
        ),
    ensures
        reads(
            MetricExprView::Transform { name: called, arg: Box::new(arg), args: list },
            called + (seq!['('] + (inner + (values_source(list) + (seq![')'] + rest)))),
            depth,
            rest,
        ),
{
    let closing = seq![')'] + rest;
    let tail = values_source(list) + closing;
    let t = seq!['('] + (inner + tail);
    let s = called + t;
    lemma_called(called, s, t, depth);
    lemma_opening(inner + tail);
    lemma_values(list, closing);
    lemma_item(arg, inner + tail, depth + 1, tail);
    lemma_closing(rest);
    reveal(reads);
    assert(call(called, t, depth) == transform(called, t, depth));
}

/// Numbers behind an operand are operands themselves.
spec fn scalars(list: Seq<ParamValueView>) -> Seq<MetricExprView> {
    list.map_values(|v: ParamValueView| MetricExprView::Scalar(Scalar { value: v->Number_0 }))
}

/// An operand, and what the list of operands goes on with.
proof fn lemma_first_operand(
    e: MetricExprView,
    inner: Seq<char>,
    more: Seq<char>,
    depth: nat,
)
    requires
        depth <= MAX_DEPTH,
        reads(e, inner + (seq![','] + more), depth, seq![','] + more),
    ensures
        operands(inner + (seq![','] + more), depth) == attached(
            seq![e],
            operands(more, depth),
        ),
{
    let tail = seq![','] + more;
    let s = inner + tail;
    assert(tail[0] == ',');
    lemma_item(e, s, depth, tail);
    reveal_strlit(",");
    lemma_eat_first(tail, ","@);
    assert(tail.skip(1) =~= more);
}

/// The last operand of a list.
proof fn lemma_last_operand(e: MetricExprView, s: Seq<char>, rest: Seq<char>, depth: nat)
    requires
        depth <= MAX_DEPTH,
        reads(e, s, depth, seq![')'] + rest),
    ensures
        operands(s, depth) == done(seq![e], seq![')'] + rest),
{
    let closing = seq![')'] + rest;
    lemma_closing(rest);
    lemma_item(e, s, depth, closing);
    reveal_strlit(",");
    lemma_eat_first(closing, ","@);
}

proof fn lemma_scalar_operands(list: Seq<ParamValueView>, rest: Seq<char>, depth: nat)
    requires
        depth <= MAX_DEPTH,
        list.len() > 0,
        forall|i: int| 0 <= i < list.len() ==> writable_value(#[trigger] list[i]),
        forall|i: int| 0 <= i < list.len() ==> (#[trigger] list[i]) is Number,
    ensures
        operands(values_source(list).skip(1) + (seq![')'] + rest), depth) == done(
            scalars(list),
            seq![')'] + rest,
        ),
    decreases list.len(),
{
    let closing = seq![')'] + rest;
    let x = list[0]->Number_0;
    assert(writable_value(list[0]));
    let e = MetricExprView::Scalar(Scalar { value: x });
    let s = values_source(list).skip(1) + closing;
    lemma_closing(rest);
    if list.len() == 1 {
        assert(list.skip(1) =~= seq![]);
        assert(values_source(list.skip(1)) =~= seq![]);
        assert(s =~= number_text(x) + closing);
        lemma_scalar(x, closing, depth);
        lemma_last_operand(e, s, rest, depth);
        assert(scalars(list) =~= seq![e]);
    } else {
        let more = list.skip(1);
        let tail = values_source(more).skip(1) + closing;
        assert(values_source(more)[0] == ',');
        assert(values_source(more) =~= seq![','] + values_source(more).skip(1));
        assert(s =~= number_text(x) + (seq![','] + tail));
        assert((seq![','] + tail)[0] == ',');
        lemma_scalar(x, seq![','] + tail, depth);
        lemma_first_operand(e, number_text(x), tail, depth);
        lemma_scalar_operands(more, rest, depth);
        assert(seq![e] + scalars(more) =~= scalars(list));
    }
}

/// Operands in parentheses, behind the name of an aggregator.
proof fn lemma_combination_read(
    called: Seq<char>,
    list: Seq<MetricExprView>,
    inner: Seq<char>,
    rest: Seq<char>,
    depth: nat,
)
    requires
        depth + 1 <= MAX_DEPTH,
        combines(called),
        operands(inner + (seq![')'] + rest), depth + 1) == done(list, seq![')'] + rest),
    ensures
        reads(
            combined(called, list),
            called + (seq!['('] + (inner + (seq![')'] + rest))),
            depth,
            rest,
        ),
{
    let closing = seq![')'] + rest;
    let t = seq!['('] + (inner + closing);
    let s = called + t;
    lemma_combiner(called);
    lemma_called(called, s, t, depth);
    lemma_opening(inner + closing);
    lemma_closing(rest);
    reveal(reads);
    assert(call(called, t, depth) == combination(called, t, depth));
}

proof fn lemma_combiner(called: Seq<char>)
    requires
        combines(called),
    ensures
        word(called),
        FuncKind::of_token(called) is None,
{
    reveal_strlit("avg");
    reveal_strlit("sum");
    reveal_strlit("min");
    reveal_strlit("max");
    reveal_strlit("count");
    reveal_strlit("anomalies");
    reveal_strlit("outliers");
    reveal_strlit("forecast");
    assert(called.len() <= 5);
    assert("anomalies"@.len() == 9 && "outliers"@.len() == 8 && "forecast"@.len() == 8);
}

/// A space before an operand does not matter.
proof fn lemma_spaced(s: Seq<char>, depth: nat)
    requires
        s.len() > 0,
        !white(s[0]),
        depth <= MAX_DEPTH,
    ensures
        term(seq![' '] + s, depth) == term(s, depth),
{
    let t = seq![' '] + s;
    lemma_split(t, seq![' '], s, |c: char| ascii_white(c));
    lemma_split(t, seq![' '], s, |c: char| white(c));
    lemma_first(s);
    assert(group(t, depth) == group(s, depth));
    assert(term_name(t) == term_name(s));
    assert(numbering(t) == numbering(s));
    assert(operand(t, depth) == operand(s, depth));
}

/// An operation in parentheses.
proof fn lemma_arith_read(
    op: ArithOp,
    a: MetricExprView,
    b: MetricExprView,
    l: Seq<char>,
    r: Seq<char>,
    rest: Seq<char>,
    depth: nat,
)
    requires
        depth + 2 <= MAX_DEPTH,
        reads(
            a,
            l + (seq![' '] + op.token() + (seq![' '] + (r + (seq![')'] + rest)))),
            depth + 1,
            seq![' '] + op.token() + (seq![' '] + (r + (seq![')'] + rest))),
        ),
        reads(b, r + (seq![')'] + rest), depth + 2, seq![')'] + rest),
    ensures
        reads(
            MetricExprView::Arith { op, lhs: Box::new(a), rhs: Box::new(b) },
            seq!['('] + (l + (seq![' '] + op.token() + (seq![' '] + (r + (seq![')'] + rest))))),
            depth,
            rest,
        ),
{
    let closing = seq![')'] + rest;
    let right = r + closing;
    let spaced = seq![' '] + right;
    let behind = seq![' '] + op.token() + spaced;
    let inner = l + behind;
    let s = seq!['('] + inner;
    let both = MetricExprView::Arith { op, lhs: Box::new(a), rhs: Box::new(b) };
    reveal(reads);
    lemma_closing(rest);
    lemma_opening(inner);
    lemma_operator(op, spaced);
    lemma_after_operand(behind);
    lemma_after_operand(closing);
    lemma_spaced(right, depth + 2);
    let least = power_of(op).1;
    assert(operations(b, closing, least, depth + 2) == done(b, closing));
    assert(arith(spaced, least, depth + 2) == done(b, closing));
    assert(operations(both, closing, 0, depth + 1) == done(both, closing));
    assert(right.len() >= closing.len());
    assert(behind.len() == 1 + op.token().len() + spaced.len());
    let r0 = term(inner, depth + 1).rest;
    assert(r0 == behind || r0 == skipped(behind));
    lemma_skipped_once(behind);
    assert(eaten(r0, op.token()) == spaced);
    assert(operations(a, r0, 0, depth + 1) == done(both, closing));
    assert(arith(inner, 0, depth + 1) == done(both, closing));
    assert(s[0] == '(');
    lemma_first(s);
    assert(group(s, depth) == done(both, rest));
    assert(operand(s, depth) == group(s, depth));
}

proof fn lemma_operator(op: ArithOp, t: Seq<char>)
    ensures
        op.token().len() == 1,
        after_operand(seq![' '] + op.token() + t),
        next_operator(seq![' '] + op.token() + t) == Some(op),
        next_operator(skipped(seq![' '] + op.token() + t)) == Some(op),
        eaten(seq![' '] + op.token() + t, op.token()) == t,
{
    reveal_strlit("+");
    reveal_strlit("-");
    reveal_strlit("*");
    reveal_strlit("/");
    let s = seq![' '] + op.token() + t;
    assert(s[0] == ' ' && s[1] == op.token()[0]);
    lemma_after_operand(s);
    let u = s.skip(1);
    assert(u =~= op.token() + t);
    assert(u.take(1) =~= op.token());
    assert(u.skip(1) =~= t);
}

/// What is written of an expression is read as that expression.
proof fn lemma_expr(e: MetricExprView, rest: Seq<char>, depth: nat)
    requires
        writable(e),
        after_operand(rest),
        depth + levels(e) <= MAX_DEPTH,
    ensures
        reads(e, expr_source(e) + rest, depth, rest),
    decreases e, 1nat,
{
    match e {
        MetricExprView::Series(v) => {
            lemma_series(v, rest, depth);
            reveal(reads);
            assert(ident_char(seq![(expr_source(e) + rest)[0]][0]));
        },
        MetricExprView::Scalar(x) => {
            lemma_scalar(x.value, rest, depth);
            assert(e == MetricExprView::Scalar(Scalar { value: x.value }));
        },
        MetricExprView::Function { .. } => lemma_function_expr(e, rest, depth),
        MetricExprView::Transform { .. } => lemma_transform_expr(e, rest, depth),
        MetricExprView::Combine { .. } => lemma_combine_expr(e, rest, depth),
        MetricExprView::Arith { .. } => lemma_arith_expr(e, rest, depth),
        MetricExprView::Change { .. } => {},
    }
}

proof fn lemma_function_expr(e: MetricExprView, rest: Seq<char>, depth: nat)
    requires
        writable(e),
        e is Function,
        after_operand(rest),
        depth + levels(e) <= MAX_DEPTH,
    ensures
        reads(e, expr_source(e) + rest, depth, rest),
    decreases e, 0nat,
{
    let s = expr_source(e) + rest;
    let closing = seq![')'] + rest;
    lemma_closing(rest);
    if let MetricExprView::Function { name, arg, params } = e {
        let inner = expr_source(*arg);
        let tail = params_source(params) + closing;
        lemma_params(params, closing);
        lemma_expr(*arg, tail, depth + 1);
        lemma_function_read(name, *arg, inner, params, rest, depth);
        assert(s =~= name.token() + (seq!['('] + (inner + tail)));
    }
}

proof fn lemma_transform_expr(e: MetricExprView, rest: Seq<char>, depth: nat)
    requires
        writable(e),
        e is Transform,
        after_operand(rest),
        depth + levels(e) <= MAX_DEPTH,
    ensures
        reads(e, expr_source(e) + rest, depth, rest),
    decreases e, 0nat,
{
    let s = expr_source(e) + rest;
    let closing = seq![')'] + rest;
    lemma_closing(rest);
    if let MetricExprView::Transform { name, arg, args } = e {
        let inner = expr_source(*arg);
        let tail = values_source(args) + closing;
        lemma_values(args, closing);
        lemma_expr(*arg, tail, depth + 1);
        assert(s =~= name + (seq!['('] + (inner + tail)));
        if combines(name) {
            lemma_aggregated(name, *arg, inner, args, rest, depth);
        } else {
            lemma_transform_read(name, *arg, inner, args, rest, depth);
        }
    }
}

proof fn lemma_combine_expr(e: MetricExprView, rest: Seq<char>, depth: nat)
    requires
        writable(e),
        e is Combine,
        after_operand(rest),
        depth + levels(e) <= MAX_DEPTH,
    ensures
        reads(e, expr_source(e) + rest, depth, rest),
    decreases e, 0nat,
{
    let s = expr_source(e) + rest;
    let closing = seq![')'] + rest;
    lemma_closing(rest);
    if let MetricExprView::Combine { name, args } = e {
        let inner = operands_source(args);
        lemma_operands(args, rest, depth + 1);
        lemma_combination_read(name, args, inner, rest, depth);
        assert(s =~= name + (seq!['('] + (inner + closing)));
    }
}

proof fn lemma_arith_expr(e: MetricExprView, rest: Seq<char>, depth: nat)
    requires
        writable(e),
        e is Arith,
        after_operand(rest),
        depth + levels(e) <= MAX_DEPTH,
    ensures
        reads(e, expr_source(e) + rest, depth, rest),
    decreases e, 0nat,
{
    let s = expr_source(e) + rest;
    let closing = seq![')'] + rest;
    lemma_closing(rest);
    if let MetricExprView::Arith { op, lhs, rhs } = e {
        let (l, r) = (expr_source(*lhs), expr_source(*rhs));
        let behind = seq![' '] + op.token() + (seq![' '] + (r + closing));
        lemma_operator(op, seq![' '] + (r + closing));
        lemma_expr(*lhs, behind, depth + 1);
        lemma_expr(*rhs, closing, depth + 2);
        lemma_arith_read(op, *lhs, *rhs, l, r, rest, depth);
        assert(s =~= seq!['('] + (l + behind));
    }
}

/// An aggregator over one expression and numbers is a transform.
proof fn lemma_aggregated(
    called: Seq<char>,
    arg: MetricExprView,
    inner: Seq<char>,
    args: Seq<ParamValueView>,
    rest: Seq<char>,
    depth: nat,
)
    requires
        depth + 1 <= MAX_DEPTH,
        combines(called),
        forall|i: int| 0 <= i < args.len() ==> writable_value(#[trigger] args[i]),
        forall|i: int| 0 <= i < args.len() ==> (#[trigger] args[i]) is Number,
        reads(
            arg,
            inner + (values_source(args) + (seq![')'] + rest)),
            depth + 1,
            values_source(args) + (seq![')'] + rest),
        ),
    ensures
        reads(
            MetricExprView::Transform { name: called, arg: Box::new(arg), args },
            called + (seq!['('] + (inner + (values_source(args) + (seq![')'] + rest)))),
            depth,
            rest,
        ),
{
    let closing = seq![')'] + rest;
    let tail = values_source(args) + closing;
    let list = seq![arg] + scalars(args);
    let all = inner + values_source(args);
    assert(all + closing =~= inner + tail);
    if args.len() == 0 {
        assert(values_source(args) =~= seq![]);
        assert(tail =~= closing);
        lemma_last_operand(arg, inner + tail, rest, depth + 1);
        assert(list =~= seq![arg]);
    } else {
        let more = values_source(args).skip(1) + closing;
        assert(values_source(args)[0] == ',');
        assert(values_source(args) =~= seq![','] + values_source(args).skip(1));
        assert(tail =~= seq![','] + more);
        lemma_first_operand(arg, inner, more, depth + 1);
        lemma_scalar_operands(args, rest, depth + 1);
    }
    lemma_combination_read(called, list, all, rest, depth);
    let e = combined(called, list);
    assert forall|i: int| 1 <= i < list.len() implies (#[trigger] list[i]) is Scalar by {
        assert(list[i] == scalars(args)[i - 1]);
    }
    let shown = Seq::new(
        (list.len() - 1) as nat,
        |i: int| ParamValueView::Number(list[i + 1]->Scalar_0.value),
    );
    assert(shown =~= args) by {
        assert forall|i: int| 0 <= i < args.len() implies shown[i] == #[trigger] args[i] by {
            assert(list[i + 1] == scalars(args)[i]);
        }
    }
    assert(e == MetricExprView::Transform { name: called, arg: Box::new(arg), args });
}

proof fn lemma_operands(list: Seq<MetricExprView>, rest: Seq<char>, depth: nat)
    requires
        list.len() > 0,
        all_writable(list),
        depth + most_levels(list) <= MAX_DEPTH,
    ensures
        operands(operands_source(list) + (seq![')'] + rest), depth) == done(
            list,
            seq![')'] + rest,
        ),
    decreases list, 1nat,
{
    let closing = seq![')'] + rest;
    let s = operands_source(list) + closing;
    lemma_closing(rest);
    if list.len() == 1 {
        lemma_expr(list[0], closing, depth);
        lemma_last_operand(list[0], s, rest, depth);
        assert(seq![list[0]] =~= list);
    } else {
        let more = list.skip(1);
        let tail = operands_source(more) + closing;
        assert(s =~= expr_source(list[0]) + (seq![','] + tail));
        assert((seq![','] + tail)[0] == ',');
        lemma_expr(list[0], seq![','] + tail, depth);
        lemma_first_operand(list[0], expr_source(list[0]), tail, depth);
        lemma_operands(more, rest, depth);
        assert(seq![list[0]] + more =~= list);
    }
}

// ----- queries ------------------------------------------------------------------

/// A condition that a query may hold: one finite threshold.
pub open spec fn writable_condition(c: Condition) -> bool {
    &&& finite(c.critical.value)
    &&& c.critical_recovery is None
    &&& c.warning is None
    &&& c.warning_recovery is None
}

/// A condition as it is written.
pub open spec fn condition_source(c: Condition) -> Seq<char> {
    c.operator.token() + seq![' '] + number_text(c.critical.value)
}

proof fn lemma_comparison(op: CmpOp, t: Seq<char>)
    requires
        t.len() > 0,
        t[0] == ' ',
    ensures
        comparison(op.token() + t) == done(op, t),
        op.token().len() > 0,
        operator_sign(op.token()[0]),
        skipped(op.token() + t) == op.token() + t,
{
    reveal_strlit(">=");
    reveal_strlit("<=");
    reveal_strlit("==");
    reveal_strlit("!=");
    reveal_strlit(">");
    reveal_strlit("<");
    let s = op.token() + t;
    assert(s[0] == op.token()[0]);
    lemma_first(s);
    let n = op.token().len() as int;
    assert(s.take(n) =~= op.token());
    assert(s.skip(n) =~= t);
    assert(s.len() >= 2 && s.take(2)[0] == s[0] && s.take(2)[1] == s[1] && s.take(1)[0] == s[0]);
    assert(">="@.len() == 2 && "<="@.len() == 2 && "=="@.len() == 2 && "!="@.len() == 2);
    assert(n == 1 ==> s[1] == ' ');
    assert(n == 2 ==> s[1] == '=');
}

/// A condition is read as it is written, with a space before it or without.
pub proof fn law_conditions_are_read_back(c: Condition)
    requires
        writable_condition(c),
    ensures
        condition(condition_source(c)) == done(c, Seq::<char>::empty()),
        condition(seq![' '] + condition_source(c)) == done(c, Seq::<char>::empty()),
{
    let none = Seq::<char>::empty();
    let text = number_text(c.critical.value);
    let spaced = seq![' '] + text;
    let s = condition_source(c);
    let t = seq![' '] + s;
    assert(s =~= c.operator.token() + spaced);
    lemma_comparison(c.operator, spaced);
    lemma_number(c.critical.value, none);
    assert(text + none =~= text);
    lemma_split(spaced, seq![' '], text, |c: char| ascii_white(c));
    lemma_first(text);
    assert(numbering(spaced) == numbering(text));
    assert(critical_at(c.operator, c.critical.value) == c);
    assert(s[0] == c.operator.token()[0]);
    lemma_split(t, seq![' '], s, |c: char| ascii_white(c));
    assert(comparison(t) == comparison(s));
}

/// A window that a query may hold: it is that of its token.
pub open spec fn writable_window(w: WindowView) -> bool {
    name(w.raw) && window_of(w.raw) == Some(w)
}

/// A metric query that can be written: a change stands at the root of its
/// expression or nowhere, and is of the aggregation that the query has.
pub open spec fn writable_metric(m: MetricQueryView) -> bool {
    &&& writable_window(m.window)
    &&& writable_condition(m.condition)
    &&& match m.expr {
        MetricExprView::Change { kind, inner_agg, shift, arg } => {
            &&& inner_agg == m.time_aggregation
            &&& writable_window(shift)
            &&& writable(*arg)
            &&& levels(*arg) <= MAX_DEPTH
        },
        e => {
            &&& !(m.time_aggregation is Percentile)
            &&& writable(e)
            &&& levels(e) <= MAX_DEPTH
        },
    }
}

/// An expression and a condition as they are written, behind a colon.
pub open spec fn body_source(e: MetricExprView, c: Condition) -> Seq<char> {
    seq![':'] + expr_source(e) + seq![' '] + condition_source(c)
}

/// What stands in the parentheses of a change, as it is written.
pub open spec fn change_source(agg: TimeAgg, w: WindowView, shift: WindowView) -> Seq<char> {
    seq!['('] + agg.token() + seq!['('] + w.raw + seq![')', ','] + shift.raw + seq![')']
}

/// A metric query as it is written.
pub open spec fn metric_source(m: MetricQueryView) -> Seq<char> {
    match m.expr {
        MetricExprView::Change { kind, inner_agg, shift, arg } => kind.token() + change_source(
            inner_agg,
            m.window,
            shift,
        ) + body_source(*arg, m.condition),
        e => m.time_aggregation.token() + seq!['('] + m.window.raw + seq![')'] + body_source(
            e,
            m.condition,
        ),
    }
}

proof fn lemma_body(e: MetricExprView, c: Condition)
    requires
        writable(e),
        levels(e) <= MAX_DEPTH,
        writable_condition(c),
    ensures
        metric_body(body_source(e, c)) == done((e, c), Seq::<char>::empty()),
{
    let ended = seq![' '] + condition_source(c);
    let inner = expr_source(e) + ended;
    let s = body_source(e, c);
    reveal_strlit(":");
    assert(s =~= seq![':'] + inner);
    assert(s[0] == ':');
    lemma_eat_first(s, ":"@);
    assert(s.skip(1) =~= inner);
    law_conditions_are_read_back(c);
    lemma_comparison(c.operator, seq![' '] + number_text(c.critical.value));
    assert(condition_source(c)[0] == c.operator.token()[0]);
    assert(ended[1] == c.operator.token()[0]);
    lemma_expr(e, ended, 0);
    lemma_after_operand(ended);
    reveal(reads);
    let r = term(inner, 0).rest;
    lemma_comparison_sign(c.operator);
    assert(next_operator(r) is None);
    assert(operations(e, r, 0, 0) == done(e, r));
    assert(arith(inner, 0, 0) == done(e, r));
    assert(ended.skip(1) =~= condition_source(c));
    assert(condition(r) == condition(ended));
}

proof fn lemma_comparison_sign(op: CmpOp)
    ensures
        op.token().len() > 0,
        op.token()[0] == '>' || op.token()[0] == '<' || op.token()[0] == '=' || op.token()[0]
            == '!',
{
    reveal_strlit(">=");
    reveal_strlit("<=");
    reveal_strlit("==");
    reveal_strlit("!=");
    reveal_strlit(">");
    reveal_strlit("<");
}

proof fn lemma_window(w: WindowView, rest: Seq<char>)
    requires
        writable_window(w),
    ensures
        window_in_parens(seq!['('] + w.raw + seq![')'] + rest) == done(w, rest),
        window(w.raw + (seq![')'] + rest)) == done(w, seq![')'] + rest),
{
    let closing = seq![')'] + rest;
    let inner = w.raw + closing;
    assert(seq!['('] + w.raw + seq![')'] + rest =~= seq!['('] + inner);
    lemma_opening(inner);
    lemma_closing(rest);
    assert(closing[0] == ')');
    lemma_name(w.raw, closing);
}

proof fn lemma_head(agg: TimeAgg)
    ensures
        word(agg.token()),
        TimeAgg::of_token(agg.token()) == Some(agg),
        ChangeKind::of_token(agg.token()) is None,
        !(agg is Percentile) ==> dialect_of(agg.token()) == Some(Dialect::Metric),
        forall|i: int| 0 <= i < agg.token().len() ==> in_head()(#[trigger] agg.token()[i]),
{
    reveal_strlit("avg");
    reveal_strlit("sum");
    reveal_strlit("min");
    reveal_strlit("max");
    reveal_strlit("count");
    reveal_strlit("percentile");
    reveal_strlit("change");
    reveal_strlit("pct_change");
    law_time_agg_tokens(agg, agg.token());
    law_dialects(agg.token());
    assert("change"@.len() == 6 && "pct_change"@.len() == 10);
    assert("percentile"@[1] == 'e' && "pct_change"@[1] == 'c');
}

proof fn lemma_change_head(kind: ChangeKind)
    ensures
        word(kind.token()),
        ChangeKind::of_token(kind.token()) == Some(kind),
        dialect_of(kind.token()) == Some(Dialect::Metric),
        forall|i: int| 0 <= i < kind.token().len() ==> in_head()(#[trigger] kind.token()[i]),
{
    reveal_strlit("change");
    reveal_strlit("pct_change");
    law_change_kind_tokens(kind, kind.token());
    law_dialects(kind.token());
}

/// A text that begins with the name of a metric query is read as one.
proof fn lemma_metric_dialect(head: Seq<char>, t: Seq<char>)
    requires
        word(head),
        dialect_of(head) == Some(Dialect::Metric),
        forall|i: int| 0 <= i < head.len() ==> in_head()(#[trigger] head[i]),
        t.len() > 0,
        t[0] == '(',
    ensures
        ({
            let s = head + t;
            let r = metric(s);
            &&& trimmed(s).len() > 0
            &&& r.result matches Ok(q) ==> query(s) == done(MonitorQueryView::Metric(q), r.rest)
        }),
{
    let s = head + t;
    lemma_name(head, t);
    assert(ident_char(head[0]));
    lemma_first(s);
    lemma_trimmed_end(s);
    lemma_split(s, head, t, in_head());
    assert(dialect(s) == Ok::<Dialect, Seq<char>>(Dialect::Metric));
}

/// A text that is read to its end is parsed.
proof fn lemma_parsed(head: Seq<char>, t: Seq<char>, m: MetricQueryView)
    requires
        word(head),
        dialect_of(head) == Some(Dialect::Metric),
        forall|i: int| 0 <= i < head.len() ==> in_head()(#[trigger] head[i]),
        t.len() > 0,
        t[0] == '(',
        metric(head + t) == done(m, Seq::<char>::empty()),
    ensures
        parsed(head + t) == Ok::<MonitorQueryView, ParseErrorView>(MonitorQueryView::Metric(m)),
{
    let none = Seq::<char>::empty();
    lemma_metric_dialect(head, t);
    lemma_run_is(none, |c: char| ascii_white(c), 0);
    lemma_run_is(none, |c: char| white(c), 0);
    assert(none.skip(0) =~= none);
}

proof fn lemma_plain_metric(m: MetricQueryView)
    requires
        writable_metric(m),
        !(m.expr is Change),
    ensures
        parsed(metric_source(m)) == Ok::<MonitorQueryView, ParseErrorView>(
            MonitorQueryView::Metric(m),
        ),
{
    let none = Seq::<char>::empty();
    let head = m.time_aggregation.token();
    let body = body_source(m.expr, m.condition);
    let t = seq!['('] + m.window.raw + seq![')'] + body;
    let s = metric_source(m);
    assert(s =~= head + t);
    assert(t[0] == '(');
    lemma_head(m.time_aggregation);
    lemma_name(head, t);
    lemma_window(m.window, body);
    lemma_body(m.expr, m.condition);
    assert(metric(s) == done(m, none));
    lemma_parsed(head, t, m);
}

proof fn lemma_change_head_read(agg: TimeAgg, w: WindowView, shift: WindowView, body: Seq<char>)
    requires
        writable_window(w),
        writable_window(shift),
    ensures
        change_head(change_source(agg, w, shift) + body) == done((agg, w, shift), body),
        (change_source(agg, w, shift) + body)[0] == '(',
{
    let comma = seq![','] + (shift.raw + (seq![')'] + body));
    let first = seq!['('] + w.raw + seq![')'] + comma;
    let named = agg.token() + first;
    lemma_change_source(agg.token(), w.raw, shift.raw, body);
    lemma_opening(named);
    lemma_head(agg);
    assert(first[0] == '(');
    lemma_name(agg.token(), first);
    lemma_window(w, comma);
    lemma_shift(shift, body);
}

proof fn lemma_change_source(a: Seq<char>, w: Seq<char>, v: Seq<char>, body: Seq<char>)
    ensures
        seq!['('] + a + seq!['('] + w + seq![')', ','] + v + seq![')'] + body == seq!['('] + (a + (
        seq!['('] + w + seq![')'] + (seq![','] + (v + (seq![')'] + body))))),
{
    let inner = v + (seq![')'] + body);
    assert(seq![')', ','] =~= seq![')'] + seq![',']);
    assert(seq!['('] + a + seq!['('] + w + seq![')', ','] + v + seq![')'] + body =~= seq!['('] + (a
        + (seq!['('] + w + seq![')'] + (seq![','] + inner))));
}

/// The shift of a change, behind its comma.
proof fn lemma_shift(shift: WindowView, body: Seq<char>)
    requires
        writable_window(shift),
    ensures
        ({
            let comma = expecting(seq![','] + (shift.raw + (seq![')'] + body)), ","@);
            let v = window(comma.rest);
            &&& comma.result is Ok
            &&& v.result == Ok::<WindowView, Seq<char>>(shift)
            &&& expecting(v.rest, ")"@) == done((), body)
        }),
{
    let shifted = shift.raw + (seq![')'] + body);
    let comma = seq![','] + shifted;
    reveal_strlit(",");
    assert(comma[0] == ',');
    lemma_eat_first(comma, ","@);
    assert(comma.skip(1) =~= shifted);
    lemma_window(shift, body);
    lemma_closing(body);
}

proof fn lemma_change_metric(m: MetricQueryView)
    requires
        writable_metric(m),
        m.expr is Change,
    ensures
        parsed(metric_source(m)) == Ok::<MonitorQueryView, ParseErrorView>(
            MonitorQueryView::Metric(m),
        ),
{
    if let MetricExprView::Change { kind, inner_agg, shift, arg } = m.expr {
        let body = body_source(*arg, m.condition);
        let t = change_source(inner_agg, m.window, shift) + body;
        assert(metric_source(m) =~= kind.token() + t);
        lemma_change_head_read(inner_agg, m.window, shift, body);
        lemma_change_head(kind);
        lemma_name(kind.token(), t);
        lemma_body(*arg, m.condition);
        assert(change_metric(kind, t) == done(m, Seq::<char>::empty()));
        assert(metric(kind.token() + t) == change_metric(kind, t));
        lemma_parsed(kind.token(), t, m);
    }
}

/// Every metric query is read as it is written: aggregation, windows, operators and
/// threshold, and in its expression each series with its metric, filters, grouping
/// and modifiers, each call with its operands, parameters and arguments, in their
/// order.
pub proof fn law_metric_queries_are_read_back(m: MetricQueryView)
    requires
        writable_metric(m),
    ensures
        parsed(metric_source(m)) == Ok::<MonitorQueryView, ParseErrorView>(
            MonitorQueryView::Metric(m),
        ),
{
    if m.expr is Change {
        lemma_change_metric(m);
    } else {
        lemma_plain_metric(m);
    }
}

/// An error-budget query as it is written.
pub open spec fn slo_source(q: SloQueryView) -> Seq<char> {
    "error_budget"@ + seq!['('] + quoted(q.id) + seq![')'] + opened("over"@) + quoted(q.over)
        + seq![')', ' '] + condition_source(q.condition)
}

proof fn lemma_quoted_in_parens(text: Seq<char>, rest: Seq<char>)
    ensures
        quoted_in_parens(seq!['('] + (quoted(text) + (seq![')'] + rest))) == done(text, rest),
{
    lemma_opening(quoted(text) + (seq![')'] + rest));
    lemma_quoted(text, seq![')'] + rest);
    lemma_closing(rest);
}

/// The method `over` of an error budget.
proof fn lemma_budget_method(over: Seq<char>, ended: Seq<char>)
    ensures
        ({
            let method = opened("over"@) + (quoted(over) + (seq![')'] + ended));
            let dot = expecting(method, "."@);
            &&& dot.result is Ok
            &&& budget_window(dot.rest) == done(over, ended)
        }),
{
    let windowed = seq!['('] + (quoted(over) + (seq![')'] + ended));
    let method = opened("over"@) + (quoted(over) + (seq![')'] + ended));
    reveal_strlit("over");
    reveal_strlit(".");
    assert(method[0] == '.');
    lemma_eat_first(method, "."@);
    assert(method.skip(1) =~= "over"@ + windowed);
    assert(name("over"@));
    lemma_name("over"@, windowed);
    lemma_quoted_in_parens(over, ended);
}

/// What follows the name of an error-budget query, as it is written.
spec fn slo_tail(q: SloQueryView) -> Seq<char> {
    seq!['('] + (quoted(q.id) + (seq![')'] + (opened("over"@) + (quoted(q.over) + (seq![')'] + (
    seq![' '] + condition_source(q.condition)))))))
}

proof fn lemma_slo(q: SloQueryView)
    requires
        writable_condition(q.condition),
    ensures
        slo_source(q) == "error_budget"@ + slo_tail(q),
        slo("error_budget"@ + slo_tail(q)) == done(q, Seq::<char>::empty()),
        slo_tail(q)[0] == '(',
{
    let head = "error_budget"@;
    let ended = seq![' '] + condition_source(q.condition);
    let method = opened("over"@) + (quoted(q.over) + (seq![')'] + ended));
    let t = slo_tail(q);
    let s = head + t;
    assert(slo_source(q) =~= s);
    lemma_quoted_in_parens(q.id, method);
    lemma_budget_method(q.over, ended);
    law_conditions_are_read_back(q.condition);
    lemma_budget_head();
    assert(s[0] == head[0]);
    lemma_first(s);
    assert(s.take(head.len() as int) =~= head);
    assert(s.skip(head.len() as int) =~= t);
    assert(expecting(s, head) == done((), t));
}

proof fn lemma_budget_head()
    ensures
        "error_budget"@.len() > 0,
        "error_budget"@[0] == 'e',
        forall|i: int|
            0 <= i < "error_budget"@.len() ==> in_head()(#[trigger] "error_budget"@[i]),
{
    reveal_strlit("error_budget");
}

/// Every error-budget query is read as it is written: its id, its window and its
/// condition.
pub proof fn law_error_budgets_are_read_back(q: SloQueryView)
    requires
        writable_condition(q.condition),
    ensures
        parsed(slo_source(q)) == Ok::<MonitorQueryView, ParseErrorView>(MonitorQueryView::Slo(q)),
{
    let none = Seq::<char>::empty();
    let head = "error_budget"@;
    let s = slo_source(q);
    lemma_slo(q);
    lemma_budget_head();
    assert(s[0] == head[0]);
    lemma_first(s);
    lemma_trimmed_end(s);
    lemma_split(s, head, slo_tail(q), in_head());
    assert(dialect(s) == Ok::<Dialect, Seq<char>>(Dialect::Slo));
    assert(query(s) == done(MonitorQueryView::Slo(q), none));
    lemma_run_is(none, |c: char| ascii_white(c), 0);
    lemma_run_is(none, |c: char| white(c), 0);
    assert(none.skip(0) =~= none);
}

} // verus!
