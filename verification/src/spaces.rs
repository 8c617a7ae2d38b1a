//! White space around a query: it does not change what the query is read as.

use vstd::prelude::*;
use crate::ast::{
    ArithOp, BoolOp, CompositeExprView, FuncKind, MetricExprView, MonitorQueryView, SpaceAgg,
    SpaceAggView,
};
use crate::cursor::{
    done, eaten, expecting, lemma_skipped_once, next_is, number_span, numbering, peeked, quoting,
    skipped, taken, unquoted, untaken, Step,
};
use crate::grammar::{
    arith, budget_window, call, change_head, check, check_method, check_methods, combination,
    comparison, condition, conjunction, conjuncts, dialect, disjunction, disjuncts, fraction,
    function, group, group_by, identifier, in_bare_arg, in_digits, in_head, in_ident,
    in_scope_token, in_separator, lemma_check_method, lemma_eaten, lemma_param, lemma_param_value,
    lemma_skipped, lemma_string_arg, lemma_string_args, lemma_untaken, metric, metric_body,
    metric_name, modifiers, more_string_args, named_term, negation, next_operator, no_check_parts,
    no_search_parts, operand, operands, operations, optional_scope, param, param_value, params,
    parsed, power_of, query, quoted_in_parens, runs, scope, scope_tokens, search, search_method,
    search_methods, segments, series, series_term, slo, source, string_arg, string_args, term,
    term_name, transform, values, whole, window, window_in_parens, CheckParts, Dialect, SearchParts,
    MAX_DEPTH,
};
use crate::error::ParseErrorView;
use crate::laws::lemma_first;
use crate::parser::lemma_operator_is_next;
use crate::reasons::{lemma_arith, lemma_conjunction, lemma_negation};
use crate::text::{
    after_run, ascii_white, begins, lemma_run, lemma_run_behind, lemma_run_is, run, the_run,
    trimmed, trimmed_end, trimmed_start, white,
};

verus! {

/// ASCII white space.
pub open spec fn spaces(w: Seq<char>) -> bool {
    forall|i: int| 0 <= i < w.len() ==> ascii_white(#[trigger] w[i])
}

/// `t` is `s` with white space behind it.
#[verifier::opaque]
pub open spec fn padded(s: Seq<char>, t: Seq<char>) -> bool {
    t.len() >= s.len() && t == s + t.skip(s.len() as int) && spaces(t.skip(s.len() as int))
}

/// Both steps fail, or both give one value, and the second leaves what the first
/// leaves with white space behind it.
pub open spec fn alike<T>(a: Step<T>, b: Step<T>) -> bool {
    match (a.result, b.result) {
        (Ok(x), Ok(y)) => x == y && padded(a.rest, b.rest),
        (Err(_), Err(_)) => true,
        _ => false,
    }
}

proof fn lemma_padded(s: Seq<char>, w: Seq<char>)
    requires
        spaces(w),
    ensures
        padded(s, s + w),
{
    reveal(padded);
    assert((s + w).skip(s.len() as int) =~= w);
}

/// The white space that `t` has behind `s`.
proof fn lemma_padding(s: Seq<char>, t: Seq<char>) -> (w: Seq<char>)
    requires
        padded(s, t),
    ensures
        t == s + w,
        spaces(w),
        w == t.skip(s.len() as int),
{
    reveal(padded);
    t.skip(s.len() as int)
}

/// A run of characters other than white space is not changed, nor is a run that
/// ends before the end.
proof fn lemma_run_padded(s: Seq<char>, t: Seq<char>, p: spec_fn(char) -> bool)
    requires
        padded(s, t),
        (forall|c: char| ascii_white(c) ==> !#[trigger] p(c)) || run(s, p) < s.len(),
    ensures
        run(t, p) == run(s, p),
        the_run(t, p) == the_run(s, p),
        padded(after_run(s, p), after_run(t, p)),
{
    let w = lemma_padding(s, t);
    lemma_run(s, p);
    let n = run(s, p);
    assert forall|i: int| 0 <= i < n implies p(#[trigger] t[i]) by {
        assert(t[i] == s[i]);
    }
    if n < t.len() {
        if n < s.len() {
            assert(t[n as int] == s[n as int]);
        } else {
            assert(t[n as int] == w[0]);
        }
    }
    lemma_run_is(t, p, n);
    assert(t.take(n as int) =~= s.take(n as int));
    assert(t.skip(n as int) =~= s.skip(n as int) + w);
    lemma_padded(s.skip(n as int), w);
}

/// A run that holds white space and reaches the end goes on to the end.
proof fn lemma_run_to_end(s: Seq<char>, t: Seq<char>, p: spec_fn(char) -> bool)
    requires
        padded(s, t),
        forall|c: char| ascii_white(c) ==> #[trigger] p(c),
        run(s, p) == s.len(),
    ensures
        run(t, p) == t.len(),
        the_run(s, p) == s,
        the_run(t, p) == t,
        after_run(s, p) == Seq::<char>::empty(),
        after_run(t, p) == Seq::<char>::empty(),
        padded(after_run(s, p), after_run(t, p)),
{
    let w = lemma_padding(s, t);
    lemma_run(s, p);
    assert forall|i: int| 0 <= i < t.len() implies p(#[trigger] t[i]) by {
        if i < s.len() {
            assert(t[i] == s[i]);
        } else {
            assert(t[i] == w[i - s.len()]);
        }
    }
    lemma_run_is(t, p, t.len());
    assert(s.take(s.len() as int) =~= s);
    assert(t.take(t.len() as int) =~= t);
    let none = Seq::<char>::empty();
    assert(s.skip(s.len() as int) =~= none);
    assert(t.skip(t.len() as int) =~= none);
    lemma_padded(none, none);
    assert(none + none =~= none);
}

/// Skipping any class of characters that holds white space.
proof fn lemma_after_padded(s: Seq<char>, t: Seq<char>, p: spec_fn(char) -> bool)
    requires
        padded(s, t),
        forall|c: char| ascii_white(c) ==> #[trigger] p(c),
    ensures
        padded(after_run(s, p), after_run(t, p)),
        after_run(s, p).len() == 0 <==> after_run(t, p).len() == 0,
        after_run(s, p).len() > 0 ==> after_run(s, p)[0] == after_run(t, p)[0],
{
    lemma_run(s, p);
    if run(s, p) < s.len() {
        lemma_run_padded(s, t, p);
        let w = lemma_padding(after_run(s, p), after_run(t, p));
    } else {
        lemma_run_to_end(s, t, p);
    }
}

proof fn lemma_skipped_padded(s: Seq<char>, t: Seq<char>)
    requires
        padded(s, t),
    ensures
        padded(skipped(s), skipped(t)),
        skipped(s).len() == 0 <==> skipped(t).len() == 0,
        skipped(s).len() > 0 ==> skipped(s)[0] == skipped(t)[0],
{
    lemma_after_padded(s, t, |c: char| ascii_white(c));
}

proof fn lemma_peeked_padded(s: Seq<char>, t: Seq<char>)
    requires
        padded(s, t),
    ensures
        peeked(s) == peeked(t),
        trimmed_start(s).len() == 0 <==> trimmed_start(t).len() == 0,
{
    lemma_after_padded(s, t, |c: char| white(c));
}

// ----- tokens -------------------------------------------------------------------

/// A literal without white space.
spec fn solid(lit: Seq<char>) -> bool {
    lit.len() > 0 && forall|i: int| 0 <= i < lit.len() ==> !white(#[trigger] lit[i])
}

proof fn lemma_marks()
    ensures
        solid("("@),
        solid(")"@),
        solid("{"@),
        solid("}"@),
        solid(":"@),
        solid(","@),
        solid("."@),
        solid("="@),
        solid("!"@),
        solid("&&"@),
        solid("||"@),
        solid("error_budget"@),
{
    reveal_strlit("(");
    reveal_strlit(")");
    reveal_strlit("{");
    reveal_strlit("}");
    reveal_strlit(":");
    reveal_strlit(",");
    reveal_strlit(".");
    reveal_strlit("=");
    reveal_strlit("!");
    reveal_strlit("&&");
    reveal_strlit("||");
    reveal_strlit("error_budget");
}

/// Whether a literal comes first does not depend on what follows.
proof fn lemma_begins_padded(s: Seq<char>, t: Seq<char>, lit: Seq<char>)
    requires
        padded(s, t),
        solid(lit),
    ensures
        begins(s, lit) == begins(t, lit),
        begins(s, lit) ==> padded(s.skip(lit.len() as int), t.skip(lit.len() as int)),
{
    let w = lemma_padding(s, t);
    let n = lit.len() as int;
    if begins(t, lit) {
        if n > s.len() {
            let i = s.len() as int;
            assert(t.take(n)[i] == w[0]);
            assert(lit[i] == w[0]);
        }
        assert(s.take(n) =~= t.take(n));
    } else if begins(s, lit) {
        assert(t.take(n) =~= s.take(n));
    }
    if begins(s, lit) {
        assert(t.skip(n) =~= s.skip(n) + w);
        lemma_padded(s.skip(n), w);
    }
}

proof fn lemma_eaten_padded(s: Seq<char>, t: Seq<char>, lit: Seq<char>)
    requires
        padded(s, t),
        solid(lit),
    ensures
        next_is(s, lit) == next_is(t, lit),
        padded(eaten(s, lit), eaten(t, lit)),
        alike(expecting(s, lit), expecting(t, lit)),
{
    lemma_skipped_padded(s, t);
    lemma_begins_padded(skipped(s), skipped(t), lit);
}

proof fn lemma_taken_padded(s: Seq<char>, t: Seq<char>, p: spec_fn(char) -> bool)
    requires
        padded(s, t),
        forall|c: char| ascii_white(c) ==> !#[trigger] p(c),
    ensures
        taken(s, p) == taken(t, p),
        padded(untaken(s, p), untaken(t, p)),
{
    lemma_skipped_padded(s, t);
    lemma_run_padded(skipped(s), skipped(t), p);
}

proof fn lemma_ident_padded(s: Seq<char>, t: Seq<char>)
    requires
        padded(s, t),
    ensures
        taken(s, in_ident()) == taken(t, in_ident()),
        padded(untaken(s, in_ident()), untaken(t, in_ident())),
        alike(identifier(s), identifier(t)),
{
    lemma_taken_padded(s, t, in_ident());
}

proof fn lemma_skip_padded(s: Seq<char>, t: Seq<char>, n: int)
    requires
        padded(s, t),
        0 <= n <= s.len(),
    ensures
        padded(s.skip(n), t.skip(n)),
        t.take(n) == s.take(n),
{
    let w = lemma_padding(s, t);
    assert(t.skip(n) =~= s.skip(n) + w);
    assert(t.take(n) =~= s.take(n));
    lemma_padded(s.skip(n), w);
}

/// The first characters are the same, but for white space behind nothing.
proof fn lemma_head_padded(s: Seq<char>, t: Seq<char>)
    requires
        padded(s, t),
    ensures
        s.len() > 0 ==> t.len() > 0 && t[0] == s[0],
        s.len() == 0 && t.len() > 0 ==> ascii_white(t[0]),
        t.len() >= s.len(),
        s.len() == 0 ==> spaces(t),
{
    let w = lemma_padding(s, t);
    if s.len() == 0 {
        assert(t =~= w);
    }
}

proof fn lemma_term_name_padded(s: Seq<char>, t: Seq<char>)
    requires
        padded(s, t),
    ensures
        alike(term_name(s), term_name(t)),
{
    lemma_ident_padded(s, t);
    let (a, b) = (identifier(s), identifier(t));
    if a.result is Ok {
        let (x, y) = (a.rest, b.rest);
        lemma_head_padded(x, y);
        if x.len() > 0 && x[0] == '.' {
            lemma_skip_padded(x, y, 1);
            lemma_run_padded(x.skip(1), y.skip(1), in_digits());
            let n = run(x.skip(1), in_digits());
            lemma_run(x.skip(1), in_digits());
            lemma_skip_padded(x, y, 1 + n as int);
            lemma_peeked_padded(x.skip(1 + n as int), y.skip(1 + n as int));
        }
        assert(fraction(x) == fraction(y));
        assert(fraction(x) <= x.len()) by {
            lemma_run(x.skip(1), in_digits());
        }
        lemma_skip_padded(x, y, fraction(x) as int);
    }
}

proof fn lemma_window_padded(s: Seq<char>, t: Seq<char>)
    requires
        padded(s, t),
    ensures
        alike(window(s), window(t)),
{
    lemma_ident_padded(s, t);
}

proof fn lemma_segments_padded(s: Seq<char>, t: Seq<char>)
    requires
        padded(s, t),
    ensures
        segments(s).0 == segments(t).0,
        padded(segments(s).1, segments(t).1),
    decreases s.len(),
{
    lemma_head_padded(s, t);
    if s.len() > 0 && s[0] == '.' {
        lemma_skip_padded(s, t, 1);
        lemma_ident_padded(s.skip(1), t.skip(1));
        let (x, y) = (untaken(s.skip(1), in_ident()), untaken(t.skip(1), in_ident()));
        lemma_head_padded(x, y);
        lemma_untaken(s.skip(1), in_ident());
        lemma_segments_padded(x, y);
    }
}

proof fn lemma_metric_name_padded(s: Seq<char>, t: Seq<char>)
    requires
        padded(s, t),
    ensures
        alike(metric_name(s), metric_name(t)),
{
    lemma_ident_padded(s, t);
    lemma_segments_padded(untaken(s, in_ident()), untaken(t, in_ident()));
}

proof fn lemma_spaces_unquoted(s: Seq<char>, quote: char)
    requires
        spaces(s),
        quote == '"' || quote == '\'',
    ensures
        unquoted(s, quote) is None,
    decreases s.len(),
{
    if s.len() > 0 {
        assert(ascii_white(s[0]));
        assert forall|i: int| 0 <= i < s.len() - 1 implies ascii_white(#[trigger] s.skip(1)[i]) by {
            assert(s.skip(1)[i] == s[i + 1]);
        }
        lemma_spaces_unquoted(s.skip(1), quote);
    }
}

proof fn lemma_unquoted_padded(s: Seq<char>, t: Seq<char>, quote: char)
    requires
        padded(s, t),
        quote == '"' || quote == '\'',
    ensures
        match (unquoted(s, quote), unquoted(t, quote)) {
            (Some((a, x)), Some((b, y))) => a == b && padded(x, y),
            (None, None) => true,
            _ => false,
        },
    decreases s.len(),
{
    lemma_head_padded(s, t);
    let w = lemma_padding(s, t);
    if s.len() == 0 {
        lemma_spaces_unquoted(t, quote);
    } else if s[0] == quote {
        lemma_skip_padded(s, t, 1);
    } else if s[0] == '\\' {
        if s.len() > 1 {
            assert(t[1] == s[1]);
            lemma_skip_padded(s, t, 2);
            lemma_unquoted_padded(s.skip(2), t.skip(2), quote);
        } else if t.len() > 1 {
            let u = t.skip(2);
            assert forall|i: int| 0 <= i < u.len() implies ascii_white(#[trigger] u[i]) by {
                assert(u[i] == w[i + 1]);
            }
            lemma_spaces_unquoted(u, quote);
        }
    } else {
        lemma_skip_padded(s, t, 1);
        lemma_unquoted_padded(s.skip(1), t.skip(1), quote);
    }
}

proof fn lemma_quoting_padded(s: Seq<char>, t: Seq<char>)
    requires
        padded(s, t),
    ensures
        alike(quoting(s), quoting(t)),
{
    let (x, y) = (skipped(s), skipped(t));
    lemma_skipped_padded(s, t);
    lemma_head_padded(x, y);
    if x.len() > 0 && (x[0] == '"' || x[0] == '\'') {
        lemma_skip_padded(x, y, 1);
        lemma_unquoted_padded(x.skip(1), y.skip(1), x[0]);
    }
}

proof fn lemma_span_padded(s: Seq<char>, t: Seq<char>, signable: bool, pointed: bool)
    requires
        padded(s, t),
    ensures
        number_span(s, signable, pointed) == number_span(t, signable, pointed),
    decreases s.len(),
{
    lemma_head_padded(s, t);
    if s.len() > 0 {
        lemma_skip_padded(s, t, 1);
        lemma_span_padded(s.skip(1), t.skip(1), false, pointed);
        lemma_span_padded(s.skip(1), t.skip(1), false, true);
        lemma_span_padded(s.skip(1), t.skip(1), true, pointed);
    }
}

proof fn lemma_numbering_padded(s: Seq<char>, t: Seq<char>)
    requires
        padded(s, t),
    ensures
        alike(numbering(s), numbering(t)),
{
    let (x, y) = (skipped(s), skipped(t));
    lemma_skipped_padded(s, t);
    lemma_span_padded(x, y, true, false);
    crate::cursor::lemma_span(x, true, false);
    lemma_skip_padded(x, y, number_span(x, true, false) as int);
}

proof fn lemma_condition_padded(s: Seq<char>, t: Seq<char>)
    requires
        padded(s, t),
    ensures
        alike(condition(s), condition(t)),
{
    reveal_strlit(">=");
    reveal_strlit("<=");
    reveal_strlit("==");
    reveal_strlit("!=");
    reveal_strlit(">");
    reveal_strlit("<");
    lemma_eaten_padded(s, t, ">="@);
    lemma_eaten_padded(s, t, "<="@);
    lemma_eaten_padded(s, t, "=="@);
    lemma_eaten_padded(s, t, "!="@);
    lemma_eaten_padded(s, t, ">"@);
    lemma_eaten_padded(s, t, "<"@);
    assert(alike(comparison(s), comparison(t)));
    if comparison(s).result is Ok {
        lemma_numbering_padded(comparison(s).rest, comparison(t).rest);
    }
}

// ----- arguments ----------------------------------------------------------------

pub(crate) proof fn lemma_trimmed_end_spaces(s: Seq<char>, w: Seq<char>)
    requires
        spaces(w),
    ensures
        trimmed_end(s + w) == trimmed_end(s),
    decreases w.len(),
{
    if w.len() > 0 {
        let front = w.drop_last();
        assert forall|i: int| 0 <= i < front.len() implies ascii_white(#[trigger] front[i]) by {
            assert(front[i] == w[i]);
        }
        assert((s + w).last() == w[w.len() - 1]);
        assert((s + w).drop_last() =~= s + front);
        lemma_trimmed_end_spaces(s, front);
    } else {
        assert(s + w =~= s);
    }
}

/// White space behind a text is trimmed.
proof fn lemma_trimmed_padded(s: Seq<char>, t: Seq<char>)
    requires
        padded(s, t),
    ensures
        trimmed(s) == trimmed(t),
{
    lemma_after_padded(s, t, |c: char| white(c));
    let (x, y) = (trimmed_start(s), trimmed_start(t));
    let w = lemma_padding(x, y);
    lemma_trimmed_end_spaces(x, w);
}

proof fn lemma_string_arg_padded(s: Seq<char>, t: Seq<char>)
    requires
        padded(s, t),
    ensures
        alike(string_arg(s), string_arg(t)),
{
    let (x, y) = (skipped(s), skipped(t));
    lemma_skipped_padded(s, t);
    lemma_peeked_padded(x, y);
    lemma_quoting_padded(x, y);
    let (u, v) = (skipped(x), skipped(y));
    lemma_skipped_padded(x, y);
    lemma_run(u, in_bare_arg());
    if run(u, in_bare_arg()) < u.len() {
        lemma_run_padded(u, v, in_bare_arg());
    } else {
        lemma_run_to_end(u, v, in_bare_arg());
        lemma_trimmed_padded(u, v);
    }
}

proof fn lemma_more_args_padded(s: Seq<char>, t: Seq<char>)
    requires
        padded(s, t),
    ensures
        alike(more_string_args(s), more_string_args(t)),
    decreases s.len(),
{
    lemma_marks();
    lemma_string_arg_padded(s, t);
    let (a, b) = (string_arg(s), string_arg(t));
    if a.result is Ok {
        lemma_eaten_padded(a.rest, b.rest, ","@);
        lemma_eaten_padded(a.rest, b.rest, ")"@);
        if next_is(a.rest, ","@) {
            lemma_string_arg(s);
            lemma_eaten(a.rest, ","@);
            lemma_more_args_padded(eaten(a.rest, ","@), eaten(b.rest, ","@));
        }
    }
}

proof fn lemma_args_padded(s: Seq<char>, t: Seq<char>)
    requires
        padded(s, t),
    ensures
        alike(string_args(s), string_args(t)),
{
    lemma_marks();
    lemma_eaten_padded(s, t, ")"@);
    lemma_skipped_padded(s, t);
    lemma_more_args_padded(skipped(s), skipped(t));
}

proof fn lemma_value_padded(s: Seq<char>, t: Seq<char>)
    requires
        padded(s, t),
    ensures
        alike(param_value(s), param_value(t)),
{
    lemma_peeked_padded(s, t);
    lemma_quoting_padded(s, t);
    lemma_numbering_padded(s, t);
    lemma_ident_padded(s, t);
}

proof fn lemma_param_padded(s: Seq<char>, t: Seq<char>)
    requires
        padded(s, t),
    ensures
        alike(param(s), param(t)),
{
    lemma_peeked_padded(s, t);
    lemma_value_padded(s, t);
    lemma_ident_padded(s, t);
    let (a, b) = (identifier(s), identifier(t));
    if a.result is Ok {
        lemma_marks();
        lemma_eaten_padded(a.rest, b.rest, "="@);
        lemma_value_padded(eaten(a.rest, "="@), eaten(b.rest, "="@));
    }
}

proof fn lemma_params_padded(s: Seq<char>, t: Seq<char>)
    requires
        padded(s, t),
    ensures
        alike(params(s), params(t)),
    decreases s.len(),
{
    lemma_marks();
    lemma_eaten_padded(s, t, ","@);
    if next_is(s, ","@) {
        let (x, y) = (eaten(s, ","@), eaten(t, ","@));
        lemma_param_padded(x, y);
        if param(x).result is Ok {
            lemma_eaten(s, ","@);
            lemma_param(x);
            lemma_params_padded(param(x).rest, param(y).rest);
        }
    }
}

proof fn lemma_values_padded(s: Seq<char>, t: Seq<char>)
    requires
        padded(s, t),
    ensures
        alike(values(s), values(t)),
    decreases s.len(),
{
    lemma_marks();
    lemma_eaten_padded(s, t, ","@);
    if next_is(s, ","@) {
        let (x, y) = (eaten(s, ","@), eaten(t, ","@));
        lemma_value_padded(x, y);
        if param_value(x).result is Ok {
            lemma_eaten(s, ","@);
            lemma_param_value(x);
            lemma_values_padded(param_value(x).rest, param_value(y).rest);
        }
    }
}

// ----- series -------------------------------------------------------------------

proof fn lemma_scope_tokens_padded(s: Seq<char>, t: Seq<char>)
    requires
        padded(s, t),
    ensures
        scope_tokens(s).0 == scope_tokens(t).0,
        padded(scope_tokens(s).1, scope_tokens(t).1),
    decreases s.len(),
{
    let (p, q) = (in_separator(), in_scope_token());
    let (x, y) = (after_run(s, p), after_run(t, p));
    lemma_after_padded(s, t, p);
    if x.len() > 0 && x[0] != '}' {
        lemma_run(s, p);
        lemma_run(x, q);
        lemma_run_padded(x, y, q);
        lemma_scope_tokens_padded(after_run(x, q), after_run(y, q));
    }
}

proof fn lemma_scope_padded(s: Seq<char>, t: Seq<char>)
    requires
        padded(s, t),
    ensures
        alike(scope(s), scope(t)),
        alike(optional_scope(s), optional_scope(t)),
{
    lemma_marks();
    lemma_peeked_padded(s, t);
    lemma_eaten_padded(s, t, "{"@);
    let (x, y) = (eaten(s, "{"@), eaten(t, "{"@));
    lemma_scope_tokens_padded(x, y);
    lemma_eaten_padded(scope_tokens(x).1, scope_tokens(y).1, "}"@);
}

/// What remains is `by` alone, which nothing reads.
pub open spec fn stuck(s: Seq<char>) -> bool {
    skipped(s) == "by"@
}

/// As [`alike`], or the first step stops before a `by` that the second step takes
/// for the start of a grouping, and fails.
pub open spec fn nearly_alike<T>(a: Step<T>, b: Step<T>) -> bool {
    alike(a, b) || (a.result is Ok && b.result is Err && stuck(a.rest))
}

/// Where `by` alone remains, there is no operator, and nothing that may follow an
/// expression.
proof fn lemma_stuck(s: Seq<char>)
    requires
        stuck(s),
    ensures
        stuck(skipped(s)),
        skipped(s).len() > 0,
        skipped(s)[0] != '.',
        peeked(s) == Some('b'),
        !next_is(s, ","@),
        eaten(s, ","@) == skipped(s),
        expecting(s, ")"@).result is Err,
        condition(s).result is Err,
{
    let t = skipped(s);
    reveal_strlit("by");
    reveal_strlit(",");
    reveal_strlit(")");
    reveal_strlit(">=");
    reveal_strlit("<=");
    reveal_strlit("==");
    reveal_strlit("!=");
    reveal_strlit(">");
    reveal_strlit("<");
    assert(t.len() == 2 && t[0] == 'b');
    lemma_first(t);
    let p = |c: char| white(c);
    let q = |c: char| ascii_white(c);
    lemma_run(s, q);
    let k = run(s, q);
    assert forall|i: int| 0 <= i < k implies p(#[trigger] s[i]) by {
        assert(q(s[i]));
    }
    assert(s[k as int] == t[0]);
    lemma_run_is(s, p, k);
    assert(t.take(1)[0] == 'b' && t.take(2)[0] == 'b');
}

proof fn lemma_group_by_padded(s: Seq<char>, t: Seq<char>)
    requires
        padded(s, t),
    ensures
        nearly_alike(group_by(s), group_by(t)),
{
    let (x, y) = (skipped(s), skipped(t));
    lemma_skipped_padded(s, t);
    reveal_strlit("by");
    lemma_begins_padded(x, y, "by"@);
    if begins(x, "by"@) {
        let (u, v) = (x.skip(2), y.skip(2));
        lemma_head_padded(u, v);
        if x.len() > 2 {
            assert(u[0] == x[2]);
        }
        if y.len() > 2 {
            assert(v[0] == y[2]);
        }
        if x.len() > 2 {
            lemma_scope_padded(u, v);
        } else {
            assert(x =~= "by"@) by {
                assert(x.take(2) =~= x);
            }
            lemma_first(x);
            if y.len() > 2 {
                lemma_marks();
                lemma_eaten_padded(u, v, "{"@);
                assert(u =~= Seq::<char>::empty());
                assert(!next_is(u, "{"@));
                assert(scope(v).result is Err);
            }
        }
    }
}

proof fn lemma_modifiers_padded(s: Seq<char>, t: Seq<char>)
    requires
        padded(s, t),
    ensures
        alike(modifiers(s), modifiers(t)),
    decreases s.len(),
{
    let (x, y) = (skipped(s), skipped(t));
    lemma_skipped_padded(s, t);
    lemma_head_padded(x, y);
    if x.len() > 0 && x[0] == '.' {
        lemma_marks();
        lemma_skip_padded(x, y, 1);
        lemma_ident_padded(x.skip(1), y.skip(1));
        let (a, b) = (identifier(x.skip(1)), identifier(y.skip(1)));
        if a.result is Ok {
            lemma_eaten_padded(a.rest, b.rest, "("@);
            let (c, d) = (expecting(a.rest, "("@), expecting(b.rest, "("@));
            if c.result is Ok {
                lemma_args_padded(c.rest, d.rest);
                if string_args(c.rest).result is Ok {
                    lemma_skipped(s);
                    lemma_untaken(x.skip(1), in_ident());
                    lemma_eaten(a.rest, "("@);
                    lemma_string_args(c.rest);
                    lemma_modifiers_padded(string_args(c.rest).rest, string_args(d.rest).rest);
                }
            }
        }
    }
}

proof fn lemma_series_padded(aggregation: SpaceAggView, s: Seq<char>, t: Seq<char>)
    requires
        padded(s, t),
    ensures
        nearly_alike(series(aggregation, s), series(aggregation, t)),
{
    lemma_metric_name_padded(s, t);
    let (a, b) = (metric_name(s), metric_name(t));
    if a.result is Ok {
        lemma_scope_padded(a.rest, b.rest);
        let (c, d) = (optional_scope(a.rest), optional_scope(b.rest));
        if c.result is Ok {
            lemma_group_by_padded(c.rest, d.rest);
            let (e, f) = (group_by(c.rest), group_by(d.rest));
            if e.result is Ok {
                if f.result is Ok {
                    lemma_modifiers_padded(e.rest, f.rest);
                } else {
                    lemma_stuck(e.rest);
                }
            }
        }
    }
}

// ----- expressions --------------------------------------------------------------

proof fn lemma_arith_padded(s: Seq<char>, t: Seq<char>, least: u8, depth: nat)
    requires
        padded(s, t),
    ensures
        nearly_alike(arith(s, least, depth), arith(t, least, depth)),
    decreases MAX_DEPTH + 1 - depth, 7nat, s.len(),
{
    if depth <= MAX_DEPTH {
        lemma_term_padded(s, t, depth);
        let (a, b) = (term(s, depth), term(t, depth));
        if a.result is Ok {
            if b.result is Ok {
                lemma_operations_padded(a.result->Ok_0, a.rest, b.rest, least, depth);
            } else {
                lemma_stuck(a.rest);
            }
        }
    }
}

proof fn lemma_operations_padded(
    lhs: MetricExprView,
    s: Seq<char>,
    t: Seq<char>,
    least: u8,
    depth: nat,
)
    requires
        padded(s, t),
        depth <= MAX_DEPTH,
    ensures
        nearly_alike(operations(lhs, s, least, depth), operations(lhs, t, least, depth)),
    decreases MAX_DEPTH + 1 - depth, 6nat, s.len(),
{
    lemma_peeked_padded(s, t);
    if let Some(op) = next_operator(s) {
        let (least_right, deeper) = (power_of(op).1, depth + 1);
        if power_of(op).0 >= least {
            lemma_operator_is_next(s, op, least_right, deeper);
            lemma_operator_is_next(t, op, least_right, deeper);
            lemma_operator_padded(s, t, op);
            let (x, y) = (eaten(s, op.token()), eaten(t, op.token()));
            lemma_eaten(s, op.token());
            lemma_eaten(t, op.token());
            lemma_arith_padded(x, y, least_right, deeper);
            lemma_arith(x, least_right, deeper);
            lemma_arith(y, least_right, deeper);
            let (a, b) = (arith(x, least_right, deeper), arith(y, least_right, deeper));
            if a.result is Ok {
                let both = MetricExprView::Arith {
                    op,
                    lhs: Box::new(lhs),
                    rhs: Box::new(a.result->Ok_0),
                };
                if b.result is Ok {
                    lemma_operations_padded(both, a.rest, b.rest, least, depth);
                } else {
                    lemma_stuck(a.rest);
                    assert(operations(both, a.rest, least, depth) == done(both, a.rest));
                }
            }
        }
    }
}

proof fn lemma_operator_padded(s: Seq<char>, t: Seq<char>, op: ArithOp)
    requires
        padded(s, t),
    ensures
        next_is(s, op.token()) == next_is(t, op.token()),
        padded(eaten(s, op.token()), eaten(t, op.token())),
{
    reveal_strlit("+");
    reveal_strlit("-");
    reveal_strlit("*");
    reveal_strlit("/");
    lemma_eaten_padded(s, t, op.token());
}

proof fn lemma_term_padded(s: Seq<char>, t: Seq<char>, depth: nat)
    requires
        padded(s, t),
    ensures
        nearly_alike(term(s, depth), term(t, depth)),
    decreases MAX_DEPTH + 1 - depth, 5nat, s.len(),
{
    if depth <= MAX_DEPTH {
        lemma_operand_padded(s, t, depth);
    }
}

proof fn lemma_operand_padded(s: Seq<char>, t: Seq<char>, depth: nat)
    requires
        padded(s, t),
        depth <= MAX_DEPTH,
    ensures
        nearly_alike(operand(s, depth), operand(t, depth)),
    decreases MAX_DEPTH + 1 - depth, 4nat, s.len(),
{
    lemma_peeked_padded(s, t);
    lemma_group_padded(s, t, depth);
    lemma_numbering_padded(s, t);
    lemma_term_name_padded(s, t);
    let (a, b) = (term_name(s), term_name(t));
    if a.result is Ok {
        lemma_named_term_padded(a.result->Ok_0, a.rest, b.rest, depth);
    }
}

proof fn lemma_series_term_padded(name: Seq<char>, s: Seq<char>, t: Seq<char>)
    requires
        padded(s, t),
    ensures
        nearly_alike(series_term(name, s), series_term(name, t)),
{
    if let Some(aggregation) = SpaceAgg::of_token(name) {
        lemma_marks();
        lemma_eaten_padded(s, t, ":"@);
        let (a, b) = (expecting(s, ":"@), expecting(t, ":"@));
        if a.result is Ok {
            lemma_series_padded(aggregation, a.rest, b.rest);
        }
    }
}

proof fn lemma_named_term_padded(name: Seq<char>, s: Seq<char>, t: Seq<char>, depth: nat)
    requires
        padded(s, t),
        depth <= MAX_DEPTH,
    ensures
        nearly_alike(named_term(name, s, depth), named_term(name, t, depth)),
    decreases MAX_DEPTH + 1 - depth, 3nat, s.len(),
{
    lemma_peeked_padded(s, t);
    lemma_series_term_padded(name, s, t);
    lemma_call_padded(name, s, t, depth);
}

proof fn lemma_call_padded(name: Seq<char>, s: Seq<char>, t: Seq<char>, depth: nat)
    requires
        padded(s, t),
        depth <= MAX_DEPTH,
    ensures
        alike(call(name, s, depth), call(name, t, depth)),
    decreases MAX_DEPTH + 1 - depth, 2nat, s.len(),
{
    match FuncKind::of_token(name) {
        Some(kind) => lemma_function_padded(kind, s, t, depth),
        None => {
            lemma_combination_padded(name, s, t, depth);
            lemma_transform_padded(name, s, t, depth);
        },
    }
}

proof fn lemma_group_padded(s: Seq<char>, t: Seq<char>, depth: nat)
    requires
        padded(s, t),
        depth <= MAX_DEPTH,
    ensures
        alike(group(s, depth), group(t, depth)),
    decreases MAX_DEPTH + 1 - depth, 1nat, s.len(),
{
    lemma_marks();
    lemma_eaten_padded(s, t, "("@);
    let (x, y) = (eaten(s, "("@), eaten(t, "("@));
    lemma_arith_padded(x, y, 0, depth + 1);
    let (a, b) = (arith(x, 0, depth + 1), arith(y, 0, depth + 1));
    if a.result is Ok {
        if b.result is Ok {
            lemma_eaten_padded(a.rest, b.rest, ")"@);
        } else {
            lemma_stuck(a.rest);
        }
    }
}

proof fn lemma_function_padded(name: FuncKind, s: Seq<char>, t: Seq<char>, depth: nat)
    requires
        padded(s, t),
        depth <= MAX_DEPTH,
    ensures
        alike(function(name, s, depth), function(name, t, depth)),
    decreases MAX_DEPTH + 1 - depth, 1nat, s.len(),
{
    lemma_marks();
    lemma_eaten_padded(s, t, "("@);
    let (x, y) = (eaten(s, "("@), eaten(t, "("@));
    lemma_arith_padded(x, y, 0, depth + 1);
    let (a, b) = (arith(x, 0, depth + 1), arith(y, 0, depth + 1));
    if a.result is Ok {
        if b.result is Ok {
            lemma_params_padded(a.rest, b.rest);
            let (c, d) = (params(a.rest), params(b.rest));
            if c.result is Ok {
                lemma_eaten_padded(c.rest, d.rest, ")"@);
            }
        } else {
            lemma_stuck(a.rest);
            lemma_stuck(skipped(a.rest));
            assert(params(a.rest).rest == skipped(a.rest));
        }
    }
}

proof fn lemma_transform_padded(name: Seq<char>, s: Seq<char>, t: Seq<char>, depth: nat)
    requires
        padded(s, t),
        depth <= MAX_DEPTH,
    ensures
        alike(transform(name, s, depth), transform(name, t, depth)),
    decreases MAX_DEPTH + 1 - depth, 1nat, s.len(),
{
    lemma_marks();
    lemma_eaten_padded(s, t, "("@);
    let (x, y) = (eaten(s, "("@), eaten(t, "("@));
    lemma_arith_padded(x, y, 0, depth + 1);
    let (a, b) = (arith(x, 0, depth + 1), arith(y, 0, depth + 1));
    if a.result is Ok {
        if b.result is Ok {
            lemma_values_padded(a.rest, b.rest);
            let (c, d) = (values(a.rest), values(b.rest));
            if c.result is Ok {
                lemma_eaten_padded(c.rest, d.rest, ")"@);
            }
        } else {
            lemma_stuck(a.rest);
            lemma_stuck(skipped(a.rest));
            assert(values(a.rest).rest == skipped(a.rest));
        }
    }
}

proof fn lemma_combination_padded(name: Seq<char>, s: Seq<char>, t: Seq<char>, depth: nat)
    requires
        padded(s, t),
        depth <= MAX_DEPTH,
    ensures
        alike(combination(name, s, depth), combination(name, t, depth)),
    decreases MAX_DEPTH + 1 - depth, 1nat, s.len(),
{
    lemma_marks();
    lemma_eaten_padded(s, t, "("@);
    let (x, y) = (eaten(s, "("@), eaten(t, "("@));
    lemma_operands_padded(x, y, depth + 1);
    let (a, b) = (operands(x, depth + 1), operands(y, depth + 1));
    if a.result is Ok {
        if b.result is Ok {
            lemma_eaten_padded(a.rest, b.rest, ")"@);
        } else {
            lemma_stuck(a.rest);
        }
    }
}

proof fn lemma_operands_padded(s: Seq<char>, t: Seq<char>, depth: nat)
    requires
        padded(s, t),
    ensures
        nearly_alike(operands(s, depth), operands(t, depth)),
    decreases MAX_DEPTH + 1 - depth, 8nat, s.len(),
{
    lemma_marks();
    lemma_arith_padded(s, t, 0, depth);
    lemma_arith(s, 0, depth);
    lemma_arith(t, 0, depth);
    let (a, b) = (arith(s, 0, depth), arith(t, 0, depth));
    if a.result is Ok {
        if b.result is Ok {
            lemma_eaten_padded(a.rest, b.rest, ","@);
            lemma_eaten(a.rest, ","@);
            lemma_eaten(b.rest, ","@);
            if next_is(a.rest, ","@) {
                lemma_operands_padded(eaten(a.rest, ","@), eaten(b.rest, ","@), depth);
            }
        } else {
            lemma_stuck(a.rest);
        }
    }
}

// ----- composite expressions ----------------------------------------------------

proof fn lemma_disjunction_padded(s: Seq<char>, t: Seq<char>, depth: nat)
    requires
        padded(s, t),
    ensures
        alike(disjunction(s, depth), disjunction(t, depth)),
    decreases MAX_DEPTH + 1 - depth, 5nat, s.len(),
{
    if depth <= MAX_DEPTH {
        lemma_conjunction_padded(s, t, depth);
        let (a, b) = (conjunction(s, depth), conjunction(t, depth));
        if a.result is Ok {
            lemma_disjuncts_padded(a.result->Ok_0, a.rest, b.rest, depth);
        }
    }
}

proof fn lemma_disjuncts_padded(
    lhs: CompositeExprView,
    s: Seq<char>,
    t: Seq<char>,
    depth: nat,
)
    requires
        padded(s, t),
        depth <= MAX_DEPTH,
    ensures
        alike(disjuncts(lhs, s, depth), disjuncts(lhs, t, depth)),
    decreases MAX_DEPTH + 1 - depth, 4nat, s.len(),
{
    lemma_marks();
    lemma_eaten_padded(s, t, "||"@);
    if next_is(s, "||"@) {
        let (x, y) = (eaten(s, "||"@), eaten(t, "||"@));
        lemma_eaten(s, "||"@);
        lemma_eaten(t, "||"@);
        lemma_conjunction_padded(x, y, depth + 1);
        lemma_conjunction(x, depth + 1);
        lemma_conjunction(y, depth + 1);
        let (a, b) = (conjunction(x, depth + 1), conjunction(y, depth + 1));
        if a.result is Ok {
            let both = CompositeExprView::Binary {
                op: BoolOp::Or,
                lhs: Box::new(lhs),
                rhs: Box::new(a.result->Ok_0),
            };
            lemma_disjuncts_padded(both, a.rest, b.rest, depth);
        }
    }
}

proof fn lemma_conjunction_padded(s: Seq<char>, t: Seq<char>, depth: nat)
    requires
        padded(s, t),
    ensures
        alike(conjunction(s, depth), conjunction(t, depth)),
    decreases MAX_DEPTH + 1 - depth, 3nat, s.len(),
{
    if depth <= MAX_DEPTH {
        lemma_negation_padded(s, t, depth);
        let (a, b) = (negation(s, depth), negation(t, depth));
        if a.result is Ok {
            lemma_conjuncts_padded(a.result->Ok_0, a.rest, b.rest, depth);
        }
    }
}

proof fn lemma_conjuncts_padded(
    lhs: CompositeExprView,
    s: Seq<char>,
    t: Seq<char>,
    depth: nat,
)
    requires
        padded(s, t),
        depth <= MAX_DEPTH,
    ensures
        alike(conjuncts(lhs, s, depth), conjuncts(lhs, t, depth)),
    decreases MAX_DEPTH + 1 - depth, 2nat, s.len(),
{
    lemma_marks();
    lemma_eaten_padded(s, t, "&&"@);
    if next_is(s, "&&"@) {
        let (x, y) = (eaten(s, "&&"@), eaten(t, "&&"@));
        lemma_eaten(s, "&&"@);
        lemma_eaten(t, "&&"@);
        lemma_negation_padded(x, y, depth + 1);
        lemma_negation(x, depth + 1);
        lemma_negation(y, depth + 1);
        let (a, b) = (negation(x, depth + 1), negation(y, depth + 1));
        if a.result is Ok {
            let both = CompositeExprView::Binary {
                op: BoolOp::And,
                lhs: Box::new(lhs),
                rhs: Box::new(a.result->Ok_0),
            };
            lemma_conjuncts_padded(both, a.rest, b.rest, depth);
        }
    }
}

proof fn lemma_negation_padded(s: Seq<char>, t: Seq<char>, depth: nat)
    requires
        padded(s, t),
    ensures
        alike(negation(s, depth), negation(t, depth)),
    decreases MAX_DEPTH + 1 - depth, 1nat, s.len(),
{
    lemma_marks();
    lemma_eaten_padded(s, t, "!"@);
    lemma_eaten_padded(s, t, "("@);
    lemma_taken_padded(s, t, in_digits());
    if depth <= MAX_DEPTH {
        if next_is(s, "!"@) {
            lemma_negation_padded(eaten(s, "!"@), eaten(t, "!"@), depth + 1);
        } else if next_is(s, "("@) {
            let (x, y) = (eaten(s, "("@), eaten(t, "("@));
            lemma_disjunction_padded(x, y, depth + 1);
            let (a, b) = (disjunction(x, depth + 1), disjunction(y, depth + 1));
            if a.result is Ok {
                lemma_eaten_padded(a.rest, b.rest, ")"@);
            }
        }
    }
}

// ----- queries ------------------------------------------------------------------

proof fn lemma_quoted_in_parens_padded(s: Seq<char>, t: Seq<char>)
    requires
        padded(s, t),
    ensures
        alike(quoted_in_parens(s), quoted_in_parens(t)),
{
    lemma_marks();
    lemma_eaten_padded(s, t, "("@);
    let (x, y) = (eaten(s, "("@), eaten(t, "("@));
    lemma_quoting_padded(x, y);
    if quoting(x).result is Ok {
        lemma_eaten_padded(quoting(x).rest, quoting(y).rest, ")"@);
    }
}

proof fn lemma_search_methods_padded(parts: SearchParts, s: Seq<char>, t: Seq<char>)
    requires
        padded(s, t),
    ensures
        alike(search_methods(parts, s), search_methods(parts, t)),
    decreases s.len(),
{
    lemma_marks();
    lemma_eaten_padded(s, t, "."@);
    if next_is(s, "."@) {
        let (x, y) = (eaten(s, "."@), eaten(t, "."@));
        lemma_ident_padded(x, y);
        let (a, b) = (identifier(x), identifier(y));
        if a.result is Ok {
            lemma_eaten_padded(a.rest, b.rest, "("@);
            let (c, d) = (expecting(a.rest, "("@), expecting(b.rest, "("@));
            if c.result is Ok {
                lemma_args_padded(c.rest, d.rest);
                let (e, f) = (string_args(c.rest), string_args(d.rest));
                if e.result is Ok {
                    lemma_eaten(s, "."@);
                    lemma_untaken(x, in_ident());
                    lemma_eaten(a.rest, "("@);
                    lemma_string_args(c.rest);
                    let next = search_method(parts, a.result->Ok_0, e.result->Ok_0);
                    if next is Some {
                        lemma_search_methods_padded(next->Some_0, e.rest, f.rest);
                    }
                }
            }
        }
    }
}

proof fn lemma_search_padded(s: Seq<char>, t: Seq<char>)
    requires
        padded(s, t),
    ensures
        alike(search(s), search(t)),
{
    lemma_taken_padded(s, t, in_head());
    let (a, b) = (source(s), source(t));
    if a.result is Ok {
        lemma_quoted_in_parens_padded(a.rest, b.rest);
        let (c, d) = (quoted_in_parens(a.rest), quoted_in_parens(b.rest));
        if c.result is Ok {
            lemma_search_methods_padded(no_search_parts(), c.rest, d.rest);
            let (e, f) = (
                search_methods(no_search_parts(), c.rest),
                search_methods(no_search_parts(), d.rest),
            );
            if e.result is Ok {
                lemma_condition_padded(e.rest, f.rest);
            }
        }
    }
}

proof fn lemma_check_method_padded(
    parts: CheckParts,
    method: Seq<char>,
    s: Seq<char>,
    t: Seq<char>,
)
    requires
        padded(s, t),
    ensures
        alike(check_method(parts, method, s), check_method(parts, method, t)),
{
    lemma_args_padded(s, t);
    lemma_numbering_padded(s, t);
    let (a, b) = (numbering(s), numbering(t));
    if a.result is Ok {
        lemma_marks();
        lemma_eaten_padded(a.rest, b.rest, ")"@);
    }
    assert(alike(runs(s), runs(t)));
}

proof fn lemma_check_methods_padded(parts: CheckParts, s: Seq<char>, t: Seq<char>)
    requires
        padded(s, t),
    ensures
        alike(check_methods(parts, s), check_methods(parts, t)),
    decreases s.len(),
{
    lemma_marks();
    lemma_eaten_padded(s, t, "."@);
    if next_is(s, "."@) {
        let (x, y) = (eaten(s, "."@), eaten(t, "."@));
        lemma_ident_padded(x, y);
        let (a, b) = (identifier(x), identifier(y));
        if a.result is Ok {
            let method = a.result->Ok_0;
            lemma_eaten_padded(a.rest, b.rest, "("@);
            let (c, d) = (expecting(a.rest, "("@), expecting(b.rest, "("@));
            if c.result is Ok {
                lemma_check_method_padded(parts, method, c.rest, d.rest);
                let (e, f) = (
                    check_method(parts, method, c.rest),
                    check_method(parts, method, d.rest),
                );
                if e.result is Ok {
                    lemma_eaten(s, "."@);
                    lemma_untaken(x, in_ident());
                    lemma_eaten(a.rest, "("@);
                    lemma_check_method(parts, method, c.rest);
                    lemma_check_methods_padded(e.result->Ok_0, e.rest, f.rest);
                }
            }
        }
    }
}

proof fn lemma_check_padded(s: Seq<char>, t: Seq<char>)
    requires
        padded(s, t),
    ensures
        alike(check(s), check(t)),
{
    lemma_quoting_padded(s, t);
    if quoting(s).result is Ok {
        lemma_check_methods_padded(no_check_parts(), quoting(s).rest, quoting(t).rest);
    }
}

proof fn lemma_budget_window_padded(s: Seq<char>, t: Seq<char>)
    requires
        padded(s, t),
    ensures
        alike(budget_window(s), budget_window(t)),
{
    lemma_ident_padded(s, t);
    lemma_quoted_in_parens_padded(untaken(s, in_ident()), untaken(t, in_ident()));
}

proof fn lemma_slo_padded(s: Seq<char>, t: Seq<char>)
    requires
        padded(s, t),
    ensures
        alike(slo(s), slo(t)),
{
    lemma_marks();
    lemma_eaten_padded(s, t, "error_budget"@);
    let (x, y) = (eaten(s, "error_budget"@), eaten(t, "error_budget"@));
    lemma_quoted_in_parens_padded(x, y);
    let (a, b) = (quoted_in_parens(x), quoted_in_parens(y));
    if a.result is Ok {
        lemma_eaten_padded(a.rest, b.rest, "."@);
        let (u, v) = (eaten(a.rest, "."@), eaten(b.rest, "."@));
        lemma_budget_window_padded(u, v);
        if budget_window(u).result is Ok {
            lemma_condition_padded(budget_window(u).rest, budget_window(v).rest);
        }
    }
}

proof fn lemma_metric_body_padded(s: Seq<char>, t: Seq<char>)
    requires
        padded(s, t),
    ensures
        alike(metric_body(s), metric_body(t)),
{
    lemma_marks();
    lemma_eaten_padded(s, t, ":"@);
    let (x, y) = (eaten(s, ":"@), eaten(t, ":"@));
    lemma_arith_padded(x, y, 0, 0);
    let (a, b) = (arith(x, 0, 0), arith(y, 0, 0));
    if a.result is Ok {
        if b.result is Ok {
            lemma_condition_padded(a.rest, b.rest);
        } else {
            lemma_stuck(a.rest);
        }
    }
}

proof fn lemma_window_in_parens_padded(s: Seq<char>, t: Seq<char>)
    requires
        padded(s, t),
    ensures
        alike(window_in_parens(s), window_in_parens(t)),
{
    lemma_marks();
    lemma_eaten_padded(s, t, "("@);
    let (x, y) = (eaten(s, "("@), eaten(t, "("@));
    lemma_window_padded(x, y);
    if window(x).result is Ok {
        lemma_eaten_padded(window(x).rest, window(y).rest, ")"@);
    }
}

proof fn lemma_change_head_padded(s: Seq<char>, t: Seq<char>)
    requires
        padded(s, t),
    ensures
        alike(change_head(s), change_head(t)),
{
    lemma_marks();
    lemma_eaten_padded(s, t, "("@);
    let (x, y) = (eaten(s, "("@), eaten(t, "("@));
    lemma_ident_padded(x, y);
    let (a, b) = (identifier(x), identifier(y));
    lemma_window_in_parens_padded(a.rest, b.rest);
    let (c, d) = (window_in_parens(a.rest), window_in_parens(b.rest));
    if c.result is Ok {
        lemma_eaten_padded(c.rest, d.rest, ","@);
        let (u, v) = (eaten(c.rest, ","@), eaten(d.rest, ","@));
        lemma_window_padded(u, v);
        if window(u).result is Ok {
            lemma_eaten_padded(window(u).rest, window(v).rest, ")"@);
        }
    }
}

proof fn lemma_metric_padded(s: Seq<char>, t: Seq<char>)
    requires
        padded(s, t),
    ensures
        alike(metric(s), metric(t)),
{
    lemma_ident_padded(s, t);
    let (a, b) = (identifier(s), identifier(t));
    lemma_change_head_padded(a.rest, b.rest);
    let (c, d) = (change_head(a.rest), change_head(b.rest));
    if c.result is Ok {
        lemma_metric_body_padded(c.rest, d.rest);
    }
    lemma_window_in_parens_padded(a.rest, b.rest);
    let (e, f) = (window_in_parens(a.rest), window_in_parens(b.rest));
    if e.result is Ok {
        lemma_metric_body_padded(e.rest, f.rest);
    }
}

proof fn lemma_query_padded(s: Seq<char>, t: Seq<char>)
    requires
        padded(s, t),
    ensures
        alike(query(s), query(t)),
{
    let (x, y) = (skipped(s), skipped(t));
    lemma_skipped_padded(s, t);
    lemma_peeked_padded(x, y);
    lemma_taken_padded(x, y, in_head());
    assert(dialect(x) == dialect(y));
    match dialect(x) {
        Err(_) => {},
        Ok(Dialect::ServiceCheck) => lemma_check_padded(x, y),
        Ok(Dialect::Composite) => lemma_disjunction_padded(x, y, 0),
        Ok(Dialect::Slo) => lemma_slo_padded(x, y),
        Ok(Dialect::Search) => lemma_search_padded(x, y),
        Ok(Dialect::Metric) => lemma_metric_padded(x, y),
    }
}

proof fn lemma_whole_padded(s: Seq<char>, t: Seq<char>)
    requires
        padded(s, t),
    ensures
        whole(s).result is Ok <==> whole(t).result is Ok,
        whole(s).result matches Ok(q) ==> whole(t).result == Ok::<MonitorQueryView, Seq<char>>(q),
{
    lemma_query_padded(s, t);
    let (a, b) = (query(s), query(t));
    if a.result is Ok {
        lemma_skipped_padded(a.rest, b.rest);
        lemma_peeked_padded(skipped(a.rest), skipped(b.rest));
    }
}

/// White space before a text is skipped, and trimmed.
proof fn lemma_leading_spaces(w: Seq<char>, q: Seq<char>)
    requires
        spaces(w),
    ensures
        skipped(w + q) == skipped(q),
        trimmed(w + q) == trimmed(q),
{
    let s = w + q;
    lemma_run_behind(w, q, |c: char| ascii_white(c));
    lemma_run_behind(w, q, |c: char| white(c));
}

/// White space around a query changes nothing: with ASCII white space before it
/// and behind it, any text is read as the same query, or is refused where it was
/// refused.
pub proof fn law_white_space_around_a_query(before: Seq<char>, q: Seq<char>, behind: Seq<char>)
    requires
        spaces(before),
        spaces(behind),
    ensures
        parsed(before + q + behind) is Ok <==> parsed(q) is Ok,
        parsed(q) matches Ok(tree) ==> parsed(before + q + behind) == Ok::<
            MonitorQueryView,
            ParseErrorView,
        >(tree),
{
    let s = before + q;
    let t = before + q + behind;
    lemma_leading_spaces(before, q);
    assert(whole(s) == whole(q));
    lemma_padded(s, behind);
    lemma_trimmed_padded(s, t);
    lemma_whole_padded(s, t);
}

/// White space before a token changes nothing of how it is read.
pub proof fn law_white_space_before_tokens(w: Seq<char>, s: Seq<char>, lit: Seq<char>)
    requires
        spaces(w),
    ensures
        expecting(w + s, lit) == expecting(s, lit),
        identifier(w + s) == identifier(s),
        metric_name(w + s) == metric_name(s),
        window(w + s) == window(s),
        quoting(w + s) == quoting(s),
        numbering(w + s) == numbering(s),
        condition(w + s) == condition(s),
        scope(w + s) == scope(s),
        group_by(w + s) == group_by(s),
        modifiers(w + s) == modifiers(s),
        string_arg(w + s) == string_arg(s),
        string_args(w + s) == string_args(s),
        params(w + s) == params(s),
        values(w + s) == values(s),
        next_operator(w + s) == next_operator(s),
        source(w + s) == source(s),
        quoted_in_parens(w + s) == quoted_in_parens(s),
{
    lemma_leading_spaces(w, s);
    lemma_run_behind(w, s, |c: char| white(c));
    lemma_skipped_once(s);
}

/// White space before an operand, an expression or a boolean expression changes
/// nothing of how it is read.
pub proof fn law_white_space_before_expressions(
    w: Seq<char>,
    s: Seq<char>,
    least: u8,
    depth: nat,
)
    requires
        spaces(w),
        depth <= MAX_DEPTH,
        peeked(s) is Some,
    ensures
        term(w + s, depth) == term(s, depth),
        arith(w + s, least, depth) == arith(s, least, depth),
        negation(w + s, depth) == negation(s, depth),
        disjunction(w + s, depth) == disjunction(s, depth),
{
    let t = w + s;
    lemma_leading_spaces(w, s);
    lemma_run_behind(w, s, |c: char| white(c));
    assert(group(t, depth) == group(s, depth));
    assert(numbering(t) == numbering(s));
    assert(term_name(t) == term_name(s));
    assert(operand(t, depth) == operand(s, depth));
    assert(negation(t, depth) == negation(s, depth));
    assert(conjunction(t, depth) == conjunction(s, depth));
}

} // verus!
