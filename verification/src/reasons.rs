//! What every step of the grammar keeps: it never goes back in the text, the
//! reason of a failure is one line of printable ASCII, and expressions have the
//! shape that parsing gives.

use vstd::prelude::*;
use crate::ast::{
    BoolOp, CompositeExprView, FuncKind, MetricExprView, SearchSource, SpaceAgg, SpaceAggView,
};
use crate::cursor::{
    eaten, expected, expecting, next_is, number_span, numbering, peeked, quoting, skipped, taken,
    untaken, Step,
};
use crate::grammar::{
    arith, budget_window, call, change_head, check, check_method, check_methods, combination,
    combines, comparison, condition, conjunction, conjuncts, dialect, disjunction, disjuncts,
    fraction, function, group, group_by, identifier, in_digits, in_head, in_ident, in_scope_token,
    in_separator, lemma_check_method, lemma_eaten, lemma_param, lemma_param_value, lemma_skipped,
    lemma_string_arg, lemma_string_args, lemma_untaken, metric, metric_body, metric_name, modifiers,
    more_string_args, named_term, negation, next_operator, no_check_parts, no_search_parts,
    no_time_agg, operand, operands, operations, optional_scope, param, param_value, params,
    power_of, query, quoted_in_parens, scope, scope_tokens, search, search_end, search_method,
    search_methods, segments, series, series_term, slo, source, string_arg, string_args, term,
    term_name, too_deep, transform, values, whole, whole_rank, window, window_in_parens, CheckParts,
    Dialect, SearchParts, MAX_DEPTH,
};
use crate::text::{after_run, lemma_run};

verus! {

/// Characters that print on one line, within ASCII.
#[verifier::opaque]
pub open spec fn printable(s: Seq<char>) -> bool {
    forall|i: int| 0 <= i < s.len() ==> ' ' <= #[trigger] s[i] && s[i] <= '~'
}

/// A line of text: not empty, and without a line break.
pub open spec fn one_line(s: Seq<char>) -> bool {
    s.len() > 0 && printable(s)
}

/// A step that fails says why, in one line.
pub open spec fn tells<T>(step: Step<T>) -> bool {
    step.result matches Err(reason) ==> one_line(reason)
}

/// A step from `s` that fails says why in one line, and no step goes back.
pub open spec fn proper<T>(step: Step<T>, s: Seq<char>) -> bool {
    tells(step) && step.rest.len() <= s.len()
}

/// A reason that names something, before a closing backquote.
proof fn lemma_naming(prefix: Seq<char>, name: Seq<char>)
    requires
        one_line(prefix),
        printable(name),
    ensures
        one_line(prefix + name + "`"@),
{
    reveal(printable);
    reveal_strlit("`");
    let t = prefix + name + "`"@;
    assert forall|i: int| 0 <= i < t.len() implies ' ' <= #[trigger] t[i] && t[i] <= '~' by {
        if i < prefix.len() {
            assert(t[i] == prefix[i]);
        } else if i < prefix.len() + name.len() {
            assert(t[i] == name[i - prefix.len()]);
        }
    }
}

/// The literals that are expected are printable.
proof fn lemma_marks()
    ensures
        printable("("@),
        printable(")"@),
        printable("{"@),
        printable("}"@),
        printable(":"@),
        printable(","@),
        printable("."@),
        printable("error_budget"@),
{
    reveal(printable);
    reveal_strlit("(");
    reveal_strlit(")");
    reveal_strlit("{");
    reveal_strlit("}");
    reveal_strlit(":");
    reveal_strlit(",");
    reveal_strlit(".");
    reveal_strlit("error_budget");
}

proof fn lemma_expecting(s: Seq<char>, lit: Seq<char>)
    requires
        printable(lit),
    ensures
        proper(expecting(s, lit), s),
{
    lemma_eaten(s, lit);
    assert(one_line("expected `"@)) by {
        reveal(printable);
        reveal_strlit("expected `");
    }
    lemma_naming("expected `"@, lit);
}

proof fn lemma_taken(s: Seq<char>, p: spec_fn(char) -> bool)
    requires
        forall|c: char| #[trigger] p(c) ==> ' ' <= c && c <= '~',
    ensures
        printable(taken(s, p)),
{
    reveal(printable);
    let t = skipped(s);
    lemma_run(t, p);
    assert forall|i: int| 0 <= i < taken(s, p).len() implies ' ' <= #[trigger] taken(s, p)[i]
        && taken(s, p)[i] <= '~' by {
        assert(taken(s, p)[i] == t[i]);
        assert(p(t[i]));
    }
}

proof fn lemma_identifier(s: Seq<char>)
    ensures
        proper(identifier(s), s),
        printable(taken(s, in_ident())),
        identifier(s).result matches Ok(name) ==> printable(name),
{
    lemma_untaken(s, in_ident());
    assert(one_line("expected an identifier"@)) by {
        reveal(printable);
        reveal_strlit("expected an identifier");
    }
    lemma_taken(s, in_ident());
}

proof fn lemma_term_name(s: Seq<char>)
    ensures
        proper(term_name(s), s),
        term_name(s).result matches Ok(name) ==> printable(name),
{
    lemma_identifier(s);
    let id = identifier(s);
    if id.result is Ok && whole_rank(id.result->Ok_0) && fraction(id.rest) > 0 {
        let name = id.result->Ok_0;
        let rest = id.rest;
        let n = fraction(rest) as int;
        lemma_run(rest.skip(1), in_digits());
        let t = name + rest.take(n);
        reveal(printable);
        assert forall|i: int| 0 <= i < t.len() implies ' ' <= #[trigger] t[i] && t[i] <= '~' by {
            if i < name.len() {
                assert(t[i] == name[i]);
            } else if i > name.len() {
                let k = i - name.len() - 1;
                assert(t[i] == rest.skip(1)[k]);
                assert(in_digits()(rest.skip(1)[k]));
            }
        }
    } else if id.result is Ok && whole_rank(id.result->Ok_0) {
        assert(id.result->Ok_0 + id.rest.take(0) =~= id.result->Ok_0);
    }
}

proof fn lemma_span_printable(s: Seq<char>, signable: bool, pointed: bool)
    ensures
        number_span(s, signable, pointed) <= s.len(),
        printable(s.take(number_span(s, signable, pointed) as int)),
    decreases s.len(),
{
    reveal(printable);
    if s.len() > 0 {
        lemma_span_printable(s.skip(1), false, pointed);
        lemma_span_printable(s.skip(1), false, true);
        lemma_span_printable(s.skip(1), true, pointed);
        let n = number_span(s, signable, pointed);
        let t = s.take(n as int);
        assert forall|i: int| 0 <= i < t.len() implies ' ' <= #[trigger] t[i] && t[i] <= '~' by {
            if i > 0 {
                assert(t[i] == s.skip(1).take(n - 1)[i - 1]);
            }
        }
    }
}

proof fn lemma_numbering(s: Seq<char>)
    ensures
        proper(numbering(s), s),
{
    crate::grammar::lemma_numbering(s);
    assert(one_line("expected a number"@)) by {
        reveal(printable);
        reveal_strlit("expected a number");
    }
    assert(one_line("invalid number `"@)) by {
        reveal(printable);
        reveal_strlit("invalid number `");
    }
    let t = skipped(s);
    lemma_span_printable(t, true, false);
    lemma_naming("invalid number `"@, t.take(number_span(t, true, false) as int));
}

proof fn lemma_quoting(s: Seq<char>)
    ensures
        proper(quoting(s), s),
{
    crate::grammar::lemma_quoting(s);
    assert(one_line("unterminated quoted string"@)) by {
        reveal(printable);
        reveal_strlit("unterminated quoted string");
    }
    assert(one_line("expected a quoted string"@)) by {
        reveal(printable);
        reveal_strlit("expected a quoted string");
    }
}

proof fn lemma_window(s: Seq<char>)
    ensures
        proper(window(s), s),
{
    assert(one_line("invalid window `"@)) by {
        reveal(printable);
        reveal_strlit("invalid window `");
    }
    lemma_identifier(s);
    lemma_naming("invalid window `"@, taken(s, in_ident()));
}

proof fn lemma_condition(s: Seq<char>)
    ensures
        proper(condition(s), s),
{
    lemma_skipped(s);
    lemma_eaten(s, ">="@);
    lemma_eaten(s, "<="@);
    lemma_eaten(s, "=="@);
    lemma_eaten(s, "!="@);
    lemma_eaten(s, ">"@);
    lemma_eaten(s, "<"@);
    assert(one_line("expected a comparison operator"@)) by {
        reveal(printable);
        reveal_strlit("expected a comparison operator");
    }
    lemma_numbering(comparison(s).rest);
}

// ----- arguments and series -----------------------------------------------------

proof fn lemma_more_args(s: Seq<char>)
    ensures
        proper(more_string_args(s), s),
    decreases s.len(),
{
    lemma_marks();
    let arg = string_arg(s);
    lemma_quoting(skipped(s));
    lemma_string_arg(s);
    lemma_eaten(arg.rest, ","@);
    reveal_strlit(",");
    if arg.result is Ok && next_is(arg.rest, ","@) {
        lemma_more_args(eaten(arg.rest, ","@));
    } else {
        lemma_expecting(arg.rest, ")"@);
    }
}

proof fn lemma_args(s: Seq<char>)
    ensures
        proper(string_args(s), s),
{
    lemma_string_args(s);
    lemma_more_args(skipped(s));
}

proof fn lemma_value(s: Seq<char>)
    ensures
        proper(param_value(s), s),
{
    assert(one_line("expected a parameter value"@)) by {
        reveal(printable);
        reveal_strlit("expected a parameter value");
    }
    lemma_quoting(s);
    lemma_numbering(s);
    lemma_identifier(s);
}

proof fn lemma_one_param(s: Seq<char>)
    ensures
        proper(param(s), s),
{
    lemma_param(s);
    assert(one_line("expected a function parameter"@)) by {
        reveal(printable);
        reveal_strlit("expected a function parameter");
    }
    lemma_value(s);
    lemma_identifier(s);
    lemma_value(eaten(identifier(s).rest, "="@));
}

proof fn lemma_params(s: Seq<char>)
    ensures
        proper(params(s), s),
    decreases s.len(),
{
    lemma_eaten(s, ","@);
    let t = eaten(s, ","@);
    lemma_one_param(t);
    if next_is(s, ","@) && param(t).result is Ok {
        reveal_strlit(",");
        lemma_param(t);
        lemma_params(param(t).rest);
    }
}

proof fn lemma_values(s: Seq<char>)
    ensures
        proper(values(s), s),
    decreases s.len(),
{
    lemma_eaten(s, ","@);
    let t = eaten(s, ","@);
    lemma_value(t);
    if next_is(s, ","@) && param_value(t).result is Ok {
        reveal_strlit(",");
        lemma_param_value(t);
        lemma_values(param_value(t).rest);
    }
}

proof fn lemma_scope_tokens(s: Seq<char>)
    ensures
        scope_tokens(s).1.len() <= s.len(),
    decreases s.len(),
{
    let t = after_run(s, in_separator());
    lemma_run(s, in_separator());
    if t.len() > 0 && t[0] != '}' {
        lemma_run(t, in_scope_token());
        lemma_scope_tokens(after_run(t, in_scope_token()));
    }
}

proof fn lemma_segments(s: Seq<char>)
    ensures
        segments(s).1.len() <= s.len(),
    decreases s.len(),
{
    if s.len() > 0 && s[0] == '.' {
        lemma_untaken(s.skip(1), in_ident());
        lemma_segments(untaken(s.skip(1), in_ident()));
    }
}

proof fn lemma_scope(s: Seq<char>)
    ensures
        proper(scope(s), s),
{
    lemma_scope_tokens(expecting(s, "{"@).rest);
    lemma_marks();
    let open = expecting(s, "{"@);
    lemma_expecting(s, "{"@);
    lemma_expecting(scope_tokens(open.rest).1, "}"@);
}

proof fn lemma_modifiers(s: Seq<char>)
    ensures
        proper(modifiers(s), s),
    decreases s.len(),
{
    lemma_skipped(s);
    let t = skipped(s);
    if t.len() > 0 && t[0] == '.' {
        let id = identifier(t.skip(1));
        let open = expecting(id.rest, "("@);
        let a = string_args(open.rest);
        lemma_marks();
        lemma_identifier(t.skip(1));
        lemma_expecting(id.rest, "("@);
        lemma_args(open.rest);
        if id.result is Ok && open.result is Ok && a.result is Ok {
            lemma_modifiers(a.rest);
        }
    }
}

proof fn lemma_metric_name(s: Seq<char>)
    ensures
        proper(metric_name(s), s),
{
    assert(one_line("expected a metric name"@)) by {
        reveal(printable);
        reveal_strlit("expected a metric name");
    }
    lemma_untaken(s, in_ident());
    lemma_segments(untaken(s, in_ident()));
}

proof fn lemma_group_by(s: Seq<char>)
    ensures
        proper(group_by(s), s),
{
    let t = skipped(s);
    lemma_skipped(s);
    if t.len() > 2 {
        lemma_scope(t.skip(2));
    }
}

proof fn lemma_series(aggregation: SpaceAggView, s: Seq<char>)
    ensures
        proper(series(aggregation, s), s),
{
    lemma_metric_name(s);
    let name = metric_name(s);
    lemma_scope(name.rest);
    let f = optional_scope(name.rest);
    lemma_group_by(f.rest);
    lemma_modifiers(group_by(f.rest).rest);
}

// ----- expressions --------------------------------------------------------------

/// What parsing gives of an expression: every combination is by an aggregator
/// and of two expressions or more, and no change stands below the root.
pub open spec fn shaped(e: MetricExprView) -> bool
    decreases e,
{
    match e {
        MetricExprView::Series(_) => true,
        MetricExprView::Function { name, arg, params } => shaped(*arg),
        MetricExprView::Transform { name, arg, args } => shaped(*arg),
        MetricExprView::Combine { name, args } => combines(name) && args.len() >= 2 && all_shaped(
            args,
        ),
        MetricExprView::Arith { op, lhs, rhs } => shaped(*lhs) && shaped(*rhs),
        MetricExprView::Change { kind, inner_agg, shift, arg } => false,
        MetricExprView::Scalar(_) => true,
    }
}

/// Every expression of a list has the shape that parsing gives.
pub open spec fn all_shaped(list: Seq<MetricExprView>) -> bool
    decreases list,
{
    list.len() == 0 || (all_shaped(list.drop_last()) && shaped(list.last()))
}

/// A proper step that reads an expression, which has that shape.
pub open spec fn gives(step: Step<MetricExprView>, s: Seq<char>) -> bool {
    proper(step, s) && (step.result matches Ok(e) ==> shaped(e))
}

proof fn lemma_all_shaped(list: Seq<MetricExprView>, more: Seq<MetricExprView>)
    requires
        all_shaped(list),
        all_shaped(more),
    ensures
        all_shaped(list + more),
    decreases more.len(),
{
    if more.len() > 0 {
        lemma_all_shaped(list, more.drop_last());
        assert((list + more).drop_last() =~= list + more.drop_last());
        assert((list + more).last() == more.last());
    } else {
        assert(list + more =~= list);
    }
}

proof fn lemma_shaped_at(list: Seq<MetricExprView>, i: int)
    requires
        all_shaped(list),
        0 <= i < list.len(),
    ensures
        shaped(list[i]),
    decreases list.len(),
{
    if i < list.len() - 1 {
        lemma_shaped_at(list.drop_last(), i);
    }
}

proof fn lemma_deep()
    ensures
        one_line(too_deep()),
{
    assert(one_line("maximum nesting depth exceeded"@)) by {
        reveal(printable);
        reveal_strlit("maximum nesting depth exceeded");
    }
}

/// Reading an expression is a proper step.
pub proof fn lemma_arith(s: Seq<char>, least: u8, depth: nat)
    ensures
        gives(arith(s, least, depth), s),
    decreases MAX_DEPTH + 1 - depth, 7nat, s.len(),
{
    lemma_deep();
    if depth <= MAX_DEPTH {
        lemma_term(s, depth);
        let t = term(s, depth);
        if t.result is Ok {
            lemma_operations(t.result->Ok_0, t.rest, least, depth);
        }
    }
}

proof fn lemma_operations(lhs: MetricExprView, s: Seq<char>, least: u8, depth: nat)
    requires
        shaped(lhs),
        depth <= MAX_DEPTH,
    ensures
        gives(operations(lhs, s, least, depth), s),
    decreases MAX_DEPTH + 1 - depth, 6nat, s.len(),
{
    match next_operator(s) {
        Some(op) => if power_of(op).0 >= least {
            let t = eaten(s, op.token());
            lemma_eaten(s, op.token());
            lemma_arith(t, power_of(op).1, depth + 1);
            let r = arith(t, power_of(op).1, depth + 1);
            if r.result is Ok {
                let both = MetricExprView::Arith {
                    op,
                    lhs: Box::new(lhs),
                    rhs: Box::new(r.result->Ok_0),
                };
                assert(shaped(both));
                if r.rest.len() < s.len() {
                    lemma_operations(both, r.rest, least, depth);
                }
            }
        },
        None => {},
    }
}

/// Reading an operand is a proper step.
pub proof fn lemma_term(s: Seq<char>, depth: nat)
    ensures
        gives(term(s, depth), s),
    decreases MAX_DEPTH + 1 - depth, 5nat, s.len(),
{
    lemma_deep();
    if depth <= MAX_DEPTH {
        lemma_operand(s, depth);
    }
}

proof fn lemma_operand(s: Seq<char>, depth: nat)
    requires
        depth <= MAX_DEPTH,
    ensures
        gives(operand(s, depth), s),
    decreases MAX_DEPTH + 1 - depth, 4nat, s.len(),
{
    assert(one_line("unexpected end of expression"@)) by {
        reveal(printable);
        reveal_strlit("unexpected end of expression");
    }
    lemma_group(s, depth);
    lemma_numbering(s);
    lemma_term_name(s);
    let id = term_name(s);
    if id.result is Ok {
        lemma_named_term(id.result->Ok_0, id.rest, depth);
    }
}

proof fn lemma_group(s: Seq<char>, depth: nat)
    requires
        depth <= MAX_DEPTH,
    ensures
        gives(group(s, depth), s),
    decreases MAX_DEPTH + 1 - depth, 1nat, s.len(),
{
    lemma_marks();
    lemma_expecting(s, "("@);
    let open = expecting(s, "("@);
    lemma_arith(open.rest, 0, depth + 1);
    lemma_expecting(arith(open.rest, 0, depth + 1).rest, ")"@);
}

proof fn lemma_series_term(name: Seq<char>, s: Seq<char>)
    requires
        printable(name),
    ensures
        gives(series_term(name, s), s),
{
    assert(one_line("invalid space aggregation `"@)) by {
        reveal(printable);
        reveal_strlit("invalid space aggregation `");
    }
    lemma_naming("invalid space aggregation `"@, name);
    lemma_marks();
    lemma_expecting(s, ":"@);
    match SpaceAgg::of_token(name) {
        Some(aggregation) => {
            lemma_series(aggregation, expecting(s, ":"@).rest);
        },
        None => {},
    }
}

proof fn lemma_named_term(name: Seq<char>, s: Seq<char>, depth: nat)
    requires
        printable(name),
        depth <= MAX_DEPTH,
    ensures
        gives(named_term(name, s, depth), s),
    decreases MAX_DEPTH + 1 - depth, 3nat, s.len(),
{
    if peeked(s) == Some(':') {
        lemma_series_term(name, s);
    } else if peeked(s) == Some('(') {
        lemma_call(name, s, depth);
    } else {
        assert(one_line("expected `:` or `(` after `"@)) by {
            reveal(printable);
            reveal_strlit("expected `:` or `(` after `");
        }
        lemma_naming("expected `:` or `(` after `"@, name);
    }
}

proof fn lemma_call(name: Seq<char>, s: Seq<char>, depth: nat)
    requires
        depth <= MAX_DEPTH,
    ensures
        gives(call(name, s, depth), s),
    decreases MAX_DEPTH + 1 - depth, 2nat, s.len(),
{
    match FuncKind::of_token(name) {
        Some(kind) => {
            lemma_function(kind, s, depth);
        },
        None => {
            if combines(name) {
                lemma_combination(name, s, depth);
            } else {
                lemma_transform(name, s, depth);
            }
        },
    }
}

proof fn lemma_function(name: FuncKind, s: Seq<char>, depth: nat)
    requires
        depth <= MAX_DEPTH,
    ensures
        gives(function(name, s, depth), s),
    decreases MAX_DEPTH + 1 - depth, 1nat, s.len(),
{
    lemma_marks();
    lemma_expecting(s, "("@);
    let open = expecting(s, "("@);
    lemma_arith(open.rest, 0, depth + 1);
    let inner = arith(open.rest, 0, depth + 1);
    lemma_params(inner.rest);
    lemma_expecting(params(inner.rest).rest, ")"@);
}

proof fn lemma_transform(name: Seq<char>, s: Seq<char>, depth: nat)
    requires
        depth <= MAX_DEPTH,
    ensures
        gives(transform(name, s, depth), s),
    decreases MAX_DEPTH + 1 - depth, 1nat, s.len(),
{
    lemma_marks();
    lemma_expecting(s, "("@);
    let open = expecting(s, "("@);
    lemma_arith(open.rest, 0, depth + 1);
    let inner = arith(open.rest, 0, depth + 1);
    lemma_values(inner.rest);
    lemma_expecting(values(inner.rest).rest, ")"@);
}

proof fn lemma_combination(name: Seq<char>, s: Seq<char>, depth: nat)
    requires
        combines(name),
        depth <= MAX_DEPTH,
    ensures
        gives(combination(name, s, depth), s),
    decreases MAX_DEPTH + 1 - depth, 1nat, s.len(),
{
    lemma_marks();
    lemma_expecting(s, "("@);
    let open = expecting(s, "("@);
    lemma_operands(open.rest, depth + 1);
    let list = operands(open.rest, depth + 1);
    lemma_expecting(list.rest, ")"@);
    if list.result is Ok {
        lemma_shaped_at(list.result->Ok_0, 0);
    }
}

proof fn lemma_operands(s: Seq<char>, depth: nat)
    ensures
        proper(operands(s, depth), s),
        operands(s, depth).result matches Ok(list) ==> list.len() > 0 && all_shaped(list),
    decreases MAX_DEPTH + 1 - depth, 8nat, s.len(),
{
    lemma_eaten(arith(s, 0, depth).rest, ","@);
    lemma_arith(s, 0, depth);
    let first = arith(s, 0, depth);
    let rest = eaten(first.rest, ","@);
    if first.result is Ok {
        let e = first.result->Ok_0;
        assert(seq![e].drop_last() =~= seq![]);
        assert(all_shaped(seq![e].drop_last()));
        assert(all_shaped(seq![e]));
        if next_is(first.rest, ","@) && rest.len() < s.len() {
            lemma_operands(rest, depth);
            let more = operands(rest, depth);
            if more.result is Ok {
                lemma_all_shaped(seq![e], more.result->Ok_0);
            }
        }
    }
}

proof fn lemma_disjunction(s: Seq<char>, depth: nat)
    ensures
        proper(disjunction(s, depth), s),
    decreases MAX_DEPTH + 1 - depth, 5nat, s.len(),
{
    lemma_deep();
    if depth <= MAX_DEPTH {
        lemma_conjunction(s, depth);
        let first = conjunction(s, depth);
        if first.result is Ok {
            lemma_disjuncts(first.result->Ok_0, first.rest, depth);
        }
    }
}

proof fn lemma_disjuncts(lhs: CompositeExprView, s: Seq<char>, depth: nat)
    requires
        depth <= MAX_DEPTH,
    ensures
        proper(disjuncts(lhs, s, depth), s),
    decreases MAX_DEPTH + 1 - depth, 4nat, s.len(),
{
    lemma_eaten(s, "||"@);
    if next_is(s, "||"@) {
        let t = eaten(s, "||"@);
        lemma_conjunction(t, depth + 1);
        let r = conjunction(t, depth + 1);
        if r.result is Ok && r.rest.len() < s.len() {
            lemma_disjuncts(
                CompositeExprView::Binary {
                    op: BoolOp::Or,
                    lhs: Box::new(lhs),
                    rhs: Box::new(r.result->Ok_0),
                },
                r.rest,
                depth,
            );
        }
    }
}

/// Reading a conjunction is a proper step.
pub proof fn lemma_conjunction(s: Seq<char>, depth: nat)
    ensures
        proper(conjunction(s, depth), s),
    decreases MAX_DEPTH + 1 - depth, 3nat, s.len(),
{
    lemma_deep();
    if depth <= MAX_DEPTH {
        lemma_negation(s, depth);
        let first = negation(s, depth);
        if first.result is Ok {
            lemma_conjuncts(first.result->Ok_0, first.rest, depth);
        }
    }
}

proof fn lemma_conjuncts(lhs: CompositeExprView, s: Seq<char>, depth: nat)
    requires
        depth <= MAX_DEPTH,
    ensures
        proper(conjuncts(lhs, s, depth), s),
    decreases MAX_DEPTH + 1 - depth, 2nat, s.len(),
{
    lemma_eaten(s, "&&"@);
    if next_is(s, "&&"@) {
        let t = eaten(s, "&&"@);
        lemma_negation(t, depth + 1);
        let r = negation(t, depth + 1);
        if r.result is Ok && r.rest.len() < s.len() {
            lemma_conjuncts(
                CompositeExprView::Binary {
                    op: BoolOp::And,
                    lhs: Box::new(lhs),
                    rhs: Box::new(r.result->Ok_0),
                },
                r.rest,
                depth,
            );
        }
    }
}

/// Reading a negation is a proper step.
pub proof fn lemma_negation(s: Seq<char>, depth: nat)
    ensures
        proper(negation(s, depth), s),
    decreases MAX_DEPTH + 1 - depth, 1nat, s.len(),
{
    lemma_untaken(s, in_digits());
    lemma_eaten(s, "!"@);
    lemma_eaten(s, "("@);
    lemma_deep();
    assert(one_line("expected a monitor id"@)) by {
        reveal(printable);
        reveal_strlit("expected a monitor id");
    }
    lemma_marks();
    if depth <= MAX_DEPTH {
        if next_is(s, "!"@) {
            lemma_negation(eaten(s, "!"@), depth + 1);
        } else if next_is(s, "("@) {
            lemma_disjunction(eaten(s, "("@), depth + 1);
            lemma_expecting(disjunction(eaten(s, "("@), depth + 1).rest, ")"@);
        }
    }
}

// ----- queries ------------------------------------------------------------------

proof fn lemma_quoted_in_parens(s: Seq<char>)
    ensures
        proper(quoted_in_parens(s), s),
{
    lemma_marks();
    let open = expecting(s, "("@);
    lemma_expecting(s, "("@);
    lemma_quoting(open.rest);
    lemma_expecting(quoting(open.rest).rest, ")"@);
}

proof fn lemma_search_methods(parts: SearchParts, s: Seq<char>)
    ensures
        proper(search_methods(parts, s), s),
    decreases s.len(),
{
    lemma_eaten(s, "."@);
    if next_is(s, "."@) {
        let t = eaten(s, "."@);
        let id = identifier(t);
        let open = expecting(id.rest, "("@);
        let a = string_args(open.rest);
        lemma_marks();
        lemma_identifier(t);
        lemma_expecting(id.rest, "("@);
        lemma_args(open.rest);
        if id.result is Ok && open.result is Ok && a.result is Ok {
            assert(one_line("unknown search method `"@)) by {
                reveal(printable);
                reveal_strlit("unknown search method `");
            }
            lemma_naming("unknown search method `"@, id.result->Ok_0);
            match search_method(parts, id.result->Ok_0, a.result->Ok_0) {
                Some(next) => {
                    reveal_strlit(".");
                    lemma_eaten(s, "."@);
                    lemma_untaken(t, in_ident());
                    lemma_eaten(id.rest, "("@);
                    lemma_string_args(open.rest);
                    lemma_search_methods(next, a.rest);
                },
                None => {},
            }
        }
    }
}

proof fn lemma_source(s: Seq<char>)
    ensures
        proper(source(s), s),
{
    lemma_untaken(s, in_head());
    assert(one_line("invalid search source `"@)) by {
        reveal(printable);
        reveal_strlit("invalid search source `");
    }
    lemma_taken(s, in_head());
    lemma_naming("invalid search source `"@, taken(s, in_head()));
}

proof fn lemma_search_end(
    place: SearchSource,
    raw_search: Seq<char>,
    parts: SearchParts,
    s: Seq<char>,
)
    ensures
        proper(search_end(place, raw_search, parts, s), s),
{
    assert(one_line("search query missing `.rollup(...)`"@)) by {
        reveal(printable);
        reveal_strlit("search query missing `.rollup(...)`");
    }
    assert(one_line("search query missing `.last(...)`"@)) by {
        reveal(printable);
        reveal_strlit("search query missing `.last(...)`");
    }
    lemma_condition(s);
}

proof fn lemma_search(s: Seq<char>)
    ensures
        proper(search(s), s),
{
    lemma_source(s);
    let from = source(s);
    if from.result is Ok {
        lemma_quoted_in_parens(from.rest);
        let q = quoted_in_parens(from.rest);
        if q.result is Ok {
            lemma_search_methods(no_search_parts(), q.rest);
            let m = search_methods(no_search_parts(), q.rest);
            if m.result is Ok {
                lemma_search_end(from.result->Ok_0, q.result->Ok_0, m.result->Ok_0, m.rest);
            }
        }
    }
}

proof fn lemma_one_check_method(parts: CheckParts, method: Seq<char>, s: Seq<char>)
    requires
        printable(method),
    ensures
        proper(check_method(parts, method, s), s),
{
    assert(one_line("unknown check method `"@)) by {
        reveal(printable);
        reveal_strlit("unknown check method `");
    }
    assert(one_line("`.last(n)` must be a non-negative integer"@)) by {
        reveal(printable);
        reveal_strlit("`.last(n)` must be a non-negative integer");
    }
    lemma_naming("unknown check method `"@, method);
    lemma_args(s);
    lemma_numbering(s);
    lemma_marks();
    lemma_expecting(numbering(s).rest, ")"@);
}

proof fn lemma_check_methods(parts: CheckParts, s: Seq<char>)
    ensures
        proper(check_methods(parts, s), s),
    decreases s.len(),
{
    lemma_eaten(s, "."@);
    if next_is(s, "."@) {
        let t = eaten(s, "."@);
        let id = identifier(t);
        let open = expecting(id.rest, "("@);
        lemma_marks();
        lemma_identifier(t);
        lemma_expecting(id.rest, "("@);
        if id.result is Ok && open.result is Ok {
            let method = id.result->Ok_0;
            lemma_one_check_method(parts, method, open.rest);
            let m = check_method(parts, method, open.rest);
            if m.result is Ok {
                reveal_strlit(".");
                lemma_eaten(s, "."@);
                lemma_untaken(t, in_ident());
                lemma_eaten(id.rest, "("@);
                lemma_check_method(parts, method, open.rest);
                lemma_check_methods(m.result->Ok_0, m.rest);
            }
        }
    }
}

proof fn lemma_check(s: Seq<char>)
    ensures
        proper(check(s), s),
{
    assert(one_line("check query missing `.last(n)`"@)) by {
        reveal(printable);
        reveal_strlit("check query missing `.last(n)`");
    }
    assert(one_line("check query missing `.count_by_status()`"@)) by {
        reveal(printable);
        reveal_strlit("check query missing `.count_by_status()`");
    }
    lemma_quoting(s);
    lemma_check_methods(no_check_parts(), quoting(s).rest);
}

proof fn lemma_slo(s: Seq<char>)
    ensures
        proper(slo(s), s),
{
    lemma_marks();
    let head = expecting(s, "error_budget"@);
    lemma_expecting(s, "error_budget"@);
    let q = quoted_in_parens(head.rest);
    lemma_quoted_in_parens(head.rest);
    let dot = expecting(q.rest, "."@);
    lemma_expecting(q.rest, "."@);
    let m = identifier(dot.rest);
    lemma_identifier(dot.rest);
    lemma_quoted_in_parens(m.rest);
    if m.result is Ok {
        assert(one_line("expected `.over(...)`, found `."@)) by {
            reveal(printable);
            reveal_strlit("expected `.over(...)`, found `.");
        }
        lemma_naming("expected `.over(...)`, found `."@, m.result->Ok_0);
    }
    lemma_condition(budget_window(dot.rest).rest);
}

proof fn lemma_metric_body(s: Seq<char>)
    ensures
        proper(metric_body(s), s),
        metric_body(s).result matches Ok((expr, _)) ==> shaped(expr),
{
    lemma_marks();
    let mark = expecting(s, ":"@);
    lemma_expecting(s, ":"@);
    lemma_arith(mark.rest, 0, 0);
    lemma_condition(arith(mark.rest, 0, 0).rest);
}

proof fn lemma_window_in_parens(s: Seq<char>)
    ensures
        proper(window_in_parens(s), s),
{
    lemma_marks();
    let open = expecting(s, "("@);
    lemma_expecting(s, "("@);
    lemma_window(open.rest);
    lemma_expecting(window(open.rest).rest, ")"@);
}

proof fn lemma_no_time_agg(name: Seq<char>)
    requires
        printable(name),
    ensures
        one_line(no_time_agg(name)),
{
    assert(one_line("invalid time aggregation `"@)) by {
        reveal(printable);
        reveal_strlit("invalid time aggregation `");
    }
    lemma_naming("invalid time aggregation `"@, name);
}

proof fn lemma_change_head(s: Seq<char>)
    ensures
        proper(change_head(s), s),
{
    lemma_marks();
    let open = expecting(s, "("@);
    lemma_expecting(s, "("@);
    let id = identifier(open.rest);
    lemma_identifier(open.rest);
    if id.result is Ok {
        lemma_no_time_agg(id.result->Ok_0);
    }
    let w = window_in_parens(id.rest);
    lemma_window_in_parens(id.rest);
    let comma = expecting(w.rest, ","@);
    lemma_expecting(w.rest, ","@);
    lemma_window(comma.rest);
    lemma_expecting(window(comma.rest).rest, ")"@);
}

/// Reading a metric query is a proper step, and gives an expression of the shape
/// that parsing gives, below a change at most.
pub proof fn lemma_metric(s: Seq<char>)
    ensures
        proper(metric(s), s),
        metric(s).result matches Ok(m) ==> match m.expr {
            MetricExprView::Change { kind, inner_agg, shift, arg } => shaped(*arg),
            other => shaped(other),
        },
{
    let id = identifier(s);
    lemma_identifier(s);
    if id.result is Ok {
        let name = id.result->Ok_0;
        lemma_no_time_agg(name);
        lemma_change_head(id.rest);
        lemma_metric_body(change_head(id.rest).rest);
        lemma_window_in_parens(id.rest);
        lemma_metric_body(window_in_parens(id.rest).rest);
    }
}

proof fn lemma_dialect(t: Seq<char>)
    ensures
        dialect(t) matches Err(reason) ==> one_line(reason),
{
    assert(one_line("empty query"@)) by {
        reveal(printable);
        reveal_strlit("empty query");
    }
    assert(one_line("unrecognized query"@)) by {
        reveal(printable);
        reveal_strlit("unrecognized query");
    }
    assert(one_line("unrecognized query head `"@)) by {
        reveal(printable);
        reveal_strlit("unrecognized query head `");
    }
    lemma_taken(t, in_head());
    lemma_naming("unrecognized query head `"@, taken(t, in_head()));
}

proof fn lemma_query(s: Seq<char>)
    ensures
        tells(query(s)),
{
    let t = skipped(s);
    lemma_dialect(t);
    match dialect(t) {
        Err(_) => {},
        Ok(Dialect::ServiceCheck) => {
            lemma_check(t);
        },
        Ok(Dialect::Composite) => {
            lemma_disjunction(t, 0);
        },
        Ok(Dialect::Slo) => {
            lemma_slo(t);
        },
        Ok(Dialect::Search) => {
            lemma_search(t);
        },
        Ok(Dialect::Metric) => {
            lemma_metric(t);
        },
    }
}

/// A query that is not read to its end says why.
pub proof fn lemma_whole(s: Seq<char>)
    ensures
        tells(whole(s)),
{
    lemma_query(s);
    assert(one_line("unexpected trailing input"@)) by {
        reveal(printable);
        reveal_strlit("unexpected trailing input");
    }
}

} // verus!
