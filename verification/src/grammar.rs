//! The grammar of monitor queries.
//!
//! Each function of this module says what one production reads from the
//! characters `s` that remain: a value or the reason of a failure, and what
//! remains then. The parser is proved to compute these functions.

use vstd::prelude::*;
use crate::ast::{
    ArithOp, BoolOp, ChangeKind, CheckQueryView, CmpOp, CompositeExprView, Condition, FilterView,
    FuncKind, FuncParamView, MetricExprView, MetricQueryView, ModifierView, MonitorQueryView,
    ParamValueView, Scalar, SearchQueryView, SearchSource, SeriesView, SloQueryView, SpaceAgg,
    SpaceAggView, TimeAgg, WindowView,
};
use crate::binary64::Binary64;
use crate::cursor::{
    done, eaten, error_at, expecting, fail, next_is, numbering, peeked, quoting, skipped, taken,
    unquoted, untaken, Step,
};
use crate::error::ParseErrorView;
use crate::text::{
    after_run, ascii_white, begins, digit, ident_char, lemma_run, run, the_run, trimmed,
    trimmed_start, white,
};
use crate::window::window_of;

verus! {

/// The greatest depth of nesting: what is nested deeper is rejected.
pub const MAX_DEPTH: usize = 128;

/// `front` before the list that a step gives.
pub open spec fn attached<T>(front: Seq<T>, step: Step<Seq<T>>) -> Step<Seq<T>> {
    match step.result {
        Ok(back) => done(front + back, step.rest),
        Err(reason) => step,
    }
}

// ----- tokens -------------------------------------------------------------------

/// The characters of an identifier.
pub open spec fn in_ident() -> spec_fn(char) -> bool {
    |c: char| ident_char(c)
}

/// The characters of the name that a query begins with.
pub open spec fn in_head() -> spec_fn(char) -> bool {
    |c: char| ident_char(c) || c == '-'
}

/// The decimal digits.
pub open spec fn in_digits() -> spec_fn(char) -> bool {
    |c: char| digit(c)
}

/// The separators of filters: commas and white space.
pub open spec fn in_separator() -> spec_fn(char) -> bool {
    |c: char| c == ',' || white(c)
}

/// The characters of a filter or of a grouping tag.
pub open spec fn in_scope_token() -> spec_fn(char) -> bool {
    |c: char| c != ',' && c != '}' && !white(c)
}

/// The characters of an argument without quotes.
pub open spec fn in_bare_arg() -> spec_fn(char) -> bool {
    |c: char| c != ',' && c != ')'
}

/// Whether `c` begins a quoted string.
pub open spec fn opens_quote(c: char) -> bool {
    c == '"' || c == '\''
}

/// Whether `c` begins a number.
pub open spec fn opens_number(c: char) -> bool {
    digit(c) || c == '+' || c == '-' || c == '.'
}

/// An identifier.
pub open spec fn identifier(s: Seq<char>) -> Step<Seq<char>> {
    let id = taken(s, in_ident());
    if id.len() == 0 {
        fail("expected an identifier"@, untaken(s, in_ident()))
    } else {
        done(id, untaken(s, in_ident()))
    }
}

/// Whether `name` is `p` and a whole rank.
pub open spec fn whole_rank(name: Seq<char>) -> bool {
    &&& name.len() >= 2
    &&& name[0] == 'p'
    &&& forall|i: int| 1 <= i < name.len() ==> digit(#[trigger] name[i])
}

/// The length of a fraction `.digits` before a `:`, 0 if there is none.
pub open spec fn fraction(s: Seq<char>) -> nat {
    if s.len() > 0 && s[0] == '.' {
        let n = run(s.skip(1), in_digits());
        if n > 0 && peeked(s.skip(1 + n as int)) == Some(':') {
            1 + n
        } else {
            0
        }
    } else {
        0
    }
}

/// The name at the head of a term: an identifier, or a fractional percentile
/// as in `p99.9:`.
pub open spec fn term_name(s: Seq<char>) -> Step<Seq<char>> {
    let id = identifier(s);
    match id.result {
        Ok(name) => if whole_rank(name) {
            let n = fraction(id.rest) as int;
            done(name + id.rest.take(n), id.rest.skip(n))
        } else {
            id
        },
        Err(_) => id,
    }
}

/// A window.
pub open spec fn window(s: Seq<char>) -> Step<WindowView> {
    let raw = taken(s, in_ident());
    match window_of(raw) {
        Some(w) => done(w, untaken(s, in_ident())),
        None => fail("invalid window `"@ + raw + "`"@, untaken(s, in_ident())),
    }
}

/// The segments `.b.c` that continue a metric name, and what follows them. A
/// segment before a `(` is the name of a modifier instead.
pub open spec fn segments(s: Seq<char>) -> (Seq<char>, Seq<char>)
    decreases s.len(),
{
    if s.len() > 0 && s[0] == '.' {
        let name = taken(s.skip(1), in_ident());
        let after = untaken(s.skip(1), in_ident());
        proof {
            lemma_untaken(s.skip(1), in_ident());
        }
        if name.len() == 0 || (after.len() > 0 && after[0] == '(') {
            (seq![], s)
        } else {
            let (more, rest) = segments(after);
            (seq!['.'] + name + more, rest)
        }
    } else {
        (seq![], s)
    }
}

/// A dotted metric name.
pub open spec fn metric_name(s: Seq<char>) -> Step<Seq<char>> {
    let first = taken(s, in_ident());
    if first.len() == 0 {
        fail("expected a metric name"@, untaken(s, in_ident()))
    } else {
        let (more, rest) = segments(untaken(s, in_ident()));
        done(first + more, rest)
    }
}

/// A comparison operator.
pub open spec fn comparison(s: Seq<char>) -> Step<CmpOp> {
    if next_is(s, ">="@) {
        done(CmpOp::Ge, eaten(s, ">="@))
    } else if next_is(s, "<="@) {
        done(CmpOp::Le, eaten(s, "<="@))
    } else if next_is(s, "=="@) {
        done(CmpOp::Eq, eaten(s, "=="@))
    } else if next_is(s, "!="@) {
        done(CmpOp::Ne, eaten(s, "!="@))
    } else if next_is(s, ">"@) {
        done(CmpOp::Gt, eaten(s, ">"@))
    } else if next_is(s, "<"@) {
        done(CmpOp::Lt, eaten(s, "<"@))
    } else {
        fail("expected a comparison operator"@, skipped(s))
    }
}

/// The condition that compares with `x`, without further thresholds.
pub open spec fn critical_at(operator: CmpOp, x: Binary64) -> Condition {
    Condition {
        operator,
        critical: Scalar { value: x },
        critical_recovery: None,
        warning: None,
        warning_recovery: None,
    }
}

/// A condition: an operator and a threshold.
pub open spec fn condition(s: Seq<char>) -> Step<Condition> {
    let op = comparison(s);
    match op.result {
        Err(reason) => fail(reason, op.rest),
        Ok(operator) => {
            let n = numbering(op.rest);
            match n.result {
                Err(reason) => fail(reason, n.rest),
                Ok(x) => done(critical_at(operator, x), n.rest),
            }
        },
    }
}

// ----- arguments ----------------------------------------------------------------

/// One argument: a quoted string, or what stands before the next `,` or `)`.
pub open spec fn string_arg(s: Seq<char>) -> Step<Seq<char>> {
    let t = skipped(s);
    match peeked(t) {
        Some(c) if opens_quote(c) => quoting(t),
        _ => done(trimmed(taken(t, in_bare_arg())), untaken(t, in_bare_arg())),
    }
}

/// One or more arguments, through the closing `)`.
pub open spec fn more_string_args(s: Seq<char>) -> Step<Seq<Seq<char>>>
    decreases s.len(),
{
    let arg = string_arg(s);
    match arg.result {
        Err(reason) => fail(reason, arg.rest),
        Ok(value) => {
            proof {
                lemma_string_arg(s);
                lemma_eaten(arg.rest, ","@);
                reveal_strlit(",");
            }
            if next_is(arg.rest, ","@) {
                attached(seq![value], more_string_args(eaten(arg.rest, ","@)))
            } else {
                let close = expecting(arg.rest, ")"@);
                match close.result {
                    Err(reason) => fail(reason, close.rest),
                    Ok(_) => done(seq![value], close.rest),
                }
            }
        },
    }
}

/// The arguments after an opening `(`, through the closing `)`.
pub open spec fn string_args(s: Seq<char>) -> Step<Seq<Seq<char>>> {
    if next_is(s, ")"@) {
        done(seq![], eaten(s, ")"@))
    } else {
        more_string_args(skipped(s))
    }
}

/// What a word without quotes stands for.
pub open spec fn bareword(word: Seq<char>) -> ParamValueView {
    if word == "true"@ {
        ParamValueView::Bool(true)
    } else if word == "false"@ {
        ParamValueView::Bool(false)
    } else {
        ParamValueView::Str(word)
    }
}

/// The value of a parameter: a quoted string, a number or a word.
pub open spec fn param_value(s: Seq<char>) -> Step<ParamValueView> {
    match peeked(s) {
        None => fail("expected a parameter value"@, s),
        Some(c) => if opens_quote(c) {
            let q = quoting(s);
            match q.result {
                Err(reason) => fail(reason, q.rest),
                Ok(text) => done(ParamValueView::Str(text), q.rest),
            }
        } else if opens_number(c) {
            let n = numbering(s);
            match n.result {
                Err(reason) => fail(reason, n.rest),
                Ok(x) => done(ParamValueView::Number(x), n.rest),
            }
        } else {
            let id = identifier(s);
            match id.result {
                Err(reason) => fail(reason, id.rest),
                Ok(word) => done(bareword(word), id.rest),
            }
        },
    }
}

/// A positional parameter.
pub open spec fn positional(value: ParamValueView) -> FuncParamView {
    FuncParamView { key: None, value }
}

/// A parameter of an evaluation function: positional, or `key=value`.
pub open spec fn param(s: Seq<char>) -> Step<FuncParamView> {
    match peeked(s) {
        None => fail("expected a function parameter"@, s),
        Some(c) => if opens_quote(c) || opens_number(c) {
            let v = param_value(s);
            match v.result {
                Err(reason) => fail(reason, v.rest),
                Ok(value) => done(positional(value), v.rest),
            }
        } else {
            let id = identifier(s);
            match id.result {
                Err(reason) => fail(reason, id.rest),
                Ok(word) => if next_is(id.rest, "="@) {
                    let v = param_value(eaten(id.rest, "="@));
                    match v.result {
                        Err(reason) => fail(reason, v.rest),
                        Ok(value) => done(FuncParamView { key: Some(word), value }, v.rest),
                    }
                } else {
                    done(positional(bareword(word)), eaten(id.rest, "="@))
                },
            }
        },
    }
}

/// The parameters of an evaluation function, each after a `,`.
pub open spec fn params(s: Seq<char>) -> Step<Seq<FuncParamView>>
    decreases s.len(),
{
    if next_is(s, ","@) {
        let p = param(eaten(s, ","@));
        match p.result {
            Err(reason) => fail(reason, p.rest),
            Ok(value) => {
                proof {
                    reveal_strlit(",");
                    lemma_eaten(s, ","@);
                    lemma_param(eaten(s, ","@));
                }
                attached(seq![value], params(p.rest))
            },
        }
    } else {
        done(seq![], eaten(s, ","@))
    }
}

/// The arguments of a transform, each after a `,`.
pub open spec fn values(s: Seq<char>) -> Step<Seq<ParamValueView>>
    decreases s.len(),
{
    if next_is(s, ","@) {
        let v = param_value(eaten(s, ","@));
        match v.result {
            Err(reason) => fail(reason, v.rest),
            Ok(value) => {
                proof {
                    reveal_strlit(",");
                    lemma_eaten(s, ","@);
                    lemma_param_value(eaten(s, ","@));
                }
                attached(seq![value], values(v.rest))
            },
        }
    } else {
        done(seq![], eaten(s, ","@))
    }
}

// ----- series -------------------------------------------------------------------

/// The tokens between braces, up to the closing `}` or the end.
pub open spec fn scope_tokens(s: Seq<char>) -> (Seq<Seq<char>>, Seq<char>)
    decreases s.len(),
{
    let t = after_run(s, in_separator());
    if t.len() == 0 || t[0] == '}' {
        (seq![], t)
    } else {
        proof {
            lemma_run(s, in_separator());
            lemma_run(t, in_scope_token());
        }
        let (more, rest) = scope_tokens(after_run(t, in_scope_token()));
        (seq![the_run(t, in_scope_token())] + more, rest)
    }
}

/// The position of the first `:` in `s`, its length if there is none.
pub open spec fn colon(s: Seq<char>) -> nat {
    run(s, |c: char| c != ':')
}

/// What a scope token stands for: `*` for everything, `key:value` or
/// `!key:value` for a tag, anything else for a glob.
pub open spec fn filter(token: Seq<char>) -> FilterView {
    if token == "*"@ {
        FilterView::All
    } else {
        let negated = token.len() > 0 && token[0] == '!';
        let body = if negated {
            token.skip(1)
        } else {
            token
        };
        let n = colon(body);
        if n < body.len() {
            FilterView::Tag { negated, key: body.take(n as int), value: body.skip(n as int + 1) }
        } else {
            FilterView::Glob(token)
        }
    }
}

/// The filters of a list of scope tokens.
pub open spec fn filters(tokens: Seq<Seq<char>>) -> Seq<FilterView> {
    tokens.map_values(|t: Seq<char>| filter(t))
}

/// Tokens in braces.
pub open spec fn scope(s: Seq<char>) -> Step<Seq<Seq<char>>> {
    let open = expecting(s, "{"@);
    match open.result {
        Err(reason) => fail(reason, open.rest),
        Ok(_) => {
            let (tokens, rest) = scope_tokens(open.rest);
            let close = expecting(rest, "}"@);
            match close.result {
                Err(reason) => fail(reason, close.rest),
                Ok(_) => done(tokens, close.rest),
            }
        },
    }
}

/// Whether `by` and then white space or `{` comes first.
pub open spec fn begins_grouping(t: Seq<char>) -> bool {
    begins(t, "by"@) && t.len() > 2 && (white(t[2]) || t[2] == '{')
}

/// The grouping tags of `by {...}`, none without it.
pub open spec fn group_by(s: Seq<char>) -> Step<Seq<Seq<char>>> {
    let t = skipped(s);
    if begins_grouping(t) {
        scope(t.skip(2))
    } else {
        done(seq![], t)
    }
}

/// Postfix modifiers `.name(args)`.
pub open spec fn modifiers(s: Seq<char>) -> Step<Seq<ModifierView>>
    decreases s.len(),
{
    let t = skipped(s);
    if t.len() > 0 && t[0] == '.' {
        let id = identifier(t.skip(1));
        match id.result {
            Err(reason) => fail(reason, id.rest),
            Ok(name) => {
                let open = expecting(id.rest, "("@);
                match open.result {
                    Err(reason) => fail(reason, open.rest),
                    Ok(_) => {
                        let a = string_args(open.rest);
                        match a.result {
                            Err(reason) => fail(reason, a.rest),
                            Ok(args) => {
                                proof {
                                    lemma_skipped(s);
                                    lemma_untaken(t.skip(1), in_ident());
                                    lemma_eaten(id.rest, "("@);
                                    lemma_string_args(open.rest);
                                }
                                attached(seq![ModifierView { name, args }], modifiers(a.rest))
                            },
                        }
                    },
                }
            },
        }
    } else {
        done(seq![], t)
    }
}

/// The scope of a series, empty without braces.
pub open spec fn optional_scope(s: Seq<char>) -> Step<Seq<Seq<char>>> {
    if peeked(s) == Some('{') {
        scope(s)
    } else {
        done(seq![], s)
    }
}

/// A series, after the aggregation and its `:`.
pub open spec fn series(aggregation: SpaceAggView, s: Seq<char>) -> Step<SeriesView> {
    let name = metric_name(s);
    match name.result {
        Err(reason) => fail(reason, name.rest),
        Ok(metric) => {
            let f = optional_scope(name.rest);
            match f.result {
                Err(reason) => fail(reason, f.rest),
                Ok(tokens) => {
                    let g = group_by(f.rest);
                    match g.result {
                        Err(reason) => fail(reason, g.rest),
                        Ok(tags) => {
                            let m = modifiers(g.rest);
                            match m.result {
                                Err(reason) => fail(reason, m.rest),
                                Ok(list) => done(
                                    SeriesView {
                                        space_aggregation: aggregation,
                                        metric,
                                        filter: filters(tokens),
                                        group_by: tags,
                                        modifiers: list,
                                    },
                                    m.rest,
                                ),
                            }
                        },
                    }
                },
            }
        },
    }
}

// ----- metric expressions -------------------------------------------------------

/// The reason why what is nested too deep is rejected.
pub open spec fn too_deep() -> Seq<char> {
    "maximum nesting depth exceeded"@
}

/// The arithmetic operator that comes next, if any.
pub open spec fn next_operator(s: Seq<char>) -> Option<ArithOp> {
    match peeked(s) {
        Some('+') => Some(ArithOp::Add),
        Some('-') => Some(ArithOp::Sub),
        Some('*') => Some(ArithOp::Mul),
        Some('/') => Some(ArithOp::Div),
        _ => None,
    }
}

/// How tightly an operator binds to its left and to its right: `*` and `/`
/// bind tighter than `+` and `-`, and all associate to the left.
pub open spec fn power_of(op: ArithOp) -> (u8, u8) {
    match op {
        ArithOp::Add | ArithOp::Sub => (1, 2),
        ArithOp::Mul | ArithOp::Div => (3, 4),
    }
}

/// The names of the aggregators that combine several expressions.
pub open spec fn combines(name: Seq<char>) -> bool {
    name == "avg"@ || name == "sum"@ || name == "min"@ || name == "max"@ || name == "count"@
}

/// What an aggregator applied to `operands` stands for: with one operand, or
/// with numbers behind the first, a transform of the first; otherwise a
/// combination of all.
pub open spec fn combined(name: Seq<char>, operands: Seq<MetricExprView>) -> MetricExprView {
    if forall|i: int| 1 <= i < operands.len() ==> (#[trigger] operands[i]) is Scalar {
        MetricExprView::Transform {
            name,
            arg: Box::new(operands[0]),
            args: Seq::new(
                (operands.len() - 1) as nat,
                |i: int| ParamValueView::Number(operands[i + 1]->Scalar_0.value),
            ),
        }
    } else {
        MetricExprView::Combine { name, args: operands }
    }
}

/// An arithmetic expression whose operators bind at least as tightly as
/// `least`.
pub open spec fn arith(s: Seq<char>, least: u8, depth: nat) -> Step<MetricExprView>
    decreases MAX_DEPTH + 1 - depth, 7nat, s.len(),
{
    if depth > MAX_DEPTH {
        fail(too_deep(), s)
    } else {
        let t = term(s, depth);
        match t.result {
            Err(reason) => t,
            Ok(lhs) => operations(lhs, t.rest, least, depth),
        }
    }
}

/// The operations that follow the operand `lhs`. (What remains behind an
/// operation is shorter than what it was read from, so that the reading ends.)
pub open spec fn operations(lhs: MetricExprView, s: Seq<char>, least: u8, depth: nat) -> Step<
    MetricExprView,
>
    decreases MAX_DEPTH + 1 - depth, 6nat, s.len(),
    when depth <= MAX_DEPTH
{
    match next_operator(s) {
        Some(op) if power_of(op).0 >= least => {
            let r = arith(eaten(s, op.token()), power_of(op).1, depth + 1);
            match r.result {
                Err(reason) => r,
                Ok(rhs) => {
                    let both = MetricExprView::Arith { op, lhs: Box::new(lhs), rhs: Box::new(rhs) };
                    if r.rest.len() < s.len() {
                        operations(both, r.rest, least, depth)
                    } else {
                        done(both, r.rest)
                    }
                },
            }
        },
        _ => done(lhs, s),
    }
}

/// An operand: an expression in parentheses, a number, a series or a call.
pub open spec fn term(s: Seq<char>, depth: nat) -> Step<MetricExprView>
    decreases MAX_DEPTH + 1 - depth, 5nat, s.len(),
{
    if depth > MAX_DEPTH {
        fail(too_deep(), s)
    } else {
        operand(s, depth)
    }
}

/// An operand at a depth that may be nested.
pub open spec fn operand(s: Seq<char>, depth: nat) -> Step<MetricExprView>
    decreases MAX_DEPTH + 1 - depth, 4nat, s.len(),
    when depth <= MAX_DEPTH
{
    match peeked(s) {
        None => fail("unexpected end of expression"@, s),
        Some(c) => if c == '(' {
            group(s, depth)
        } else if opens_number(c) {
            let n = numbering(s);
            match n.result {
                Err(reason) => fail(reason, n.rest),
                Ok(x) => done(MetricExprView::Scalar(Scalar { value: x }), n.rest),
            }
        } else {
            let id = term_name(s);
            match id.result {
                Err(reason) => fail(reason, id.rest),
                Ok(name) => named_term(name, id.rest, depth),
            }
        },
    }
}

/// An expression in parentheses.
pub open spec fn group(s: Seq<char>, depth: nat) -> Step<MetricExprView>
    decreases MAX_DEPTH + 1 - depth, 1nat, s.len(),
    when depth <= MAX_DEPTH
{
    let open = expecting(s, "("@);
    match open.result {
        Err(reason) => fail(reason, open.rest),
        Ok(_) => {
            let inner = arith(open.rest, 0, depth + 1);
            match inner.result {
                Err(reason) => inner,
                Ok(expr) => {
                    let close = expecting(inner.rest, ")"@);
                    match close.result {
                        Err(reason) => fail(reason, close.rest),
                        Ok(_) => done(expr, close.rest),
                    }
                },
            }
        },
    }
}

/// A series whose aggregation is `name`, from the `:` on.
pub open spec fn series_term(name: Seq<char>, s: Seq<char>) -> Step<MetricExprView> {
    match SpaceAgg::of_token(name) {
        None => fail("invalid space aggregation `"@ + name + "`"@, s),
        Some(aggregation) => {
            let mark = expecting(s, ":"@);
            match mark.result {
                Err(reason) => fail(reason, mark.rest),
                Ok(_) => {
                    let r = series(aggregation, mark.rest);
                    match r.result {
                        Err(reason) => fail(reason, r.rest),
                        Ok(value) => done(MetricExprView::Series(value), r.rest),
                    }
                },
            }
        },
    }
}

/// An operand that begins with `name`.
pub open spec fn named_term(name: Seq<char>, s: Seq<char>, depth: nat) -> Step<MetricExprView>
    decreases MAX_DEPTH + 1 - depth, 3nat, s.len(),
    when depth <= MAX_DEPTH
{
    if peeked(s) == Some(':') {
        series_term(name, s)
    } else if peeked(s) == Some('(') {
        call(name, s, depth)
    } else {
        fail("expected `:` or `(` after `"@ + name + "`"@, s)
    }
}

/// A call of `name`, from the `(` on: of an evaluation function, of an aggregator
/// or of a transform.
pub open spec fn call(name: Seq<char>, s: Seq<char>, depth: nat) -> Step<MetricExprView>
    decreases MAX_DEPTH + 1 - depth, 2nat, s.len(),
    when depth <= MAX_DEPTH
{
    match FuncKind::of_token(name) {
        Some(kind) => function(kind, s, depth),
        None => if combines(name) {
            combination(name, s, depth)
        } else {
            transform(name, s, depth)
        },
    }
}

/// The call of an evaluation function.
pub open spec fn function(name: FuncKind, s: Seq<char>, depth: nat) -> Step<MetricExprView>
    decreases MAX_DEPTH + 1 - depth, 1nat, s.len(),
    when depth <= MAX_DEPTH
{
    let open = expecting(s, "("@);
    match open.result {
        Err(reason) => fail(reason, open.rest),
        Ok(_) => {
            let inner = arith(open.rest, 0, depth + 1);
            match inner.result {
                Err(reason) => inner,
                Ok(arg) => {
                    let p = params(inner.rest);
                    match p.result {
                        Err(reason) => fail(reason, p.rest),
                        Ok(list) => {
                            let close = expecting(p.rest, ")"@);
                            match close.result {
                                Err(reason) => fail(reason, close.rest),
                                Ok(_) => done(
                                    MetricExprView::Function {
                                        name,
                                        arg: Box::new(arg),
                                        params: list,
                                    },
                                    close.rest,
                                ),
                            }
                        },
                    }
                },
            }
        },
    }
}

/// The call of a transform.
pub open spec fn transform(name: Seq<char>, s: Seq<char>, depth: nat) -> Step<MetricExprView>
    decreases MAX_DEPTH + 1 - depth, 1nat, s.len(),
    when depth <= MAX_DEPTH
{
    let open = expecting(s, "("@);
    match open.result {
        Err(reason) => fail(reason, open.rest),
        Ok(_) => {
            let inner = arith(open.rest, 0, depth + 1);
            match inner.result {
                Err(reason) => inner,
                Ok(arg) => {
                    let v = values(inner.rest);
                    match v.result {
                        Err(reason) => fail(reason, v.rest),
                        Ok(args) => {
                            let close = expecting(v.rest, ")"@);
                            match close.result {
                                Err(reason) => fail(reason, close.rest),
                                Ok(_) => done(
                                    MetricExprView::Transform { name, arg: Box::new(arg), args },
                                    close.rest,
                                ),
                            }
                        },
                    }
                },
            }
        },
    }
}

/// The call of an aggregator.
pub open spec fn combination(name: Seq<char>, s: Seq<char>, depth: nat) -> Step<MetricExprView>
    decreases MAX_DEPTH + 1 - depth, 1nat, s.len(),
    when depth <= MAX_DEPTH
{
    let open = expecting(s, "("@);
    match open.result {
        Err(reason) => fail(reason, open.rest),
        Ok(_) => {
            let list = operands(open.rest, depth + 1);
            match list.result {
                Err(reason) => fail(reason, list.rest),
                Ok(exprs) => {
                    let close = expecting(list.rest, ")"@);
                    match close.result {
                        Err(reason) => fail(reason, close.rest),
                        Ok(_) => done(combined(name, exprs), close.rest),
                    }
                },
            }
        },
    }
}

/// One or more expressions, separated by `,`.
pub open spec fn operands(s: Seq<char>, depth: nat) -> Step<Seq<MetricExprView>>
    decreases MAX_DEPTH + 1 - depth, 8nat, s.len(),
{
    let first = arith(s, 0, depth);
    match first.result {
        Err(reason) => fail(reason, first.rest),
        Ok(expr) => {
            let rest = eaten(first.rest, ","@);
            if next_is(first.rest, ","@) && rest.len() < s.len() {
                attached(seq![expr], operands(rest, depth))
            } else {
                done(seq![expr], rest)
            }
        },
    }
}

// ----- composite expressions ----------------------------------------------------

/// Alternatives, joined by `||`.
pub open spec fn disjunction(s: Seq<char>, depth: nat) -> Step<CompositeExprView>
    decreases MAX_DEPTH + 1 - depth, 5nat, s.len(),
{
    if depth > MAX_DEPTH {
        fail(too_deep(), s)
    } else {
        let first = conjunction(s, depth);
        match first.result {
            Err(reason) => first,
            Ok(lhs) => disjuncts(lhs, first.rest, depth),
        }
    }
}

/// The alternatives that follow `lhs`.
pub open spec fn disjuncts(lhs: CompositeExprView, s: Seq<char>, depth: nat) -> Step<
    CompositeExprView,
>
    decreases MAX_DEPTH + 1 - depth, 4nat, s.len(),
    when depth <= MAX_DEPTH
{
    if next_is(s, "||"@) {
        let r = conjunction(eaten(s, "||"@), depth + 1);
        match r.result {
            Err(reason) => r,
            Ok(rhs) => {
                let both = CompositeExprView::Binary {
                    op: BoolOp::Or,
                    lhs: Box::new(lhs),
                    rhs: Box::new(rhs),
                };
                if r.rest.len() < s.len() {
                    disjuncts(both, r.rest, depth)
                } else {
                    done(both, r.rest)
                }
            },
        }
    } else {
        done(lhs, eaten(s, "||"@))
    }
}

/// Conjuncts, joined by `&&`.
pub open spec fn conjunction(s: Seq<char>, depth: nat) -> Step<CompositeExprView>
    decreases MAX_DEPTH + 1 - depth, 3nat, s.len(),
{
    if depth > MAX_DEPTH {
        fail(too_deep(), s)
    } else {
        let first = negation(s, depth);
        match first.result {
            Err(reason) => first,
            Ok(lhs) => conjuncts(lhs, first.rest, depth),
        }
    }
}

/// The conjuncts that follow `lhs`.
pub open spec fn conjuncts(lhs: CompositeExprView, s: Seq<char>, depth: nat) -> Step<
    CompositeExprView,
>
    decreases MAX_DEPTH + 1 - depth, 2nat, s.len(),
    when depth <= MAX_DEPTH
{
    if next_is(s, "&&"@) {
        let r = negation(eaten(s, "&&"@), depth + 1);
        match r.result {
            Err(reason) => r,
            Ok(rhs) => {
                let both = CompositeExprView::Binary {
                    op: BoolOp::And,
                    lhs: Box::new(lhs),
                    rhs: Box::new(rhs),
                };
                if r.rest.len() < s.len() {
                    conjuncts(both, r.rest, depth)
                } else {
                    done(both, r.rest)
                }
            },
        }
    } else {
        done(lhs, eaten(s, "&&"@))
    }
}

/// A negation, an expression in parentheses or the id of a monitor.
pub open spec fn negation(s: Seq<char>, depth: nat) -> Step<CompositeExprView>
    decreases MAX_DEPTH + 1 - depth, 1nat, s.len(),
{
    if depth > MAX_DEPTH {
        fail(too_deep(), s)
    } else if next_is(s, "!"@) {
        let r = negation(eaten(s, "!"@), depth + 1);
        match r.result {
            Err(reason) => r,
            Ok(inner) => done(CompositeExprView::Not(Box::new(inner)), r.rest),
        }
    } else if next_is(s, "("@) {
        let r = disjunction(eaten(s, "("@), depth + 1);
        match r.result {
            Err(reason) => r,
            Ok(inner) => {
                let close = expecting(r.rest, ")"@);
                match close.result {
                    Err(reason) => fail(reason, close.rest),
                    Ok(_) => done(inner, close.rest),
                }
            },
        }
    } else {
        let id = taken(s, in_digits());
        if id.len() == 0 {
            fail("expected a monitor id"@, untaken(s, in_digits()))
        } else {
            done(CompositeExprView::Ref(id), untaken(s, in_digits()))
        }
    }
}

// ----- search queries -----------------------------------------------------------

/// The source that `name` stands for.
pub open spec fn source_of(name: Seq<char>) -> Option<SearchSource> {
    if name == "logs"@ {
        Some(SearchSource::Logs)
    } else if name == "events"@ {
        Some(SearchSource::Events)
    } else if name == "rum"@ {
        Some(SearchSource::Rum)
    } else if name == "error-tracking"@ {
        Some(SearchSource::ErrorTracking)
    } else {
        None
    }
}

/// The source of a search.
pub open spec fn source(s: Seq<char>) -> Step<SearchSource> {
    let name = taken(s, in_head());
    match source_of(name) {
        Some(value) => done(value, untaken(s, in_head())),
        None => fail("invalid search source `"@ + name + "`"@, untaken(s, in_head())),
    }
}

/// What the methods of a search have set.
pub struct SearchParts {
    pub index: Option<Seq<char>>,
    pub rollup_method: Option<Seq<char>>,
    pub rollup_arg: Option<Seq<char>>,
    pub group_by: Seq<Seq<char>>,
    pub last: Option<Seq<char>>,
}

/// Nothing is set.
pub open spec fn no_search_parts() -> SearchParts {
    SearchParts {
        index: None,
        rollup_method: None,
        rollup_arg: None,
        group_by: seq![],
        last: None,
    }
}

/// The `i`th argument, if there is one.
pub open spec fn arg_at(args: Seq<Seq<char>>, i: int) -> Option<Seq<char>> {
    if i < args.len() {
        Some(args[i])
    } else {
        None
    }
}

/// What a method of a search sets: a later call replaces an earlier one, and
/// an empty index is none. Nothing for a method that does not exist.
pub open spec fn search_method(parts: SearchParts, method: Seq<char>, args: Seq<Seq<char>>) -> Option<
    SearchParts,
> {
    if method == "index"@ {
        let index = if args.len() > 0 && args[0].len() > 0 {
            Some(args[0])
        } else {
            None
        };
        Some(SearchParts { index, ..parts })
    } else if method == "rollup"@ {
        Some(
            SearchParts {
                rollup_method: arg_at(args, 0),
                rollup_arg: arg_at(args, 1),
                ..parts
            },
        )
    } else if method == "by"@ {
        Some(SearchParts { group_by: args, ..parts })
    } else if method == "last"@ {
        Some(SearchParts { last: arg_at(args, 0), ..parts })
    } else {
        None
    }
}

/// The methods of a search.
pub open spec fn search_methods(parts: SearchParts, s: Seq<char>) -> Step<SearchParts>
    decreases s.len(),
{
    if next_is(s, "."@) {
        let id = identifier(eaten(s, "."@));
        match id.result {
            Err(reason) => fail(reason, id.rest),
            Ok(method) => {
                let open = expecting(id.rest, "("@);
                match open.result {
                    Err(reason) => fail(reason, open.rest),
                    Ok(_) => {
                        let a = string_args(open.rest);
                        match a.result {
                            Err(reason) => fail(reason, a.rest),
                            Ok(args) => match search_method(parts, method, args) {
                                None => fail("unknown search method `"@ + method + "`"@, a.rest),
                                Some(next) => {
                                    proof {
                                        reveal_strlit(".");
                                        lemma_eaten(s, "."@);
                                        lemma_untaken(eaten(s, "."@), in_ident());
                                        lemma_eaten(id.rest, "("@);
                                        lemma_string_args(open.rest);
                                    }
                                    search_methods(next, a.rest)
                                },
                            },
                        }
                    },
                }
            },
        }
    } else {
        done(parts, eaten(s, "."@))
    }
}

/// The end of a search: what has to be set, and the condition.
pub open spec fn search_end(
    source: SearchSource,
    raw_search: Seq<char>,
    parts: SearchParts,
    s: Seq<char>,
) -> Step<SearchQueryView> {
    match (parts.rollup_method, parts.last) {
        (None, _) => fail("search query missing `.rollup(...)`"@, s),
        (Some(_), None) => fail("search query missing `.last(...)`"@, s),
        (Some(rollup_method), Some(last)) => {
            let c = condition(s);
            match c.result {
                Err(reason) => fail(reason, c.rest),
                Ok(condition) => done(
                    SearchQueryView {
                        source,
                        raw_search,
                        index: parts.index,
                        rollup_method,
                        rollup_arg: parts.rollup_arg,
                        group_by: parts.group_by,
                        last,
                        condition,
                    },
                    c.rest,
                ),
            }
        },
    }
}

/// A quoted string in parentheses.
pub open spec fn quoted_in_parens(s: Seq<char>) -> Step<Seq<char>> {
    let open = expecting(s, "("@);
    match open.result {
        Err(reason) => fail(reason, open.rest),
        Ok(_) => {
            let q = quoting(open.rest);
            match q.result {
                Err(reason) => q,
                Ok(text) => {
                    let close = expecting(q.rest, ")"@);
                    match close.result {
                        Err(reason) => fail(reason, close.rest),
                        Ok(_) => done(text, close.rest),
                    }
                },
            }
        },
    }
}

/// A search query.
pub open spec fn search(s: Seq<char>) -> Step<SearchQueryView> {
    let from = source(s);
    match from.result {
        Err(reason) => fail(reason, from.rest),
        Ok(place) => {
            let q = quoted_in_parens(from.rest);
            match q.result {
                Err(reason) => fail(reason, q.rest),
                Ok(raw_search) => {
                    let m = search_methods(no_search_parts(), q.rest);
                    match m.result {
                        Err(reason) => fail(reason, m.rest),
                        Ok(parts) => search_end(place, raw_search, parts, m.rest),
                    }
                },
            }
        },
    }
}

// ----- service checks -----------------------------------------------------------

/// What the methods of a service check have set.
pub struct CheckParts {
    pub over: Seq<Seq<char>>,
    pub by: Seq<Seq<char>>,
    pub last: Option<u32>,
    pub counted: bool,
}

/// Nothing is set.
pub open spec fn no_check_parts() -> CheckParts {
    CheckParts { over: seq![], by: seq![], last: None, counted: false }
}

/// The number of runs after `.last(`, through the closing `)`.
pub open spec fn runs(s: Seq<char>) -> Step<u32> {
    let n = numbering(s);
    match n.result {
        Err(reason) => fail(reason, n.rest),
        Ok(x) => {
            let close = expecting(n.rest, ")"@);
            match close.result {
                Err(reason) => fail(reason, close.rest),
                Ok(_) => match x.as_u32() {
                    Some(count) => done(count, close.rest),
                    None => fail("`.last(n)` must be a non-negative integer"@, close.rest),
                },
            }
        },
    }
}

/// What a method of a service check sets, from its arguments on.
pub open spec fn check_method(parts: CheckParts, method: Seq<char>, s: Seq<char>) -> Step<
    CheckParts,
> {
    if method == "over"@ || method == "by"@ || method == "count_by_status"@ {
        let a = string_args(s);
        match a.result {
            Err(reason) => fail(reason, a.rest),
            Ok(args) => done(
                if method == "over"@ {
                    CheckParts { over: args, ..parts }
                } else if method == "by"@ {
                    CheckParts { by: args, ..parts }
                } else {
                    CheckParts { counted: true, ..parts }
                },
                a.rest,
            ),
        }
    } else if method == "last"@ {
        let n = runs(s);
        match n.result {
            Err(reason) => fail(reason, n.rest),
            Ok(count) => done(CheckParts { last: Some(count), ..parts }, n.rest),
        }
    } else {
        fail("unknown check method `"@ + method + "`"@, s)
    }
}

/// Reading a method of a service check does not lengthen the rest.
pub proof fn lemma_check_method(parts: CheckParts, method: Seq<char>, s: Seq<char>)
    ensures
        check_method(parts, method, s).rest.len() <= s.len(),
{
    lemma_string_args(s);
    lemma_numbering(s);
    lemma_eaten(numbering(s).rest, ")"@);
}

/// The methods of a service check.
pub open spec fn check_methods(parts: CheckParts, s: Seq<char>) -> Step<CheckParts>
    decreases s.len(),
{
    if next_is(s, "."@) {
        let id = identifier(eaten(s, "."@));
        match id.result {
            Err(reason) => fail(reason, id.rest),
            Ok(method) => {
                let open = expecting(id.rest, "("@);
                match open.result {
                    Err(reason) => fail(reason, open.rest),
                    Ok(_) => {
                        let m = check_method(parts, method, open.rest);
                        match m.result {
                            Err(reason) => m,
                            Ok(next) => {
                                proof {
                                    reveal_strlit(".");
                                    lemma_eaten(s, "."@);
                                    lemma_untaken(eaten(s, "."@), in_ident());
                                    lemma_eaten(id.rest, "("@);
                                    lemma_check_method(parts, method, open.rest);
                                }
                                check_methods(next, m.rest)
                            },
                        }
                    },
                }
            },
        }
    } else {
        done(parts, eaten(s, "."@))
    }
}

/// A service-check query.
pub open spec fn check(s: Seq<char>) -> Step<CheckQueryView> {
    let q = quoting(s);
    match q.result {
        Err(reason) => fail(reason, q.rest),
        Ok(name) => {
            let m = check_methods(no_check_parts(), q.rest);
            match m.result {
                Err(reason) => fail(reason, m.rest),
                Ok(parts) => match parts.last {
                    None => fail("check query missing `.last(n)`"@, m.rest),
                    Some(last) => if parts.counted {
                        done(
                            CheckQueryView { check: name, over: parts.over, by: parts.by, last },
                            m.rest,
                        )
                    } else {
                        fail("check query missing `.count_by_status()`"@, m.rest)
                    },
                },
            }
        },
    }
}

// ----- error budgets ------------------------------------------------------------

/// The method `over` of an error budget, after its `.`.
pub open spec fn budget_window(s: Seq<char>) -> Step<Seq<char>> {
    let m = identifier(s);
    match m.result {
        Err(reason) => m,
        Ok(method) => if method == "over"@ {
            quoted_in_parens(m.rest)
        } else {
            fail("expected `.over(...)`, found `."@ + method + "`"@, m.rest)
        },
    }
}

/// An error-budget query.
pub open spec fn slo(s: Seq<char>) -> Step<SloQueryView> {
    let head = expecting(s, "error_budget"@);
    match head.result {
        Err(reason) => fail(reason, head.rest),
        Ok(_) => {
            let q = quoted_in_parens(head.rest);
            match q.result {
                Err(reason) => fail(reason, q.rest),
                Ok(id) => {
                    let dot = expecting(q.rest, "."@);
                    match dot.result {
                        Err(reason) => fail(reason, dot.rest),
                        Ok(_) => {
                            let w = budget_window(dot.rest);
                            match w.result {
                                Err(reason) => fail(reason, w.rest),
                                Ok(over) => {
                                    let c = condition(w.rest);
                                    match c.result {
                                        Err(reason) => fail(reason, c.rest),
                                        Ok(condition) => done(
                                            SloQueryView { id, over, condition },
                                            c.rest,
                                        ),
                                    }
                                },
                            }
                        },
                    }
                },
            }
        },
    }
}

// ----- metric queries -----------------------------------------------------------

/// `: expr op threshold`, the body of a metric query.
pub open spec fn metric_body(s: Seq<char>) -> Step<(MetricExprView, Condition)> {
    let mark = expecting(s, ":"@);
    match mark.result {
        Err(reason) => fail(reason, mark.rest),
        Ok(_) => {
            let e = arith(mark.rest, 0, 0);
            match e.result {
                Err(reason) => fail(reason, e.rest),
                Ok(expr) => {
                    let c = condition(e.rest);
                    match c.result {
                        Err(reason) => fail(reason, c.rest),
                        Ok(condition) => done((expr, condition), c.rest),
                    }
                },
            }
        },
    }
}

/// `(window)`.
pub open spec fn window_in_parens(s: Seq<char>) -> Step<WindowView> {
    let open = expecting(s, "("@);
    match open.result {
        Err(reason) => fail(reason, open.rest),
        Ok(_) => {
            let w = window(open.rest);
            match w.result {
                Err(reason) => w,
                Ok(value) => {
                    let close = expecting(w.rest, ")"@);
                    match close.result {
                        Err(reason) => fail(reason, close.rest),
                        Ok(_) => done(value, close.rest),
                    }
                },
            }
        },
    }
}

/// The reason why `name` is no time aggregation.
pub open spec fn no_time_agg(name: Seq<char>) -> Seq<char> {
    "invalid time aggregation `"@ + name + "`"@
}

/// `(avg(window),shift)`, the head of a change query.
pub open spec fn change_head(s: Seq<char>) -> Step<(TimeAgg, WindowView, WindowView)> {
    let open = expecting(s, "("@);
    match open.result {
        Err(reason) => fail(reason, open.rest),
        Ok(_) => {
            let id = identifier(open.rest);
            match id.result {
                Err(reason) => fail(reason, id.rest),
                Ok(name) => match TimeAgg::of_token(name) {
                    None => fail(no_time_agg(name), id.rest),
                    Some(agg) => {
                        let w = window_in_parens(id.rest);
                        match w.result {
                            Err(reason) => fail(reason, w.rest),
                            Ok(first) => {
                                let comma = expecting(w.rest, ","@);
                                match comma.result {
                                    Err(reason) => fail(reason, comma.rest),
                                    Ok(_) => {
                                        let v = window(comma.rest);
                                        match v.result {
                                            Err(reason) => fail(reason, v.rest),
                                            Ok(shift) => {
                                                let close = expecting(v.rest, ")"@);
                                                match close.result {
                                                    Err(reason) => fail(reason, close.rest),
                                                    Ok(_) => done(
                                                        (agg, first, shift),
                                                        close.rest,
                                                    ),
                                                }
                                            },
                                        }
                                    },
                                }
                            },
                        }
                    },
                },
            }
        },
    }
}

/// A change query, after its name.
pub open spec fn change_metric(kind: ChangeKind, s: Seq<char>) -> Step<MetricQueryView> {
    let h = change_head(s);
    match h.result {
        Err(reason) => fail(reason, h.rest),
        Ok((inner_agg, window, shift)) => {
            let b = metric_body(h.rest);
            match b.result {
                Err(reason) => fail(reason, b.rest),
                Ok((expr, condition)) => done(
                    MetricQueryView {
                        time_aggregation: inner_agg,
                        window,
                        expr: MetricExprView::Change { kind, inner_agg, shift, arg: Box::new(expr) },
                        condition,
                    },
                    b.rest,
                ),
            }
        },
    }
}

/// A metric query that is no change query, after its time aggregation.
pub open spec fn plain_metric(time_aggregation: TimeAgg, s: Seq<char>) -> Step<MetricQueryView> {
    let w = window_in_parens(s);
    match w.result {
        Err(reason) => fail(reason, w.rest),
        Ok(window) => {
            let b = metric_body(w.rest);
            match b.result {
                Err(reason) => fail(reason, b.rest),
                Ok((expr, condition)) => done(
                    MetricQueryView { time_aggregation, window, expr, condition },
                    b.rest,
                ),
            }
        },
    }
}

/// A metric query.
pub open spec fn metric(s: Seq<char>) -> Step<MetricQueryView> {
    let id = identifier(s);
    match id.result {
        Err(reason) => fail(reason, id.rest),
        Ok(name) => match ChangeKind::of_token(name) {
            Some(kind) => change_metric(kind, id.rest),
            None => match TimeAgg::of_token(name) {
                Some(agg) => plain_metric(agg, id.rest),
                None => fail(no_time_agg(name), id.rest),
            },
        },
    }
}

// ----- queries ------------------------------------------------------------------

/// The dialects.
pub enum Dialect {
    Metric,
    Search,
    ServiceCheck,
    Slo,
    Composite,
}

/// The dialect of a query that begins with the name `head`.
pub open spec fn dialect_of(head: Seq<char>) -> Option<Dialect> {
    if head == "error_budget"@ {
        Some(Dialect::Slo)
    } else if source_of(head) is Some {
        Some(Dialect::Search)
    } else if combines(head) || ChangeKind::of_token(head) is Some {
        Some(Dialect::Metric)
    } else {
        None
    }
}

/// The dialect of the query `t`, by what it begins with.
pub open spec fn dialect(t: Seq<char>) -> Result<Dialect, Seq<char>> {
    match peeked(t) {
        None => Err("empty query"@),
        Some(c) => if c == '"' {
            Ok(Dialect::ServiceCheck)
        } else if digit(c) || c == '!' || c == '(' {
            Ok(Dialect::Composite)
        } else {
            let head = taken(t, in_head());
            match dialect_of(head) {
                Some(found) => Ok(found),
                None => if head.len() == 0 {
                    Err("unrecognized query"@)
                } else {
                    Err("unrecognized query head `"@ + head + "`"@)
                },
            }
        },
    }
}

/// A query of one of the dialects.
pub open spec fn query(s: Seq<char>) -> Step<MonitorQueryView> {
    let t = skipped(s);
    match dialect(t) {
        Err(reason) => fail(reason, t),
        Ok(Dialect::ServiceCheck) => {
            let r = check(t);
            match r.result {
                Err(reason) => fail(reason, r.rest),
                Ok(q) => done(MonitorQueryView::ServiceCheck(q), r.rest),
            }
        },
        Ok(Dialect::Composite) => {
            let r = disjunction(t, 0);
            match r.result {
                Err(reason) => fail(reason, r.rest),
                Ok(q) => done(MonitorQueryView::Composite(q), r.rest),
            }
        },
        Ok(Dialect::Slo) => {
            let r = slo(t);
            match r.result {
                Err(reason) => fail(reason, r.rest),
                Ok(q) => done(MonitorQueryView::Slo(q), r.rest),
            }
        },
        Ok(Dialect::Search) => {
            let r = search(t);
            match r.result {
                Err(reason) => fail(reason, r.rest),
                Ok(q) => done(MonitorQueryView::Search(q), r.rest),
            }
        },
        Ok(Dialect::Metric) => {
            let r = metric(t);
            match r.result {
                Err(reason) => fail(reason, r.rest),
                Ok(q) => done(MonitorQueryView::Metric(q), r.rest),
            }
        },
    }
}

/// A whole query: nothing but white space may remain.
pub open spec fn whole(s: Seq<char>) -> Step<MonitorQueryView> {
    let q = query(s);
    match q.result {
        Err(reason) => q,
        Ok(_) => {
            let rest = skipped(q.rest);
            if trimmed_start(rest).len() > 0 {
                fail("unexpected trailing input"@, rest)
            } else {
                Step { result: q.result, rest }
            }
        },
    }
}

/// What the text `s` parses to, or the error.
pub open spec fn parsed(s: Seq<char>) -> Result<MonitorQueryView, ParseErrorView> {
    if trimmed(s).len() == 0 {
        Err(ParseErrorView { offset: 0, reason: "empty query"@ })
    } else {
        let w = whole(s);
        match w.result {
            Ok(q) => Ok(q),
            Err(reason) => Err(error_at(s, w.rest, reason)),
        }
    }
}

// ----- lengths ------------------------------------------------------------------

/// Skipping white space does not lengthen the rest.
pub proof fn lemma_skipped(s: Seq<char>)
    ensures
        skipped(s).len() <= s.len(),
{
    lemma_run(s, |c: char| ascii_white(c));
}

/// Consuming a run does not lengthen the rest.
pub proof fn lemma_untaken(s: Seq<char>, p: spec_fn(char) -> bool)
    ensures
        untaken(s, p).len() <= s.len(),
        taken(s, p).len() + untaken(s, p).len() == skipped(s).len(),
        skipped(s).len() <= s.len(),
{
    lemma_skipped(s);
    lemma_run(skipped(s), p);
}

/// Consuming a literal shortens the rest by its length.
pub proof fn lemma_eaten(s: Seq<char>, lit: Seq<char>)
    ensures
        eaten(s, lit).len() <= s.len(),
        next_is(s, lit) ==> eaten(s, lit).len() + lit.len() <= s.len(),
{
    lemma_skipped(s);
}

proof fn lemma_unquoted(s: Seq<char>, quote: char)
    ensures
        unquoted(s, quote) matches Some((_, rest)) ==> rest.len() <= s.len(),
    decreases s.len(),
{
    if s.len() > 0 && s[0] != quote {
        if s[0] == '\\' {
            if s.len() > 1 {
                lemma_unquoted(s.skip(2), quote);
            }
        } else {
            lemma_unquoted(s.skip(1), quote);
        }
    }
}

/// Reading a quoted string does not lengthen the rest.
pub proof fn lemma_quoting(s: Seq<char>)
    ensures
        quoting(s).rest.len() <= s.len(),
{
    lemma_skipped(s);
    let t = skipped(s);
    if t.len() > 0 {
        lemma_unquoted(t.skip(1), t[0]);
    }
}

/// Reading a number does not lengthen the rest.
pub proof fn lemma_numbering(s: Seq<char>)
    ensures
        numbering(s).rest.len() <= s.len(),
{
    lemma_skipped(s);
    crate::cursor::lemma_span(skipped(s), true, false);
}

/// Reading an argument does not lengthen the rest.
pub proof fn lemma_string_arg(s: Seq<char>)
    ensures
        string_arg(s).rest.len() <= s.len(),
{
    lemma_skipped(s);
    lemma_quoting(skipped(s));
    lemma_untaken(skipped(s), in_bare_arg());
}

/// Reading arguments does not lengthen the rest.
pub proof fn lemma_more_string_args(s: Seq<char>)
    ensures
        more_string_args(s).rest.len() <= s.len(),
    decreases s.len(),
{
    let arg = string_arg(s);
    lemma_string_arg(s);
    reveal_strlit(",");
    lemma_eaten(arg.rest, ","@);
    lemma_eaten(arg.rest, ")"@);
    if arg.result is Ok && next_is(arg.rest, ","@) {
        lemma_more_string_args(eaten(arg.rest, ","@));
    }
}

/// Reading an argument list does not lengthen the rest.
pub proof fn lemma_string_args(s: Seq<char>)
    ensures
        string_args(s).rest.len() <= s.len(),
{
    lemma_skipped(s);
    lemma_eaten(s, ")"@);
    lemma_more_string_args(skipped(s));
}

/// Reading a parameter value does not lengthen the rest.
pub proof fn lemma_param_value(s: Seq<char>)
    ensures
        param_value(s).rest.len() <= s.len(),
{
    lemma_quoting(s);
    lemma_numbering(s);
    lemma_untaken(s, in_ident());
}

/// Reading a parameter does not lengthen the rest.
pub proof fn lemma_param(s: Seq<char>)
    ensures
        param(s).rest.len() <= s.len(),
{
    lemma_param_value(s);
    lemma_untaken(s, in_ident());
    let id = identifier(s);
    lemma_eaten(id.rest, "="@);
    lemma_param_value(eaten(id.rest, "="@));
}

} // verus!
