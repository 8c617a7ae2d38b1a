//! Recursive descent with a small Pratt loop for arithmetic precedence.
//!
//! Parsing is a pure function without I/O. The depth of recursion is bounded
//! ([`MAX_DEPTH`]), so that deeply nested input is rejected before the stack
//! grows. Each method reads one production of the grammar.

use vstd::prelude::*;
use vstd::string::StringExecFns;
use vstd::utf8::{encode_utf8, is_char_boundary};
use crate::ast::{
    expr_view, exprs_view, lemma_exprs_view, optional, ArithOp, BoolOp, ChangeKind, CheckQuery,
    CmpOp, CompositeExpr, Condition, Filter, FuncKind, FuncParam, FuncParamView, MetricExpr,
    MetricQuery, Modifier, ModifierView, MonitorQuery, MonitorQueryView, MonitorRef, ParamValue,
    ParamValueView, Scalar, SearchQuery, SearchQueryView, SearchSource, Series, SloQuery, SpaceAgg,
    TimeAgg, Window,
};
use crate::cursor::{
    done, eaten, error_at, fail, lemma_skipped_once, lemma_split, next_is, number_span, quoting,
    skipped, taken, untaken, Cursor, Step,
};
use crate::error::{ParseError, ParseErrorView};
use crate::grammar::{
    arg_at, arith, attached, bareword, budget_window, call, change_metric, check, check_methods,
    colon, combination, combined, combines, comparison, condition, conjunction, conjuncts,
    disjunction, disjuncts, filter, filters, function, group, group_by, identifier, in_bare_arg,
    in_digits, in_head, in_ident, in_scope_token, in_separator, lemma_skipped, metric, metric_body,
    metric_name, modifiers, more_string_args, named_term, negation, next_operator, no_check_parts,
    no_search_parts, no_time_agg, operand, operands, operations, param, param_value, params, parsed,
    positional, power_of, query, quoted_in_parens, runs, scope_tokens, search, search_end,
    search_methods, segments, series, series_term, slo, source, source_of, string_arg, string_args,
    term, term_name, too_deep, transform, values, whole_rank, window, window_in_parens, CheckParts,
    SearchParts, MAX_DEPTH,
};
use crate::text::{
    after_run, ascii_white, begins, bytes, chars_of, copy_of, digit, ident_char, is_digit, is_ident,
    is_white, lemma_run, lemma_run_is, run, same, starts_str, string_of, texts, trimmed,
    trimmed_end, trimmed_start, white,
};

verus! {

/// The reading position of a parse.
pub struct Parser<'a> {
    /// Where the parser stands in the query.
    pub cursor: Cursor<'a>,
}

impl<'a> View for Parser<'a> {
    type V = Seq<char>;

    /// What is left to read.
    open spec fn view(&self) -> Seq<char> {
        self.cursor@
    }
}

/// Nothing is skipped before a character that is no white space.
proof fn lemma_not_skipped(s: Seq<char>)
    requires
        s.len() > 0,
        !ascii_white(s[0]),
    ensures
        skipped(s) == s,
{
    lemma_run_is(s, |c: char| ascii_white(c), 0);
    assert(s.skip(0) =~= s);
}

/// A string begins with a string of one character where it has that character
/// first.
proof fn lemma_begins_one(s: Seq<char>, one: Seq<char>)
    requires
        one.len() == 1,
    ensures
        begins(s, one) == (s.len() > 0 && s[0] == one[0]),
{
    if s.len() > 0 {
        assert(s.take(1)[0] == s[0]);
        if s[0] == one[0] {
            assert(s.take(1) =~= one);
        }
    }
}

/// One list before another before the list of a step.
proof fn lemma_attached<T>(a: Seq<T>, b: Seq<T>, step: Step<Seq<T>>)
    ensures
        attached(a, attached(b, step)) == attached(a + b, step),
        attached(Seq::<T>::empty(), step) == step,
{
    match step.result {
        Ok(c) => {
            assert(a + (b + c) =~= (a + b) + c);
            assert(Seq::<T>::empty() + c =~= c);
        },
        Err(_) => {},
    }
}

/// Whether `s` begins with white space or `{`.
fn opens_group(s: &str) -> (r: bool)
    ensures
        r == (s@.len() > 0 && (white(s@[0]) || s@[0] == '{')),
{
    for c in it: s.chars()
        invariant
            it.seq() == s@,
            it.index() == 0,
    {
        return is_white(c) || c == '{';
    }
    false
}

/// Whether `name` is `p` and a whole rank.
fn is_whole_rank(name: &str) -> (r: bool)
    ensures
        r == whole_rank(name@),
{
    let v: Vec<char> = chars_of(name);
    if v.len() < 2 || v[0] != 'p' {
        return false;
    }
    let mut i: usize = 1;
    while i < v.len()
        invariant
            v@ == name@,
            1 <= i <= v@.len(),
            forall|k: int| 1 <= k < i ==> digit(#[trigger] v@[k]),
        decreases v@.len() - i,
    {
        if !is_digit(v[i]) {
            assert(!digit(name@[i as int]));
            return false;
        }
        i += 1;
    }
    true
}

/// How tightly an operator binds to its left and to its right: `*` and `/`
/// bind tighter than `+` and `-`.
fn binding_power(op: ArithOp) -> (r: (u8, u8))
    ensures
        r == power_of(op),
{
    match op {
        ArithOp::Add | ArithOp::Sub => (1, 2),
        ArithOp::Mul | ArithOp::Div => (3, 4),
    }
}

/// Where characters other than ASCII white space stand between the position and
/// an operator, no operand follows.
pub(crate) proof fn lemma_operator_is_next(s: Seq<char>, op: ArithOp, least: u8, depth: nat)
    requires
        next_operator(s) == Some(op),
    ensures
        op.token().len() == 1,
        next_is(s, op.token()) || arith(eaten(s, op.token()), least, depth).result is Err,
{
    reveal_strlit("+");
    reveal_strlit("-");
    reveal_strlit("*");
    reveal_strlit("/");
    let t = skipped(s);
    let p = |c: char| white(c);
    let q = |c: char| ascii_white(c);
    lemma_run(s, p);
    lemma_run(s, q);
    let n = run(s, p);
    let k = run(s, q);
    assert(k <= n);
    assert forall|i: int| 0 <= i < n - k implies p(#[trigger] t[i]) by {
        assert(p(s[i + k]));
    }
    lemma_run_is(t, p, (n - k) as nat);
    assert(t.skip(n - k) =~= s.skip(n as int));
    lemma_begins_one(t, op.token());
    if !next_is(s, op.token()) {
        assert(white(t[0]));
        lemma_skipped_once(s);
        lemma_run_is(t, in_ident(), 0);
        assert(number_span(t, true, false) == 0);
        if depth <= MAX_DEPTH {
            assert(operand(t, depth).result is Err);
            assert(term(t, depth) == operand(t, depth));
        }
    }
}

/// Whether `name` is an aggregator that combines several expressions.
fn is_combiner(name: &str) -> (r: bool)
    ensures
        r == combines(name@),
{
    same(name, "avg") || same(name, "sum") || same(name, "min") || same(name, "max") || same(
        name,
        "count",
    )
}

/// What an aggregator applied to `operands` stands for.
fn combine(name: String, operands: Vec<MetricExpr>) -> (r: MetricExpr)
    requires
        operands@.len() > 0,
    ensures
        r@ == combined(name@, exprs_view(operands@)),
{
    let ghost views = exprs_view(operands@);
    let mut args: Vec<ParamValue> = Vec::new();
    let mut i: usize = 1;
    proof {
        lemma_exprs_view(operands@);
    }
    while i < operands.len()
        invariant
            1 <= i <= operands@.len(),
            views == exprs_view(operands@),
            views.len() == operands@.len(),
            forall|k: int| 0 <= k < views.len() ==> #[trigger] views[k] == expr_view(operands@[k]),
            forall|k: int| 1 <= k < i ==> (#[trigger] views[k]) is Scalar,
            args@.len() == i - 1,
            forall|k: int|
                0 <= k < i - 1 ==> (#[trigger] args@[k])@ == ParamValueView::Number(
                    views[k + 1]->Scalar_0.value,
                ),
        decreases operands@.len() - i,
    {
        assert(views[i as int] == expr_view(operands@[i as int]));
        match &operands[i] {
            MetricExpr::Scalar(s) => {
                args.push(ParamValue::Number(s.value));
            },
            _ => {
                assert(!(views[i as int] is Scalar));
                return MetricExpr::Combine { name, args: operands };
            },
        }
        i += 1;
    }
    let mut operands = operands;
    let first = operands.swap_remove(0);
    proof {
        assert(args@.map_values(|p: ParamValue| p@) =~= Seq::new(
            (views.len() - 1) as nat,
            |k: int| ParamValueView::Number(views[k + 1]->Scalar_0.value),
        ));
    }
    MetricExpr::Transform { name, arg: Box::new(first), args }
}

/// The search source that `name` stands for.
fn search_source(name: &str) -> (r: Option<SearchSource>)
    ensures
        r == source_of(name@),
{
    if same(name, "logs") {
        Some(SearchSource::Logs)
    } else if same(name, "events") {
        Some(SearchSource::Events)
    } else if same(name, "rum") {
        Some(SearchSource::Rum)
    } else if same(name, "error-tracking") {
        Some(SearchSource::ErrorTracking)
    } else {
        None
    }
}

/// What the methods of a search have set.
spec fn search_parts(
    index: Option<String>,
    rollup_method: Option<String>,
    rollup_arg: Option<String>,
    group_by: Vec<String>,
    last: Option<String>,
) -> SearchParts {
    SearchParts {
        index: optional(index),
        rollup_method: optional(rollup_method),
        rollup_arg: optional(rollup_arg),
        group_by: texts(group_by@),
        last: optional(last),
    }
}

/// A search after its source and its search string.
spec fn search_from(place: SearchSource, raw_search: Seq<char>, s: Seq<char>) -> Step<
    SearchQueryView,
> {
    let m = search_methods(no_search_parts(), s);
    match m.result {
        Err(reason) => fail(reason, m.rest),
        Ok(parts) => search_end(place, raw_search, parts, m.rest),
    }
}

/// What the methods of a service check have set.
spec fn check_parts(
    over: Vec<String>,
    by: Vec<String>,
    last: Option<u32>,
    counted: bool,
) -> CheckParts {
    CheckParts { over: texts(over@), by: texts(by@), last, counted }
}

/// The names of the methods of a service check differ.
proof fn lemma_check_tokens()
    ensures
        "over"@ != "by"@,
        "over"@ != "last"@,
        "by"@ != "last"@,
        "count_by_status"@ != "over"@,
        "count_by_status"@ != "by"@,
        "count_by_status"@ != "last"@,
{
    reveal_strlit("over");
    reveal_strlit("by");
    reveal_strlit("last");
    reveal_strlit("count_by_status");
    assert("over"@[0] == 'o');
    assert("last"@[0] == 'l');
    assert("by"@[0] == 'b');
}

/// The `i`th string, if there is one.
fn copy_at(v: &Vec<String>, i: usize) -> (r: Option<String>)
    ensures
        optional(r) == arg_at(texts(v@), i as int),
{
    if i < v.len() {
        Some(copy_of(v[i].as_str()))
    } else {
        None
    }
}

/// The `i`th string, if there is one and it is not empty.
fn nonempty_at(v: &Vec<String>, i: usize) -> (r: Option<String>)
    ensures
        optional(r) == (if i < v@.len() && v@[i as int]@.len() > 0 {
            Some(v@[i as int]@)
        } else {
            None
        }),
{
    if i < v.len() && !v[i].as_str().is_empty() {
        Some(copy_of(v[i].as_str()))
    } else {
        None
    }
}

/// `prefix`, `name` and a closing backquote.
fn naming(prefix: &str, name: &str) -> (out: String)
    ensures
        out@ == prefix@ + name@ + "`"@,
{
    let mut out = copy_of(prefix);
    out.append(name);
    out.append("`");
    out
}

/// `s` without leading and trailing white space.
fn trim(s: &str) -> (out: String)
    ensures
        out@ == trimmed(s@),
{
    let v: Vec<char> = chars_of(s);
    let ghost p = |c: char| white(c);
    let mut from: usize = 0;
    while from < v.len() && is_white(v[from])
        invariant
            v@ == s@,
            p == (|c: char| white(c)),
            from <= v@.len(),
            forall|i: int| 0 <= i < from ==> p(#[trigger] v@[i]),
        decreases v@.len() - from,
    {
        from += 1;
    }
    proof {
        lemma_run_is(s@, p, from as nat);
    }
    let mut to: usize = v.len();
    assert(v@.subrange(from as int, to as int) =~= trimmed_start(s@));
    while from < to && is_white(v[to - 1])
        invariant
            v@ == s@,
            from <= to <= v@.len(),
            trimmed(s@) == trimmed_end(v@.subrange(from as int, to as int)),
        decreases to,
    {
        assert(v@.subrange(from as int, to as int).drop_last() =~= v@.subrange(
            from as int,
            to - 1,
        ));
        to = to - 1;
    }
    string_of(&v, from, to)
}

/// What a word without quotes stands for: `true`, `false` or itself.
fn bareword_value(word: &str) -> (r: ParamValue)
    ensures
        r@ == bareword(word@),
{
    if same(word, "true") {
        ParamValue::Bool(true)
    } else if same(word, "false") {
        ParamValue::Bool(false)
    } else {
        ParamValue::Str(copy_of(word))
    }
}

/// What a scope token stands for.
pub fn classify_filter(token: &str) -> (r: Filter)
    ensures
        r@ == filter(token@),
{
    if same(token, "*") {
        return Filter::All;
    }
    let v: Vec<char> = chars_of(token);
    let negated: bool = v.len() > 0 && v[0] == '!';
    let start: usize = if negated {
        1
    } else {
        0
    };
    let ghost body = token@.skip(start as int);
    let ghost p = |c: char| c != ':';
    let mut i: usize = start;
    while i < v.len() && v[i] != ':'
        invariant
            v@ == token@,
            start <= i <= v@.len(),
            body == token@.skip(start as int),
            p == (|c: char| c != ':'),
            forall|k: int| 0 <= k < i - start ==> p(#[trigger] body[k]),
        decreases v@.len() - i,
    {
        assert(body[i - start] == v@[i as int]);
        i += 1;
    }
    proof {
        if i < v@.len() {
            assert(body[i - start] == v@[i as int]);
        }
        lemma_run_is(body, p, (i - start) as nat);
        assert(token@.skip(0) =~= token@);
    }
    if i < v.len() {
        let key = string_of(&v, start, i);
        let value = string_of(&v, i + 1, v.len());
        proof {
            let n = colon(body) as int;
            assert(key@ =~= body.take(n));
            assert(value@ =~= body.skip(n + 1));
        }
        Filter::Tag { negated, key, value }
    } else {
        Filter::Glob(copy_of(token))
    }
}

impl<'a> Parser<'a> {
    /// The position is a character boundary.
    pub open spec fn wf(&self) -> bool {
        self.cursor.wf()
    }

    /// The whole query.
    pub open spec fn source(&self) -> Seq<char> {
        self.cursor.source()
    }

    /// `next` is this position, moved forward or not at all.
    pub open spec fn moves_to(&self, next: &Parser<'a>) -> bool {
        self.cursor.moves_to(&next.cursor)
    }

    /// A parser at the start of `input`.
    pub fn new(input: &'a str) -> (r: Self)
        ensures
            r.wf(),
            r.source() == input@,
            r@ == input@,
    {
        Parser { cursor: Cursor::new(input) }
    }

    /// From this position, `step` is read to `next` with the result `r`, whose
    /// value is seen as `f` says.
    pub open spec fn reads_as<T, V>(
        &self,
        next: &Parser<'a>,
        r: Result<T, ParseError>,
        f: spec_fn(T) -> V,
        step: Step<V>,
    ) -> bool {
        &&& self.moves_to(next)
        &&& next@ == step.rest
        &&& match r {
            Ok(v) => step.result == Ok::<V, Seq<char>>(f(v)),
            Err(e) => step.result is Err && e@ == error_at(
                self.source(),
                step.rest,
                step.result->Err_0,
            ),
        }
    }

    /// From this position, `step` is read to `next` with the result `r`.
    pub open spec fn reads<T: View>(
        &self,
        next: &Parser<'a>,
        r: Result<T, ParseError>,
        step: Step<T::V>,
    ) -> bool {
        self.reads_as(next, r, |v: T| v@, step)
    }

    /// Consumes the longest run of characters satisfying `p`, after white
    /// space.
    fn take_chars<F: Fn(char) -> bool>(
        &mut self,
        f: F,
        Ghost(p): Ghost<spec_fn(char) -> bool>,
    ) -> (r: &'a str)
        requires
            old(self).wf(),
            forall|c: char| call_requires(f, (c,)),
            forall|c: char, b: bool| call_ensures(f, (c,), b) ==> b == p(c),
        ensures
            old(self).moves_to(final(self)),
            r@ == taken(old(self)@, p),
            final(self)@ == untaken(old(self)@, p),
            r@.len() + final(self)@.len() == skipped(old(self)@).len(),
            skipped(old(self)@).len() <= old(self)@.len(),
    {
        let ghost s = self@;
        let r = self.cursor.take_while(f);
        proof {
            lemma_split(skipped(s), r@, self@, p);
            lemma_skipped(s);
        }
        r
    }

    /// Consumes the longest run of identifier characters.
    fn take_ident_chars(&mut self) -> (r: &'a str)
        requires
            old(self).wf(),
        ensures
            old(self).moves_to(final(self)),
            r@ == taken(old(self)@, in_ident()),
            final(self)@ == untaken(old(self)@, in_ident()),
            r@.len() + final(self)@.len() == skipped(old(self)@).len(),
            skipped(old(self)@).len() <= old(self)@.len(),
    {
        let f = |c: char| -> (b: bool)
            ensures
                b == ident_char(c),
            { is_ident(c) };
        self.take_chars(f, Ghost(in_ident()))
    }

    /// Reads an identifier.
    pub fn take_ident(&mut self) -> (r: Result<String, ParseError>)
        requires
            old(self).wf(),
        ensures
            old(self).reads(final(self), r, identifier(old(self)@)),
            r is Ok ==> final(self)@.len() < old(self)@.len(),
    {
        let id = self.take_ident_chars();
        if id.is_empty() {
            Err(self.cursor.error("expected an identifier"))
        } else {
            Ok(copy_of(id))
        }
    }

    /// Reads an evaluation window.
    pub fn take_window(&mut self) -> (r: Result<Window, ParseError>)
        requires
            old(self).wf(),
        ensures
            old(self).reads(final(self), r, window(old(self)@)),
    {
        let raw = self.take_ident_chars();
        match Window::parse(raw) {
            Some(w) => Ok(w),
            None => {
                let reason = naming("invalid window `", raw);
                Err(self.cursor.error(reason.as_str()))
            },
        }
    }

    /// Reads a dotted metric name (`a.b.c`), stopping before a `.modifier(`.
    pub fn take_metric_name(&mut self) -> (r: Result<String, ParseError>)
        requires
            old(self).wf(),
        ensures
            old(self).reads(final(self), r, metric_name(old(self)@)),
    {
        let first = self.take_ident_chars();
        if first.is_empty() {
            return Err(self.cursor.error("expected a metric name"));
        }
        let mut name = copy_of(first);
        let ghost start = self@;
        let ghost mut tail: Seq<char> = Seq::empty();
        proof {
            assert(first@ + tail =~= first@);
            assert(tail + segments(start).0 =~= segments(start).0);
        }
        loop
            invariant
                self.wf(),
                old(self).moves_to(self),
                first@ == taken(old(self)@, in_ident()),
                first@.len() > 0,
                start == untaken(old(self)@, in_ident()),
                name@ == first@ + tail,
                segments(start).0 == tail + segments(self@).0,
                segments(start).1 == segments(self@).1,
            decreases self@.len(),
        {
            let ghost s = self@;
            proof {
                reveal_strlit(".");
                reveal_strlit("(");
                lemma_begins_one(s, "."@);
                assert(tail + Seq::<char>::empty() =~= tail);
            }
            if !starts_str(self.cursor.rest(), ".") {
                return Ok(name);
            }
            proof {
                lemma_not_skipped(s);
            }
            let mut probe = Parser { cursor: self.cursor.clone() };
            probe.cursor.eat(".");
            let segment = probe.take_ident_chars();
            proof {
                lemma_begins_one(probe@, "("@);
            }
            if segment.is_empty() || starts_str(probe.cursor.rest(), "(") {
                return Ok(name);
            }
            self.cursor.eat(".");
            let committed = self.take_ident_chars();
            name.append(".");
            name.append(committed);
            proof {
                let piece = seq!['.'] + committed@;
                assert("."@ =~= seq!['.']);
                assert(name@ =~= first@ + (tail + piece));
                assert(tail + (piece + segments(self@).0) =~= (tail + piece) + segments(self@).0);
                tail = tail + piece;
            }
        }
    }

    /// Reads a comparison operator.
    pub fn parse_cmp_op(&mut self) -> (r: Result<CmpOp, ParseError>)
        requires
            old(self).wf(),
        ensures
            old(self).reads_as(final(self), r, |op: CmpOp| op, comparison(old(self)@)),
    {
        proof {
            lemma_skipped_once(self@);
        }
        if self.cursor.eat(">=") {
            Ok(CmpOp::Ge)
        } else if self.cursor.eat("<=") {
            Ok(CmpOp::Le)
        } else if self.cursor.eat("==") {
            Ok(CmpOp::Eq)
        } else if self.cursor.eat("!=") {
            Ok(CmpOp::Ne)
        } else if self.cursor.eat(">") {
            Ok(CmpOp::Gt)
        } else if self.cursor.eat("<") {
            Ok(CmpOp::Lt)
        } else {
            Err(self.cursor.error("expected a comparison operator"))
        }
    }

    /// Reads a comparison operator and a threshold.
    pub fn parse_condition(&mut self) -> (r: Result<Condition, ParseError>)
        requires
            old(self).wf(),
        ensures
            old(self).reads_as(final(self), r, |c: Condition| c, condition(old(self)@)),
    {
        let operator = self.parse_cmp_op()?;
        let critical = Scalar::new(self.cursor.take_number()?);
        Ok(
            Condition {
                operator,
                critical,
                critical_recovery: None,
                warning: None,
                warning_recovery: None,
            },
        )
    }

    fn parse_string_arg(&mut self) -> (r: Result<String, ParseError>)
        requires
            old(self).wf(),
        ensures
            old(self).reads(final(self), r, string_arg(old(self)@)),
    {
        self.cursor.skip_ws();
        match self.cursor.peek() {
            Some('"') | Some('\'') => self.cursor.take_quoted(),
            _ => {
                let f = |c: char| -> (b: bool)
                    ensures
                        b == (c != ',' && c != ')'),
                    { c != ',' && c != ')' };
                let bare = self.take_chars(f, Ghost(in_bare_arg()));
                Ok(trim(bare))
            },
        }
    }

    /// Reads quoted or bare arguments, separated by commas, through the closing
    /// `)`. The opening `(` has been consumed.
    pub fn parse_string_args(&mut self) -> (r: Result<Vec<String>, ParseError>)
        requires
            old(self).wf(),
        ensures
            old(self).reads_as(
                final(self),
                r,
                |v: Vec<String>| texts(v@),
                string_args(old(self)@),
            ),
    {
        let mut out: Vec<String> = Vec::new();
        proof {
            assert(texts(out@) =~= seq![]);
        }
        if self.cursor.eat(")") {
            return Ok(out);
        }
        let ghost start = self@;
        proof {
            lemma_attached(seq![], seq![], more_string_args(start));
        }
        loop
            invariant
                self.wf(),
                old(self).moves_to(self),
                string_args(old(self)@) == attached(texts(out@), more_string_args(self@)),
            decreases self@.len(),
        {
            let ghost before = out@;
            let value = self.parse_string_arg()?;
            out.push(value);
            proof {
                assert(texts(out@) =~= texts(before) + seq![value@]);
                reveal_strlit(",");
            }
            let ghost after = self@;
            if self.cursor.eat(",") {
                proof {
                    lemma_attached(texts(before), seq![value@], more_string_args(self@));
                }
                continue ;
            }
            proof {
                lemma_skipped_once(after);
            }
            self.cursor.expect(")")?;
            return Ok(out);
        }
    }

    /// Reads the value of a parameter: a quoted string, a number or a bare word.
    pub fn parse_param_value(&mut self) -> (r: Result<ParamValue, ParseError>)
        requires
            old(self).wf(),
        ensures
            old(self).reads(final(self), r, param_value(old(self)@)),
    {
        match self.cursor.peek() {
            None => Err(self.cursor.error("expected a parameter value")),
            Some(c) => if c == '"' || c == '\'' {
                Ok(ParamValue::Str(self.cursor.take_quoted()?))
            } else if is_digit(c) || c == '+' || c == '-' || c == '.' {
                Ok(ParamValue::Number(self.cursor.take_number()?))
            } else {
                let word = self.take_ident()?;
                Ok(bareword_value(word.as_str()))
            },
        }
    }

    /// Reads a parameter, with its key if it has one.
    pub fn parse_func_param(&mut self) -> (r: Result<FuncParam, ParseError>)
        requires
            old(self).wf(),
        ensures
            old(self).reads(final(self), r, param(old(self)@)),
    {
        match self.cursor.peek() {
            None => Err(self.cursor.error("expected a function parameter")),
            Some(c) => if c == '"' || c == '\'' || is_digit(c) || c == '+' || c == '-' || c == '.' {
                Ok(FuncParam::positional(self.parse_param_value()?))
            } else {
                let key = self.take_ident()?;
                if self.cursor.eat("=") {
                    Ok(FuncParam::keyword(key.as_str(), self.parse_param_value()?))
                } else {
                    Ok(FuncParam::positional(bareword_value(key.as_str())))
                }
            },
        }
    }

    /// Reads the parameters of an evaluation function, each after a comma.
    fn parse_params(&mut self) -> (r: Result<Vec<FuncParam>, ParseError>)
        requires
            old(self).wf(),
        ensures
            old(self).reads_as(
                final(self),
                r,
                |v: Vec<FuncParam>| v@.map_values(|p: FuncParam| p@),
                params(old(self)@),
            ),
    {
        let mut out: Vec<FuncParam> = Vec::new();
        proof {
            assert(out@.map_values(|p: FuncParam| p@) =~= seq![]);
            lemma_attached(seq![], seq![], params(self@));
        }
        loop
            invariant
                self.wf(),
                old(self).moves_to(self),
                params(old(self)@) == attached(
                    out@.map_values(|p: FuncParam| p@),
                    params(self@),
                ),
            decreases self@.len(),
        {
            let ghost before = out@.map_values(|p: FuncParam| p@);
            proof {
                reveal_strlit(",");
                assert(before + Seq::<FuncParamView>::empty() =~= before);
            }
            if !self.cursor.eat(",") {
                return Ok(out);
            }
            let value = self.parse_func_param()?;
            out.push(value);
            proof {
                assert(out@.map_values(|p: FuncParam| p@) =~= before + seq![value@]);
                lemma_attached(before, seq![value@], params(self@));
            }
        }
    }

    /// Reads the arguments of a transform, each after a comma.
    fn parse_values(&mut self) -> (r: Result<Vec<ParamValue>, ParseError>)
        requires
            old(self).wf(),
        ensures
            old(self).reads_as(
                final(self),
                r,
                |v: Vec<ParamValue>| v@.map_values(|p: ParamValue| p@),
                values(old(self)@),
            ),
    {
        let mut out: Vec<ParamValue> = Vec::new();
        proof {
            assert(out@.map_values(|p: ParamValue| p@) =~= seq![]);
            lemma_attached(seq![], seq![], values(self@));
        }
        loop
            invariant
                self.wf(),
                old(self).moves_to(self),
                values(old(self)@) == attached(
                    out@.map_values(|p: ParamValue| p@),
                    values(self@),
                ),
            decreases self@.len(),
        {
            let ghost before = out@.map_values(|p: ParamValue| p@);
            proof {
                reveal_strlit(",");
                assert(before + Seq::<ParamValueView>::empty() =~= before);
            }
            if !self.cursor.eat(",") {
                return Ok(out);
            }
            let value = self.parse_param_value()?;
            out.push(value);
            proof {
                assert(out@.map_values(|p: ParamValue| p@) =~= before + seq![value@]);
                lemma_attached(before, seq![value@], values(self@));
            }
        }
    }

    /// Skips the separators of filters: commas and runs of white space are
    /// equivalent.
    pub fn skip_filter_seps(&mut self)
        requires
            old(self).wf(),
        ensures
            old(self).moves_to(final(self)),
            final(self)@ == after_run(old(self)@, in_separator()),
            final(self)@.len() > 0 ==> !in_separator()(final(self)@[0]),
    {
        let f = |c: char| -> (b: bool)
            ensures
                b == (c == ',' || white(c)),
            { c == ',' || is_white(c) };
        let ghost s = self@;
        let r = self.cursor.take_run(f);
        proof {
            lemma_split(s, r@, self@, in_separator());
        }
    }

    /// Reads the next token between braces, if there is one.
    fn take_scope_token(&mut self) -> (r: Option<&'a str>)
        requires
            old(self).wf(),
        ensures
            old(self).moves_to(final(self)),
            match r {
                None => scope_tokens(old(self)@) == (Seq::<Seq<char>>::empty(), final(self)@),
                Some(token) => {
                    &&& final(self)@.len() < old(self)@.len()
                    &&& scope_tokens(old(self)@) == (
                        seq![token@] + scope_tokens(final(self)@).0,
                        scope_tokens(final(self)@).1,
                    )
                },
            },
    {
        self.skip_filter_seps();
        let ghost t = self@;
        proof {
            if t.len() > 0 {
                lemma_run_is(t, |c: char| white(c), 0);
                assert(t.skip(0) =~= t);
            } else {
                lemma_run(t, |c: char| white(c));
            }
        }
        match self.cursor.peek() {
            None | Some('}') => None,
            Some(_) => {
                let f = |c: char| -> (b: bool)
                    ensures
                        b == (c != ',' && c != '}' && !white(c)),
                    { c != ',' && c != '}' && !is_white(c) };
                proof {
                    lemma_not_skipped(t);
                    lemma_run(t, in_scope_token());
                }
                let token = self.take_chars(f, Ghost(in_scope_token()));
                Some(token)
            },
        }
    }

    /// Reads the filters of a scope, up to its closing `}`.
    pub fn parse_filter_list(&mut self) -> (r: Vec<Filter>)
        requires
            old(self).wf(),
        ensures
            old(self).moves_to(final(self)),
            r@.map_values(|f: Filter| f@) == filters(scope_tokens(old(self)@).0),
            final(self)@ == scope_tokens(old(self)@).1,
    {
        let mut out: Vec<Filter> = Vec::new();
        let ghost mut tokens: Seq<Seq<char>> = seq![];
        proof {
            assert(tokens + scope_tokens(self@).0 =~= scope_tokens(self@).0);
        }
        loop
            invariant
                self.wf(),
                old(self).moves_to(self),
                scope_tokens(old(self)@).0 == tokens + scope_tokens(self@).0,
                scope_tokens(old(self)@).1 == scope_tokens(self@).1,
                out@.len() == tokens.len(),
                forall|i: int| 0 <= i < out@.len() ==> (#[trigger] out@[i])@ == filter(tokens[i]),
            decreases self@.len(),
        {
            match self.take_scope_token() {
                None => {
                    proof {
                        assert(tokens + Seq::<Seq<char>>::empty() =~= tokens);
                        assert(out@.map_values(|f: Filter| f@) =~= filters(tokens));
                    }
                    return out;
                },
                Some(token) => {
                    out.push(classify_filter(token));
                    proof {
                        let more = scope_tokens(self@).0;
                        assert(tokens + (seq![token@] + more) =~= tokens.push(token@) + more);
                        tokens = tokens.push(token@);
                    }
                },
            }
        }
    }

    /// Reads grouping tags in braces, after `by`.
    fn parse_tags(&mut self) -> (r: Vec<String>)
        requires
            old(self).wf(),
        ensures
            old(self).moves_to(final(self)),
            texts(r@) == scope_tokens(old(self)@).0,
            final(self)@ == scope_tokens(old(self)@).1,
    {
        let mut out: Vec<String> = Vec::new();
        proof {
            assert(texts(out@) + scope_tokens(self@).0 =~= scope_tokens(self@).0);
        }
        loop
            invariant
                self.wf(),
                old(self).moves_to(self),
                scope_tokens(old(self)@).0 == texts(out@) + scope_tokens(self@).0,
                scope_tokens(old(self)@).1 == scope_tokens(self@).1,
            decreases self@.len(),
        {
            let ghost before = texts(out@);
            match self.take_scope_token() {
                None => {
                    proof {
                        assert(before + Seq::<Seq<char>>::empty() =~= before);
                    }
                    return out;
                },
                Some(token) => {
                    out.push(copy_of(token));
                    proof {
                        let more = scope_tokens(self@).0;
                        assert(texts(out@) =~= before.push(token@));
                        assert(before + (seq![token@] + more) =~= before.push(token@) + more);
                    }
                },
            }
        }
    }

    /// Reads a grouping, if there is one.
    pub fn parse_group_by(&mut self) -> (r: Result<Vec<String>, ParseError>)
        requires
            old(self).wf(),
        ensures
            old(self).reads_as(final(self), r, |v: Vec<String>| texts(v@), group_by(old(self)@)),
    {
        self.cursor.skip_ws();
        let ghost t = self@;
        let mut probe = Parser { cursor: self.cursor.clone() };
        proof {
            reveal_strlit("by");
            lemma_skipped_once(old(self)@);
        }
        let is_by: bool = probe.cursor.eat("by") && opens_group(probe.cursor.rest());
        proof {
            if begins(t, "by"@) && t.len() > 2 {
                assert(probe@[0] == t[2]);
            }
        }
        if !is_by {
            let none: Vec<String> = Vec::new();
            proof {
                assert(texts(none@) =~= seq![]);
            }
            return Ok(none);
        }
        self.cursor.eat("by");
        self.cursor.expect("{")?;
        let tags = self.parse_tags();
        self.cursor.expect("}")?;
        Ok(tags)
    }

    /// Reads the modifiers behind a series.
    pub fn parse_modifiers(&mut self) -> (r: Result<Vec<Modifier>, ParseError>)
        requires
            old(self).wf(),
        ensures
            old(self).reads_as(
                final(self),
                r,
                |v: Vec<Modifier>| v@.map_values(|m: Modifier| m@),
                modifiers(old(self)@),
            ),
    {
        let mut out: Vec<Modifier> = Vec::new();
        proof {
            assert(out@.map_values(|m: Modifier| m@) =~= seq![]);
            lemma_attached(seq![], seq![], modifiers(self@));
        }
        loop
            invariant
                self.wf(),
                old(self).moves_to(self),
                modifiers(old(self)@) == attached(
                    out@.map_values(|m: Modifier| m@),
                    modifiers(self@),
                ),
            decreases self@.len(),
        {
            let ghost before = out@.map_values(|m: Modifier| m@);
            let ghost s = self@;
            self.cursor.skip_ws();
            proof {
                reveal_strlit(".");
                lemma_begins_one(self@, "."@);
                lemma_skipped_once(s);
                assert(before + Seq::<ModifierView>::empty() =~= before);
            }
            if !starts_str(self.cursor.rest(), ".") {
                return Ok(out);
            }
            self.cursor.expect(".")?;
            let name = self.take_ident()?;
            self.cursor.expect("(")?;
            let args = self.parse_string_args()?;
            let one = Modifier { name, args };
            out.push(one);
            proof {
                assert(out@.map_values(|m: Modifier| m@) =~= before + seq![one@]);
                lemma_attached(before, seq![one@], modifiers(self@));
            }
        }
    }

    /// Reads a series, from its metric name on.
    pub fn parse_series(&mut self, space_aggregation: SpaceAgg) -> (r: Result<Series, ParseError>)
        requires
            old(self).wf(),
        ensures
            old(self).reads(final(self), r, series(space_aggregation@, old(self)@)),
    {
        let metric = self.take_metric_name()?;
        let filter: Vec<Filter> = match self.cursor.peek() {
            Some('{') => {
                self.cursor.expect("{")?;
                let list = self.parse_filter_list();
                self.cursor.expect("}")?;
                list
            },
            _ => {
                let none: Vec<Filter> = Vec::new();
                proof {
                    assert(none@.map_values(|f: Filter| f@) =~= filters(seq![]));
                }
                none
            },
        };
        let group_by = self.parse_group_by()?;
        let modifiers = self.parse_modifiers()?;
        Ok(Series { space_aggregation, metric, filter, group_by, modifiers })
    }

    // ----- metric expressions -----------------------------------------------

    /// Reads the name at the head of a term.
    fn take_term_name(&mut self) -> (r: Result<String, ParseError>)
        requires
            old(self).wf(),
        ensures
            old(self).reads(final(self), r, term_name(old(self)@)),
    {
        let mut name = self.take_ident()?;
        let ghost s = self@;
        let ghost id = name@;
        proof {
            reveal_strlit(".");
            lemma_begins_one(s, "."@);
            assert(id + s.take(0) =~= id);
            assert(s.skip(0) =~= s);
        }
        if is_whole_rank(name.as_str()) && starts_str(self.cursor.rest(), ".") {
            let mut probe = Parser { cursor: self.cursor.clone() };
            proof {
                lemma_not_skipped(s);
            }
            probe.cursor.eat(".");
            let f = |c: char| -> (b: bool)
                ensures
                    b == digit(c),
                { is_digit(c) };
            let digits = probe.cursor.take_run(f);
            proof {
                lemma_split(s.skip(1), digits@, probe@, in_digits());
                assert(s.skip(1 + digits@.len() as int) =~= probe@);
            }
            if !digits.is_empty() {
                if let Some(':') = probe.cursor.peek() {
                    name.append(".");
                    name.append(digits);
                    proof {
                        assert(s.take(1 + digits@.len() as int) =~= "."@ + digits@);
                        assert(name@ =~= id + s.take(1 + digits@.len() as int));
                    }
                    self.cursor = probe.cursor;
                }
            }
        }
        Ok(name)
    }

    /// The arithmetic operator that comes next, which is not consumed.
    pub fn peek_arith_op(&self) -> (r: Option<ArithOp>)
        requires
            self.wf(),
        ensures
            r == next_operator(self@),
    {
        match self.cursor.peek() {
            Some('+') => Some(ArithOp::Add),
            Some('-') => Some(ArithOp::Sub),
            Some('*') => Some(ArithOp::Mul),
            Some('/') => Some(ArithOp::Div),
            _ => None,
        }
    }

    /// Rejects a depth beyond [`MAX_DEPTH`].
    pub fn check_depth(&self, depth: usize) -> (r: Result<(), ParseError>)
        requires
            self.wf(),
        ensures
            match r {
                Ok(_) => depth <= MAX_DEPTH,
                Err(e) => depth > MAX_DEPTH && e@ == error_at(self.source(), self@, too_deep()),
            },
    {
        if depth > MAX_DEPTH {
            Err(self.cursor.error("maximum nesting depth exceeded"))
        } else {
            Ok(())
        }
    }

    /// Reads an arithmetic expression whose operators bind at least as tightly
    /// as `min_bp`.
    pub fn parse_arith(&mut self, min_bp: u8, depth: usize) -> (r: Result<MetricExpr, ParseError>)
        requires
            old(self).wf(),
        ensures
            old(self).reads(final(self), r, arith(old(self)@, min_bp, depth as nat)),
        decreases MAX_DEPTH + 1 - depth, 7nat,
    {
        self.check_depth(depth)?;
        let mut lhs = self.parse_term(depth)?;
        loop
            invariant
                self.wf(),
                old(self).moves_to(self),
                depth <= MAX_DEPTH,
                arith(old(self)@, min_bp, depth as nat) == operations(
                    lhs@,
                    self@,
                    min_bp,
                    depth as nat,
                ),
            decreases self@.len(),
        {
            let ghost s = self@;
            match self.peek_arith_op() {
                Some(op) => {
                    let (lbp, rbp) = binding_power(op);
                    if lbp < min_bp {
                        return Ok(lhs);
                    }
                    proof {
                        lemma_operator_is_next(s, op, rbp, depth as nat + 1);
                    }
                    self.cursor.eat(op.as_token());
                    let rhs = self.parse_arith(rbp, depth + 1)?;
                    lhs = MetricExpr::Arith { op, lhs: Box::new(lhs), rhs: Box::new(rhs) };
                },
                None => {
                    return Ok(lhs);
                },
            }
        }
    }

    /// Reads an operand.
    pub fn parse_term(&mut self, depth: usize) -> (r: Result<MetricExpr, ParseError>)
        requires
            old(self).wf(),
        ensures
            old(self).reads(final(self), r, term(old(self)@, depth as nat)),
        decreases MAX_DEPTH + 1 - depth, 5nat,
    {
        self.check_depth(depth)?;
        match self.cursor.peek() {
            None => Err(self.cursor.error("unexpected end of expression")),
            Some(c) => if c == '(' {
                self.parse_group(depth)
            } else if is_digit(c) || c == '+' || c == '-' || c == '.' {
                Ok(MetricExpr::Scalar(Scalar::new(self.cursor.take_number()?)))
            } else {
                let name = self.take_term_name()?;
                self.parse_named_term(name, depth)
            },
        }
    }

    fn parse_group(&mut self, depth: usize) -> (r: Result<MetricExpr, ParseError>)
        requires
            old(self).wf(),
            depth <= MAX_DEPTH,
        ensures
            old(self).reads(final(self), r, group(old(self)@, depth as nat)),
        decreases MAX_DEPTH + 1 - depth, 1nat,
    {
        self.cursor.expect("(")?;
        let inner = self.parse_arith(0, depth + 1)?;
        self.cursor.expect(")")?;
        Ok(inner)
    }

    fn parse_series_term(&mut self, name: &str) -> (r: Result<MetricExpr, ParseError>)
        requires
            old(self).wf(),
        ensures
            old(self).reads(final(self), r, series_term(name@, old(self)@)),
    {
        match SpaceAgg::from_token(name) {
            None => {
                let reason = naming("invalid space aggregation `", name);
                Err(self.cursor.error(reason.as_str()))
            },
            Some(space_aggregation) => {
                self.cursor.expect(":")?;
                Ok(MetricExpr::Series(self.parse_series(space_aggregation)?))
            },
        }
    }

    fn parse_named_term(&mut self, name: String, depth: usize) -> (r: Result<
        MetricExpr,
        ParseError,
    >)
        requires
            old(self).wf(),
            depth <= MAX_DEPTH,
        ensures
            old(self).reads(final(self), r, named_term(name@, old(self)@, depth as nat)),
        decreases MAX_DEPTH + 1 - depth, 3nat,
    {
        match self.cursor.peek() {
            Some(':') => self.parse_series_term(name.as_str()),
            Some('(') => self.parse_call(name, depth),
            _ => {
                let reason = naming("expected `:` or `(` after `", name.as_str());
                Err(self.cursor.error(reason.as_str()))
            },
        }
    }

    fn parse_call(&mut self, name: String, depth: usize) -> (r: Result<MetricExpr, ParseError>)
        requires
            old(self).wf(),
            depth <= MAX_DEPTH,
        ensures
            old(self).reads(final(self), r, call(name@, old(self)@, depth as nat)),
        decreases MAX_DEPTH + 1 - depth, 2nat,
    {
        match FuncKind::from_token(name.as_str()) {
            Some(func) => self.parse_function(func, depth),
            None => if is_combiner(name.as_str()) {
                self.parse_combination(name, depth)
            } else {
                self.parse_transform(name, depth)
            },
        }
    }

    /// Reads the call of an evaluation function, from its `(` on.
    pub fn parse_function(&mut self, name: FuncKind, depth: usize) -> (r: Result<
        MetricExpr,
        ParseError,
    >)
        requires
            old(self).wf(),
            depth <= MAX_DEPTH,
        ensures
            old(self).reads(final(self), r, function(name, old(self)@, depth as nat)),
        decreases MAX_DEPTH + 1 - depth, 1nat,
    {
        self.cursor.expect("(")?;
        let arg = self.parse_arith(0, depth + 1)?;
        let params = self.parse_params()?;
        self.cursor.expect(")")?;
        Ok(MetricExpr::Function { name, arg: Box::new(arg), params })
    }

    /// Reads the call of a transform, from its `(` on.
    pub fn parse_transform(&mut self, name: String, depth: usize) -> (r: Result<
        MetricExpr,
        ParseError,
    >)
        requires
            old(self).wf(),
            depth <= MAX_DEPTH,
        ensures
            old(self).reads(final(self), r, transform(name@, old(self)@, depth as nat)),
        decreases MAX_DEPTH + 1 - depth, 1nat,
    {
        self.cursor.expect("(")?;
        let arg = self.parse_arith(0, depth + 1)?;
        let args = self.parse_values()?;
        self.cursor.expect(")")?;
        Ok(MetricExpr::Transform { name, arg: Box::new(arg), args })
    }

    fn parse_combination(&mut self, name: String, depth: usize) -> (r: Result<
        MetricExpr,
        ParseError,
    >)
        requires
            old(self).wf(),
            depth <= MAX_DEPTH,
        ensures
            old(self).reads(final(self), r, combination(name@, old(self)@, depth as nat)),
        decreases MAX_DEPTH + 1 - depth, 1nat,
    {
        self.cursor.expect("(")?;
        let exprs = self.parse_operands(depth + 1)?;
        self.cursor.expect(")")?;
        Ok(combine(name, exprs))
    }

    /// Reads one or more expressions, separated by commas.
    fn parse_operands(&mut self, depth: usize) -> (r: Result<Vec<MetricExpr>, ParseError>)
        requires
            old(self).wf(),
        ensures
            old(self).reads_as(
                final(self),
                r,
                |v: Vec<MetricExpr>| exprs_view(v@),
                operands(old(self)@, depth as nat),
            ),
            r matches Ok(v) ==> v@.len() > 0,
        decreases MAX_DEPTH + 1 - depth, 8nat,
    {
        let mut out: Vec<MetricExpr> = Vec::new();
        proof {
            assert(exprs_view(out@) =~= seq![]);
            lemma_attached(seq![], seq![], operands(self@, depth as nat));
        }
        loop
            invariant
                self.wf(),
                old(self).moves_to(self),
                    operands(old(self)@, depth as nat) == attached(
                    exprs_view(out@),
                    operands(self@, depth as nat),
                ),
            decreases self@.len(),
        {
            let ghost before = out@;
            let expr = self.parse_arith(0, depth)?;
            out.push(expr);
            proof {
                reveal_strlit(",");
                assert(out@.drop_last() =~= before);
                assert(exprs_view(out@) =~= exprs_view(before) + seq![expr@]);
            }
            if !self.cursor.eat(",") {
                return Ok(out);
            }
            proof {
                lemma_attached(exprs_view(before), seq![expr@], operands(self@, depth as nat));
            }
        }
    }

    // ----- composite expressions --------------------------------------------

    /// Reads a boolean expression over monitors.
    pub fn parse_composite(&mut self, depth: usize) -> (r: Result<CompositeExpr, ParseError>)
        requires
            old(self).wf(),
        ensures
            old(self).reads(final(self), r, disjunction(old(self)@, depth as nat)),
    {
        self.parse_composite_or(depth)
    }

    /// Reads alternatives, joined by `||`.
    pub fn parse_composite_or(&mut self, depth: usize) -> (r: Result<CompositeExpr, ParseError>)
        requires
            old(self).wf(),
        ensures
            old(self).reads(final(self), r, disjunction(old(self)@, depth as nat)),
        decreases MAX_DEPTH + 1 - depth, 5nat,
    {
        self.check_depth(depth)?;
        let mut lhs = self.parse_composite_and(depth)?;
        loop
            invariant
                self.wf(),
                old(self).moves_to(self),
                depth <= MAX_DEPTH,
                disjunction(old(self)@, depth as nat) == disjuncts(lhs@, self@, depth as nat),
            decreases self@.len(),
        {
            proof {
                reveal_strlit("||");
            }
            if !self.cursor.eat("||") {
                return Ok(lhs);
            }
            let rhs = self.parse_composite_and(depth + 1)?;
            lhs = CompositeExpr::Binary { op: BoolOp::Or, lhs: Box::new(lhs), rhs: Box::new(rhs) };
        }
    }

    /// Reads conjuncts, joined by `&&`.
    pub fn parse_composite_and(&mut self, depth: usize) -> (r: Result<CompositeExpr, ParseError>)
        requires
            old(self).wf(),
        ensures
            old(self).reads(final(self), r, conjunction(old(self)@, depth as nat)),
        decreases MAX_DEPTH + 1 - depth, 3nat,
    {
        self.check_depth(depth)?;
        let mut lhs = self.parse_composite_unary(depth)?;
        loop
            invariant
                self.wf(),
                old(self).moves_to(self),
                depth <= MAX_DEPTH,
                conjunction(old(self)@, depth as nat) == conjuncts(lhs@, self@, depth as nat),
            decreases self@.len(),
        {
            proof {
                reveal_strlit("&&");
            }
            if !self.cursor.eat("&&") {
                return Ok(lhs);
            }
            let rhs = self.parse_composite_unary(depth + 1)?;
            lhs = CompositeExpr::Binary { op: BoolOp::And, lhs: Box::new(lhs), rhs: Box::new(rhs) };
        }
    }

    /// Reads a negation, an expression in parentheses or the id of a monitor.
    pub fn parse_composite_unary(&mut self, depth: usize) -> (r: Result<CompositeExpr, ParseError>)
        requires
            old(self).wf(),
        ensures
            old(self).reads(final(self), r, negation(old(self)@, depth as nat)),
        decreases MAX_DEPTH + 1 - depth, 1nat,
    {
        self.check_depth(depth)?;
        proof {
            lemma_skipped_once(self@);
        }
        if self.cursor.eat("!") {
            let inner = self.parse_composite_unary(depth + 1)?;
            return Ok(CompositeExpr::Not(Box::new(inner)));
        }
        if self.cursor.eat("(") {
            let inner = self.parse_composite_or(depth + 1)?;
            self.cursor.expect(")")?;
            return Ok(inner);
        }
        let f = |c: char| -> (b: bool)
            ensures
                b == digit(c),
            { is_digit(c) };
        let id = self.take_chars(f, Ghost(in_digits()));
        if id.is_empty() {
            return Err(self.cursor.error("expected a monitor id"));
        }
        Ok(CompositeExpr::Ref(MonitorRef { id: copy_of(id) }))
    }

    // ----- search queries ---------------------------------------------------

    /// Consumes the longest run of characters of a query's head.
    fn take_head_chars(&mut self) -> (r: &'a str)
        requires
            old(self).wf(),
        ensures
            old(self).moves_to(final(self)),
            r@ == taken(old(self)@, in_head()),
            final(self)@ == untaken(old(self)@, in_head()),
    {
        let f = |c: char| -> (b: bool)
            ensures
                b == (ident_char(c) || c == '-'),
            { is_ident(c) || c == '-' };
        self.take_chars(f, Ghost(in_head()))
    }

    /// Reads the source of a search.
    pub fn take_source(&mut self) -> (r: Result<SearchSource, ParseError>)
        requires
            old(self).wf(),
        ensures
            old(self).reads_as(final(self), r, |v: SearchSource| v, source(old(self)@)),
    {
        let id = self.take_head_chars();
        match search_source(id) {
            Some(v) => Ok(v),
            None => {
                let reason = naming("invalid search source `", id);
                Err(self.cursor.error(reason.as_str()))
            },
        }
    }

    fn take_quoted_in_parens(&mut self) -> (r: Result<String, ParseError>)
        requires
            old(self).wf(),
        ensures
            old(self).reads(final(self), r, quoted_in_parens(old(self)@)),
    {
        self.cursor.expect("(")?;
        let text = self.cursor.take_quoted()?;
        self.cursor.expect(")")?;
        Ok(text)
    }

    /// Reads a search query.
    pub fn parse_search(&mut self) -> (r: Result<SearchQuery, ParseError>)
        requires
            old(self).wf(),
        ensures
            old(self).reads(final(self), r, search(old(self)@)),
    {
        let place = self.take_source()?;
        let raw_search = self.take_quoted_in_parens()?;
        let mut index: Option<String> = None;
        let mut rollup_method: Option<String> = None;
        let mut rollup_arg: Option<String> = None;
        let mut group_by: Vec<String> = Vec::new();
        let mut last: Option<String> = None;
        let ghost start = self@;
        proof {
            assert(texts(group_by@) =~= seq![]);
        }
        loop
            invariant_except_break
                self.wf(),
                old(self).moves_to(self),
                search_methods(no_search_parts(), start) == search_methods(
                    search_parts(index, rollup_method, rollup_arg, group_by, last),
                    self@,
                ),
            invariant
                search(old(self)@) == search_from(place, raw_search@, start),
            ensures
                self.wf(),
                old(self).moves_to(self),
                search_methods(no_search_parts(), start) == done(
                    search_parts(index, rollup_method, rollup_arg, group_by, last),
                    self@,
                ),
            decreases self@.len(),
        {
            proof {
                reveal_strlit(".");
            }
            if !self.cursor.eat(".") {
                break ;
            }
            let method = self.take_ident()?;
            self.cursor.expect("(")?;
            let args = self.parse_string_args()?;
            if same(method.as_str(), "index") {
                index = nonempty_at(&args, 0);
            } else if same(method.as_str(), "rollup") {
                rollup_method = copy_at(&args, 0);
                rollup_arg = copy_at(&args, 1);
            } else if same(method.as_str(), "by") {
                group_by = args;
            } else if same(method.as_str(), "last") {
                last = copy_at(&args, 0);
            } else {
                let reason = naming("unknown search method `", method.as_str());
                return Err(self.cursor.error(reason.as_str()));
            }
        }
        let rollup_method = match rollup_method {
            Some(m) => m,
            None => {
                return Err(self.cursor.error("search query missing `.rollup(...)`"));
            },
        };
        let last = match last {
            Some(w) => w,
            None => {
                return Err(self.cursor.error("search query missing `.last(...)`"));
            },
        };
        let condition = self.parse_condition()?;
        Ok(
            SearchQuery {
                source: place,
                raw_search,
                index,
                rollup_method,
                rollup_arg,
                group_by,
                last,
                condition,
            },
        )
    }

    // ----- service checks ---------------------------------------------------

    /// Reads the number of runs after `.last(`, through the closing `)`.
    fn parse_runs(&mut self) -> (r: Result<u32, ParseError>)
        requires
            old(self).wf(),
        ensures
            old(self).reads_as(final(self), r, |n: u32| n, runs(old(self)@)),
    {
        let n = self.cursor.take_number()?;
        self.cursor.expect(")")?;
        match n.to_u32() {
            Some(count) => Ok(count),
            None => Err(self.cursor.error("`.last(n)` must be a non-negative integer")),
        }
    }

    /// Reads a service-check query.
    pub fn parse_check(&mut self) -> (r: Result<CheckQuery, ParseError>)
        requires
            old(self).wf(),
        ensures
            old(self).reads(final(self), r, check(old(self)@)),
    {
        let name = self.cursor.take_quoted()?;
        let mut over: Vec<String> = Vec::new();
        let mut by: Vec<String> = Vec::new();
        let mut last: Option<u32> = None;
        let mut saw_count: bool = false;
        proof {
            assert(texts(over@) =~= seq![]);
        }
        loop
            invariant_except_break
                self.wf(),
                old(self).moves_to(self),
                quoting(old(self)@).result == Ok::<Seq<char>, Seq<char>>(name@),
                check_methods(no_check_parts(), quoting(old(self)@).rest) == check_methods(
                    check_parts(over, by, last, saw_count),
                    self@,
                ),
            ensures
                self.wf(),
                old(self).moves_to(self),
                quoting(old(self)@).result == Ok::<Seq<char>, Seq<char>>(name@),
                check_methods(no_check_parts(), quoting(old(self)@).rest) == done(
                    check_parts(over, by, last, saw_count),
                    self@,
                ),
            decreases self@.len(),
        {
            proof {
                reveal_strlit(".");
                lemma_check_tokens();
            }
            if !self.cursor.eat(".") {
                break ;
            }
            let method = self.take_ident()?;
            self.cursor.expect("(")?;
            if same(method.as_str(), "over") {
                over = self.parse_string_args()?;
            } else if same(method.as_str(), "by") {
                by = self.parse_string_args()?;
            } else if same(method.as_str(), "last") {
                last = Some(self.parse_runs()?);
            } else if same(method.as_str(), "count_by_status") {
                self.parse_string_args()?;
                saw_count = true;
            } else {
                let reason = naming("unknown check method `", method.as_str());
                return Err(self.cursor.error(reason.as_str()));
            }
        }
        let last: u32 = match last {
            Some(n) => n,
            None => {
                return Err(self.cursor.error("check query missing `.last(n)`"));
            },
        };
        if !saw_count {
            return Err(self.cursor.error("check query missing `.count_by_status()`"));
        }
        Ok(CheckQuery { check: name, over, by, last })
    }

    // ----- error budgets ----------------------------------------------------

    fn parse_budget_window(&mut self) -> (r: Result<String, ParseError>)
        requires
            old(self).wf(),
        ensures
            old(self).reads(final(self), r, budget_window(old(self)@)),
    {
        let method = self.take_ident()?;
        if !same(method.as_str(), "over") {
            let reason = naming("expected `.over(...)`, found `.", method.as_str());
            return Err(self.cursor.error(reason.as_str()));
        }
        self.take_quoted_in_parens()
    }

    /// Reads an error-budget query.
    pub fn parse_slo(&mut self) -> (r: Result<SloQuery, ParseError>)
        requires
            old(self).wf(),
        ensures
            old(self).reads(final(self), r, slo(old(self)@)),
    {
        self.cursor.expect("error_budget")?;
        let id = self.take_quoted_in_parens()?;
        self.cursor.expect(".")?;
        let over = self.parse_budget_window()?;
        let condition = self.parse_condition()?;
        Ok(SloQuery { id, over, condition })
    }

    // ----- metric queries ---------------------------------------------------

    fn take_window_in_parens(&mut self) -> (r: Result<Window, ParseError>)
        requires
            old(self).wf(),
        ensures
            old(self).reads(final(self), r, window_in_parens(old(self)@)),
    {
        self.cursor.expect("(")?;
        let w = self.take_window()?;
        self.cursor.expect(")")?;
        Ok(w)
    }

    fn parse_metric_body(&mut self) -> (r: Result<(MetricExpr, Condition), ParseError>)
        requires
            old(self).wf(),
        ensures
            old(self).reads_as(
                final(self),
                r,
                |v: (MetricExpr, Condition)| (v.0@, v.1),
                metric_body(old(self)@),
            ),
    {
        self.cursor.expect(":")?;
        let expr = self.parse_arith(0, 0)?;
        let condition = self.parse_condition()?;
        Ok((expr, condition))
    }

    fn time_agg(&self, name: &str) -> (r: Result<TimeAgg, ParseError>)
        requires
            self.wf(),
        ensures
            match r {
                Ok(agg) => TimeAgg::of_token(name@) == Some(agg),
                Err(e) => TimeAgg::of_token(name@) is None && e@ == error_at(
                    self.source(),
                    self@,
                    no_time_agg(name@),
                ),
            },
    {
        match TimeAgg::from_token(name) {
            Some(agg) => Ok(agg),
            None => {
                let reason = naming("invalid time aggregation `", name);
                Err(self.cursor.error(reason.as_str()))
            },
        }
    }

    /// `change(avg(last_5m),last_1h): expr op threshold`, after the name.
    pub fn parse_change_metric(&mut self, kind: ChangeKind) -> (r: Result<MetricQuery, ParseError>)
        requires
            old(self).wf(),
        ensures
            old(self).reads(final(self), r, change_metric(kind, old(self)@)),
    {
        self.cursor.expect("(")?;
        let inner = self.take_ident()?;
        let inner_agg = self.time_agg(inner.as_str())?;
        let window = self.take_window_in_parens()?;
        self.cursor.expect(",")?;
        let shift = self.take_window()?;
        self.cursor.expect(")")?;
        let (expr, condition) = self.parse_metric_body()?;
        let expr = MetricExpr::Change { kind, inner_agg, shift, arg: Box::new(expr) };
        Ok(MetricQuery { time_aggregation: inner_agg, window, expr, condition })
    }

    /// Reads a metric query.
    pub fn parse_metric(&mut self) -> (r: Result<MetricQuery, ParseError>)
        requires
            old(self).wf(),
        ensures
            old(self).reads(final(self), r, metric(old(self)@)),
    {
        let head = self.take_ident()?;
        if let Some(kind) = ChangeKind::from_token(head.as_str()) {
            return self.parse_change_metric(kind);
        }
        let time_aggregation = self.time_agg(head.as_str())?;
        let window = self.take_window_in_parens()?;
        let (expr, condition) = self.parse_metric_body()?;
        Ok(MetricQuery { time_aggregation, window, expr, condition })
    }

    // ----- queries ----------------------------------------------------------

    /// The name that comes next (with `-`, for `error-tracking`), which is not
    /// consumed.
    pub fn peek_ident(&self) -> (r: String)
        requires
            self.wf(),
        ensures
            r@ == taken(self@, in_head()),
    {
        let mut probe = Parser { cursor: self.cursor.clone() };
        copy_of(probe.take_head_chars())
    }

    /// Dispatches to the parser of a dialect by what comes first.
    pub fn parse_query(&mut self) -> (r: Result<MonitorQuery, ParseError>)
        requires
            old(self).wf(),
        ensures
            old(self).reads(final(self), r, query(old(self)@)),
    {
        self.cursor.skip_ws();
        match self.cursor.peek() {
            None => Err(self.cursor.error("empty query")),
            Some(c) => if c == '"' {
                Ok(MonitorQuery::ServiceCheck(self.parse_check()?))
            } else if is_digit(c) || c == '!' || c == '(' {
                Ok(MonitorQuery::Composite(self.parse_composite(0)?))
            } else {
                let head = self.peek_ident();
                if same(head.as_str(), "error_budget") {
                    Ok(MonitorQuery::Slo(self.parse_slo()?))
                } else if search_source(head.as_str()).is_some() {
                    Ok(MonitorQuery::Search(self.parse_search()?))
                } else if is_combiner(head.as_str()) || ChangeKind::from_token(
                    head.as_str(),
                ).is_some() {
                    Ok(MonitorQuery::Metric(self.parse_metric()?))
                } else if head.as_str().is_empty() {
                    Err(self.cursor.error("unrecognized query"))
                } else {
                    let reason = naming("unrecognized query head `", head.as_str());
                    Err(self.cursor.error(reason.as_str()))
                }
            },
        }
    }
}

/// Parses a monitor query into a typed tree.
///
/// # Errors
///
/// Returns a [`ParseError`] (byte offset and reason) where the query belongs to
/// no known dialect. [`crate::parse_or_unparsed`] does not fail: it returns
/// [`MonitorQuery::Unparsed`] instead.
pub fn parse(query: &str) -> (r: Result<MonitorQuery, ParseError>)
    ensures
        match r {
            Ok(q) => parsed(query@) == Ok::<MonitorQueryView, ParseErrorView>(q@),
            Err(e) => {
                &&& parsed(query@) == Err::<MonitorQueryView, ParseErrorView>(e@)
                &&& e@.offset <= bytes(query@)
                &&& is_char_boundary(encode_utf8(query@), e@.offset as int)
            },
        },
{
    let mut parser = Parser::new(query);
    proof {
        parser.cursor.lemma_boundary();
    }
    if trim(query).as_str().is_empty() {
        return Err(ParseError::new(0, "empty query"));
    }
    let outcome = parser.parse_query();
    proof {
        parser.cursor.lemma_boundary();
    }
    let result = outcome?;
    parser.cursor.skip_ws();
    if !parser.cursor.is_done() {
        proof {
            parser.cursor.lemma_boundary();
        }
        return Err(parser.cursor.error("unexpected trailing input"));
    }
    Ok(result)
}

} // verus!
