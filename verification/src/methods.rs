//! Chained methods: the order in which they are written does not matter.

use vstd::prelude::*;
use crate::ast::{
    CheckQueryView, Condition, MonitorQueryView, SearchQueryView, SpaceAgg, SpaceAggView,
};
use crate::spaces::{lemma_trimmed_end_spaces, spaces};
use crate::binary64::{
    grid, integer_of, lemma_grid_monotone, lemma_nearest_unique, lemma_rounds_to_itself, one,
    Binary64, BINADE, INFINITE,
};
use crate::cursor::{
    done, eaten, expecting, fail, has_digit, lemma_skipped_once, lemma_split, next_is, number_span,
    quoting, skipped,
};
use crate::grammar::{
    arg_at, check, check_method, check_methods, condition, dialect_of, identifier, in_bare_arg,
    in_head, in_ident, more_string_args, no_check_parts, no_search_parts, parsed, query,
    quoted_in_parens, runs, search, search_end, search_method, search_methods, source, source_of,
    string_arg, string_args, CheckParts, Dialect, SearchParts,
};
use crate::laws::{
    escaped, law_quoted_text_is_read_back, lemma_eat_first, lemma_first, lemma_trimmed_end,
};
use crate::laws::law_space_agg_is_read_back;
use crate::literal::{number_of, numerator};
use crate::natural::{
    lemma_power_adds, lemma_power_monotone, lemma_power_positive, lemma_powers_of_two,
    lemma_two_to_32, power,
};
use crate::rendering::{lemma_decimal, lemma_plain_literal};
use crate::text::{
    ascii_white, decimal, digit, ident_char, lemma_run_behind, lemma_run_is, trimmed, trimmed_start,
    white,
};

verus! {

// ----- lists in any order -------------------------------------------------------

/// The last of `calls` that satisfies `p`, if any.
pub open spec fn last_of<T>(calls: Seq<T>, p: spec_fn(T) -> bool) -> Option<T>
    decreases calls.len(),
{
    if calls.len() == 0 {
        None
    } else if p(calls.last()) {
        Some(calls.last())
    } else {
        last_of(calls.drop_last(), p)
    }
}

proof fn lemma_last_of<T>(calls: Seq<T>, p: spec_fn(T) -> bool)
    ensures
        match last_of(calls, p) {
            Some(c) => p(c) && calls.contains(c),
            None => forall|i: int| 0 <= i < calls.len() ==> !p(#[trigger] calls[i]),
        },
    decreases calls.len(),
{
    if calls.len() > 0 && !p(calls.last()) {
        let front = calls.drop_last();
        lemma_last_of(front, p);
        match last_of(front, p) {
            Some(c) => {
                let i = choose|i: int| 0 <= i < front.len() && front[i] == c;
                assert(calls[i] == c);
            },
            None => {
                assert forall|i: int| 0 <= i < calls.len() implies !p(#[trigger] calls[i]) by {
                    if i < front.len() {
                        assert(front[i] == calls[i]);
                    }
                }
            },
        }
    }
}

/// At most one of `calls` satisfies `p`.
pub open spec fn at_most_one<T>(calls: Seq<T>, p: spec_fn(T) -> bool) -> bool {
    forall|i: int, j: int|
        0 <= i < calls.len() && 0 <= j < calls.len() && p(#[trigger] calls[i]) && p(
            #[trigger] calls[j],
        ) ==> i == j
}

/// The call that satisfies `p` is the same in every order.
proof fn lemma_any_order<T>(calls: Seq<T>, other: Seq<T>, p: spec_fn(T) -> bool)
    requires
        calls.to_multiset() == other.to_multiset(),
        at_most_one(calls, p),
    ensures
        last_of(calls, p) == last_of(other, p),
{
    broadcast use vstd::seq_lib::group_to_multiset_ensures;

    lemma_last_of(calls, p);
    lemma_last_of(other, p);
    match last_of(other, p) {
        Some(c) => {
            assert(other.to_multiset().count(c) > 0);
            assert(calls.to_multiset().count(c) > 0);
            let j = choose|j: int| 0 <= j < calls.len() && calls[j] == c;
            assert(p(calls[j]));
            let d = last_of(calls, p)->Some_0;
            let i = choose|i: int| 0 <= i < calls.len() && calls[i] == d;
            assert(p(calls[i]));
        },
        None => {
            if last_of(calls, p) is Some {
                let d = last_of(calls, p)->Some_0;
                assert(calls.to_multiset().count(d) > 0);
                assert(other.to_multiset().count(d) > 0);
                let i = choose|i: int| 0 <= i < other.len() && other[i] == d;
                assert(p(other[i]));
            }
        },
    }
}

/// Both texts are read as one query, or both are refused.
pub open spec fn same_outcome(a: Seq<char>, b: Seq<char>) -> bool {
    match (parsed(a), parsed(b)) {
        (Ok(x), Ok(y)) => x == y,
        (Err(_), Err(_)) => true,
        _ => false,
    }
}

/// Nothing but white space is left.
pub open spec fn ends(rest: Seq<char>) -> bool {
    trimmed_start(skipped(rest)).len() == 0
}

// ----- arguments ----------------------------------------------------------------

/// A quoted argument.
pub open spec fn quoted(text: Seq<char>) -> Seq<char> {
    seq!['"'] + escaped(text) + seq!['"']
}

/// Quoted arguments, through the closing parenthesis.
pub open spec fn quoted_args(args: Seq<Seq<char>>) -> Seq<char>
    decreases args.len(),
{
    if args.len() == 0 {
        seq![')']
    } else if args.len() == 1 {
        quoted(args[0]) + seq![')']
    } else {
        quoted(args[0]) + seq![','] + quoted_args(args.skip(1))
    }
}

pub(crate) proof fn lemma_quoted(text: Seq<char>, rest: Seq<char>)
    ensures
        (quoted(text) + rest)[0] == '"',
        quoting(quoted(text) + rest) == done(text, rest),
        string_arg(quoted(text) + rest) == done(text, rest),
        skipped(quoted(text) + rest) == quoted(text) + rest,
{
    let s = quoted(text) + rest;
    assert(s =~= seq!['"'] + escaped(text) + seq!['"'] + rest);
    law_quoted_text_is_read_back(text, '"', rest);
    assert(s[0] == '"');
    lemma_first(s);
}

proof fn lemma_more_args(args: Seq<Seq<char>>, rest: Seq<char>)
    requires
        args.len() > 0,
    ensures
        more_string_args(quoted_args(args) + rest) == done(args, rest),
    decreases args.len(),
{
    let s = quoted_args(args) + rest;
    reveal_strlit(",");
    reveal_strlit(")");
    if args.len() == 1 {
        let t = seq![')'] + rest;
        assert(s =~= quoted(args[0]) + t);
        lemma_quoted(args[0], t);
        assert(t[0] == ')');
        lemma_eat_first(t, ","@);
        lemma_eat_first(t, ")"@);
        assert(t.skip(1) =~= rest);
        assert(seq![args[0]] =~= args);
    } else {
        let more = args.skip(1);
        let t = seq![','] + (quoted_args(more) + rest);
        assert(s =~= quoted(args[0]) + t);
        lemma_quoted(args[0], t);
        assert(t[0] == ',');
        lemma_eat_first(t, ","@);
        assert(t.skip(1) =~= quoted_args(more) + rest);
        lemma_more_args(more, rest);
        assert(seq![args[0]] + more =~= args);
    }
}

pub(crate) proof fn lemma_args(args: Seq<Seq<char>>, rest: Seq<char>)
    ensures
        string_args(quoted_args(args) + rest) == done(args, rest),
{
    let s = quoted_args(args) + rest;
    reveal_strlit(")");
    if args.len() == 0 {
        assert(s[0] == ')');
        lemma_eat_first(s, ")"@);
        assert(s.skip(1) =~= rest);
        assert(args =~= seq![]);
    } else {
        assert(s[0] == '"') by {
            assert(quoted(args[0])[0] == '"');
        }
        lemma_eat_first(s, ")"@);
        lemma_first(s);
        lemma_more_args(args, rest);
    }
}

/// `.name(`, before what follows.
pub open spec fn opened(name: Seq<char>) -> Seq<char> {
    seq!['.'] + name + seq!['(']
}

/// The name of a method is read up to its parenthesis.
pub(crate) proof fn lemma_opened(name: Seq<char>, rest: Seq<char>)
    requires
        name.len() > 0,
        forall|i: int| 0 <= i < name.len() ==> ident_char(#[trigger] name[i]),
    ensures
        next_is(opened(name) + rest, "."@),
        identifier(eaten(opened(name) + rest, "."@)) == done(name, seq!['('] + rest),
        expecting(seq!['('] + rest, "("@) == done((), rest),
{
    let s = opened(name) + rest;
    let t = seq!['('] + rest;
    let u = name + t;
    reveal_strlit(".");
    reveal_strlit("(");
    assert(s[0] == '.');
    lemma_eat_first(s, "."@);
    assert(s.skip(1) =~= u);
    assert(u[0] == name[0]);
    lemma_first(u);
    assert(t[0] == '(');
    lemma_split(u, name, t, in_ident());
    lemma_eat_first(t, "("@);
    assert(t.skip(1) =~= rest);
}

// ----- searches -----------------------------------------------------------------

/// A method of a search, with its arguments.
pub enum SearchCall {
    Index(Seq<Seq<char>>),
    Rollup(Seq<Seq<char>>),
    By(Seq<Seq<char>>),
    Last(Seq<Seq<char>>),
}

impl SearchCall {
    /// The name of the method.
    pub open spec fn name(self) -> Seq<char> {
        match self {
            SearchCall::Index(_) => "index"@,
            SearchCall::Rollup(_) => "rollup"@,
            SearchCall::By(_) => "by"@,
            SearchCall::Last(_) => "last"@,
        }
    }

    /// The arguments.
    pub open spec fn args(self) -> Seq<Seq<char>> {
        match self {
            SearchCall::Index(args) => args,
            SearchCall::Rollup(args) => args,
            SearchCall::By(args) => args,
            SearchCall::Last(args) => args,
        }
    }

    /// The call as it is written.
    pub open spec fn text(self) -> Seq<char> {
        opened(self.name()) + quoted_args(self.args())
    }
}

/// The calls one after another.
pub open spec fn search_calls(calls: Seq<SearchCall>) -> Seq<char>
    decreases calls.len(),
{
    if calls.len() == 0 {
        seq![]
    } else {
        search_calls(calls.drop_last()) + calls.last().text()
    }
}

/// The calls differ in their methods.
pub open spec fn distinct_search_calls(calls: Seq<SearchCall>) -> bool {
    &&& at_most_one(calls, |c: SearchCall| c is Index)
    &&& at_most_one(calls, |c: SearchCall| c is Rollup)
    &&& at_most_one(calls, |c: SearchCall| c is By)
    &&& at_most_one(calls, |c: SearchCall| c is Last)
}

/// What the calls set.
spec fn set_by_search(calls: Seq<SearchCall>) -> SearchParts {
    let rollup = last_of(calls, |c: SearchCall| c is Rollup);
    SearchParts {
        index: match last_of(calls, |c: SearchCall| c is Index) {
            Some(c) => if c.args().len() > 0 && c.args()[0].len() > 0 {
                Some(c.args()[0])
            } else {
                None
            },
            None => None,
        },
        rollup_method: match rollup {
            Some(c) => arg_at(c.args(), 0),
            None => None,
        },
        rollup_arg: match rollup {
            Some(c) => arg_at(c.args(), 1),
            None => None,
        },
        group_by: match last_of(calls, |c: SearchCall| c is By) {
            Some(c) => c.args(),
            None => seq![],
        },
        last: match last_of(calls, |c: SearchCall| c is Last) {
            Some(c) => arg_at(c.args(), 0),
            None => None,
        },
    }
}

proof fn lemma_search_name(c: SearchCall, parts: SearchParts)
    ensures
        c.name().len() > 0,
        forall|i: int| 0 <= i < c.name().len() ==> ident_char(#[trigger] c.name()[i]),
        search_method(parts, c.name(), c.args()) == Some(
            match c {
                SearchCall::Index(args) => SearchParts {
                    index: if args.len() > 0 && args[0].len() > 0 {
                        Some(args[0])
                    } else {
                        None
                    },
                    ..parts
                },
                SearchCall::Rollup(args) => SearchParts {
                    rollup_method: arg_at(args, 0),
                    rollup_arg: arg_at(args, 1),
                    ..parts
                },
                SearchCall::By(args) => SearchParts { group_by: args, ..parts },
                SearchCall::Last(args) => SearchParts { last: arg_at(args, 0), ..parts },
            },
        ),
{
    reveal_strlit("index");
    reveal_strlit("rollup");
    reveal_strlit("by");
    reveal_strlit("last");
    assert("index"@.len() == 5 && "rollup"@.len() == 6 && "by"@.len() == 2 && "last"@.len() == 4);
}

/// One call is read, and sets what it says.
proof fn lemma_search_call(c: SearchCall, parts: SearchParts, rest: Seq<char>)
    ensures
        search_methods(parts, c.text() + rest) == search_methods(
            search_method(parts, c.name(), c.args())->Some_0,
            rest,
        ),
{
    let s = c.text() + rest;
    let tail = quoted_args(c.args()) + rest;
    lemma_search_name(c, parts);
    assert(s =~= opened(c.name()) + tail);
    lemma_opened(c.name(), tail);
    lemma_args(c.args(), rest);
}

/// The calls are read, and set what they say.
proof fn lemma_search_calls(calls: Seq<SearchCall>, rest: Seq<char>)
    ensures
        search_methods(no_search_parts(), search_calls(calls) + rest) == search_methods(
            set_by_search(calls),
            rest,
        ),
    decreases calls.len(),
{
    if calls.len() == 0 {
        assert(search_calls(calls) + rest =~= rest);
        assert(set_by_search(calls) == no_search_parts());
    } else {
        let (front, c) = (calls.drop_last(), calls.last());
        assert(search_calls(calls) + rest =~= search_calls(front) + (c.text() + rest));
        lemma_search_calls(front, c.text() + rest);
        lemma_search_call(c, set_by_search(front), rest);
        lemma_search_name(c, set_by_search(front));
    }
}

/// A search as it is written: a source, a search string, methods and a
/// condition.
pub open spec fn search_source_text(
    name: Seq<char>,
    raw: Seq<char>,
    calls: Seq<SearchCall>,
    end: Seq<char>,
) -> Seq<char> {
    name + seq!['('] + quoted_args(seq![raw]) + search_calls(calls) + end
}

proof fn lemma_source_name(name: Seq<char>)
    requires
        source_of(name) is Some,
    ensures
        name.len() > 0,
        forall|i: int| 0 <= i < name.len() ==> in_head()(#[trigger] name[i]),
{
    reveal_strlit("logs");
    reveal_strlit("events");
    reveal_strlit("rum");
    reveal_strlit("error-tracking");
}

proof fn lemma_search_head(name: Seq<char>, raw: Seq<char>, rest: Seq<char>)
    requires
        source_of(name) is Some,
    ensures
        source(name + seq!['('] + quoted_args(seq![raw]) + rest) == done(
            source_of(name)->Some_0,
            seq!['('] + quoted_args(seq![raw]) + rest,
        ),
        quoted_in_parens(seq!['('] + quoted_args(seq![raw]) + rest) == done(raw, rest),
{
    let t = seq!['('] + quoted_args(seq![raw]) + rest;
    let s = name + seq!['('] + quoted_args(seq![raw]) + rest;
    lemma_source_name(name);
    assert(s =~= name + t);
    assert(in_head()(name[0]));
    assert(s[0] == name[0]);
    lemma_first(s);
    assert(t[0] == '(');
    lemma_split(s, name, t, in_head());
    reveal_strlit("(");
    reveal_strlit(")");
    lemma_eat_first(t, "("@);
    let closing = seq![')'] + rest;
    assert(t.skip(1) =~= quoted(raw) + closing);
    lemma_quoted(raw, closing);
    assert(closing[0] == ')');
    lemma_eat_first(closing, ")"@);
    assert(closing.skip(1) =~= rest);
}

/// The order of distinct methods of a search does not matter: in every order a
/// search that has a rollup, a window and a condition is read, and as the same
/// query; so is the whole text, where nothing follows the condition.
pub proof fn law_search_methods_in_any_order(
    name: Seq<char>,
    raw: Seq<char>,
    calls: Seq<SearchCall>,
    other: Seq<SearchCall>,
    end: Seq<char>,
)
    requires
        source_of(name) is Some,
        calls.to_multiset() == other.to_multiset(),
        distinct_search_calls(calls),
        forall|i: int|
            0 <= i < calls.len() && ((#[trigger] calls[i]) is Rollup || calls[i] is Last)
                ==> calls[i].args().len() > 0,
        exists|i: int| 0 <= i < calls.len() && (#[trigger] calls[i]) is Rollup,
        exists|i: int| 0 <= i < calls.len() && (#[trigger] calls[i]) is Last,
        !next_is(end, "."@),
        condition(skipped(end)).result is Ok,
    ensures
        search(search_source_text(name, raw, calls, end)).result is Ok,
        search(search_source_text(name, raw, calls, end)) == search(
            search_source_text(name, raw, other, end),
        ),
        same_outcome(
            search_source_text(name, raw, calls, end),
            search_source_text(name, raw, other, end),
        ),
        ends(condition(skipped(end)).rest) ==> parsed(
            search_source_text(name, raw, calls, end),
        ) is Ok,
{
    lemma_search_read(name, raw, calls, end);
    lemma_search_read(name, raw, other, end);
    lemma_search_dialect(name, raw, calls, end);
    lemma_search_dialect(name, raw, other, end);
    let rollup = |c: SearchCall| c is Rollup;
    let last = |c: SearchCall| c is Last;
    lemma_any_order(calls, other, |c: SearchCall| c is Index);
    lemma_any_order(calls, other, rollup);
    lemma_any_order(calls, other, |c: SearchCall| c is By);
    lemma_any_order(calls, other, last);
    lemma_last_of(calls, rollup);
    lemma_last_of(calls, last);
    let r = last_of(calls, rollup)->Some_0;
    let l = last_of(calls, last)->Some_0;
    let a = choose|i: int| 0 <= i < calls.len() && (#[trigger] calls[i]) is Rollup;
    let b = choose|i: int| 0 <= i < calls.len() && (#[trigger] calls[i]) is Last;
    assert(rollup(calls[a]) && last(calls[b]));
    let i = choose|i: int| 0 <= i < calls.len() && calls[i] == r;
    let j = choose|j: int| 0 <= j < calls.len() && calls[j] == l;
    assert(calls[i].args().len() > 0 && calls[j].args().len() > 0);
}

proof fn lemma_search_read(name: Seq<char>, raw: Seq<char>, calls: Seq<SearchCall>, end: Seq<char>)
    requires
        source_of(name) is Some,
        !next_is(end, "."@),
    ensures
        search(search_source_text(name, raw, calls, end)) == search_end(
            source_of(name)->Some_0,
            raw,
            set_by_search(calls),
            skipped(end),
        ),
{
    let s = search_source_text(name, raw, calls, end);
    let tail = search_calls(calls) + end;
    assert(s =~= name + seq!['('] + quoted_args(seq![raw]) + tail);
    lemma_search_head(name, raw, tail);
    lemma_search_calls(calls, end);
}

/// What a search is read as, field by field, from what was written: the source by
/// its name, the search string, and of each method what its last call says. The
/// rollup has its method first and its argument second, an empty index is none, and
/// tags that are not given are none.
pub proof fn law_searches_are_read_as_written(
    name: Seq<char>,
    raw: Seq<char>,
    calls: Seq<SearchCall>,
    end: Seq<char>,
)
    requires
        source_of(name) is Some,
        last_of(calls, |c: SearchCall| c is Rollup) matches Some(c) && c.args().len() > 0,
        last_of(calls, |c: SearchCall| c is Last) matches Some(c) && c.args().len() > 0,
        !next_is(end, "."@),
        condition(skipped(end)).result is Ok,
    ensures
        search(search_source_text(name, raw, calls, end)).rest == condition(skipped(end)).rest,
        search(search_source_text(name, raw, calls, end)).result matches Ok(q) && {
            let rollup = last_of(calls, |c: SearchCall| c is Rollup)->Some_0.args();
            let last = last_of(calls, |c: SearchCall| c is Last)->Some_0.args();
            &&& Some(q.source) == source_of(name)
            &&& q.raw_search == raw
            &&& q.rollup_method == rollup[0]
            &&& q.rollup_arg == (if rollup.len() > 1 {
                Some(rollup[1])
            } else {
                None
            })
            &&& q.last == last[0]
            &&& q.index == (match last_of(calls, |c: SearchCall| c is Index) {
                Some(c) => if c.args().len() > 0 && c.args()[0] != Seq::<char>::empty() {
                    Some(c.args()[0])
                } else {
                    None
                },
                None => None,
            })
            &&& q.group_by == (match last_of(calls, |c: SearchCall| c is By) {
                Some(c) => c.args(),
                None => Seq::empty(),
            })
            &&& Ok::<Condition, Seq<char>>(q.condition) == condition(skipped(end)).result
        },
{
    lemma_search_read(name, raw, calls, end);
    let index = last_of(calls, |c: SearchCall| c is Index);
    if index is Some && index->Some_0.args().len() > 0 {
        let first = index->Some_0.args()[0];
        assert(first.len() == 0 ==> first =~= Seq::<char>::empty());
    }
}

/// A search without a rollup or without a window is refused, and told so.
pub proof fn law_searches_need_a_rollup_and_a_window(
    name: Seq<char>,
    raw: Seq<char>,
    calls: Seq<SearchCall>,
    end: Seq<char>,
)
    requires
        source_of(name) is Some,
        !next_is(end, "."@),
    ensures
        ({
            let r = search(search_source_text(name, raw, calls, end)).result;
            let rolled = last_of(calls, |c: SearchCall| c is Rollup) matches Some(c)
                && c.args().len() > 0;
            let limited = last_of(calls, |c: SearchCall| c is Last) matches Some(c)
                && c.args().len() > 0;
            &&& !rolled ==> r == Err::<SearchQueryView, Seq<char>>(
                "search query missing `.rollup(...)`"@,
            )
            &&& rolled && !limited ==> r == Err::<SearchQueryView, Seq<char>>(
                "search query missing `.last(...)`"@,
            )
        }),
{
    lemma_search_read(name, raw, calls, end);
}

/// A text that begins with the name of a source is read as a search.
proof fn lemma_search_dialect(
    name: Seq<char>,
    raw: Seq<char>,
    calls: Seq<SearchCall>,
    end: Seq<char>,
)
    requires
        source_of(name) is Some,
    ensures
        reads_as_search(search_source_text(name, raw, calls, end)),
{
    let t = seq!['('] + (quoted_args(seq![raw]) + search_calls(calls) + end);
    assert(search_source_text(name, raw, calls, end) =~= name + t);
    lemma_source_text(name, t);
}

/// `s` is not blank, and is read as the search that it is.
spec fn reads_as_search(s: Seq<char>) -> bool {
    let r = search(s);
    &&& trimmed(s).len() > 0
    &&& query(s) == (match r.result {
        Err(reason) => fail(reason, r.rest),
        Ok(q) => done(MonitorQueryView::Search(q), r.rest),
    })
}

proof fn lemma_source_text(name: Seq<char>, t: Seq<char>)
    requires
        source_of(name) is Some,
        t.len() > 0,
        t[0] == '(',
    ensures
        reads_as_search(name + t),
{
    let s = name + t;
    lemma_source_name(name);
    assert(s[0] == name[0]);
    assert(in_head()(name[0]));
    lemma_source_start(name);
    lemma_first(s);
    lemma_trimmed_end(s);
    lemma_split(s, name, t, in_head());
}

/// The name of a source begins with a letter, and is not that of an error budget.
proof fn lemma_source_start(name: Seq<char>)
    requires
        source_of(name) is Some,
    ensures
        name.len() > 0,
        name[0] == 'l' || name[0] == 'e' || name[0] == 'r',
        dialect_of(name) == Some(Dialect::Search),
{
    reveal_strlit("logs");
    reveal_strlit("events");
    reveal_strlit("rum");
    reveal_strlit("error-tracking");
    reveal_strlit("error_budget");
    assert("error_budget"@.len() == 12 && "error-tracking"@.len() == 14);
}

/// A method that a search does not have is refused, and told.
pub proof fn law_unknown_search_methods_are_refused(
    parts: SearchParts,
    method: Seq<char>,
    args: Seq<Seq<char>>,
    rest: Seq<char>,
)
    requires
        method.len() > 0,
        forall|i: int| 0 <= i < method.len() ==> ident_char(#[trigger] method[i]),
        method != "index"@ && method != "rollup"@ && method != "by"@ && method != "last"@,
    ensures
        search_methods(parts, opened(method) + quoted_args(args) + rest) == fail::<SearchParts>(
            "unknown search method `"@ + method + "`"@,
            rest,
        ),
{
    let tail = quoted_args(args) + rest;
    assert(opened(method) + quoted_args(args) + rest =~= opened(method) + tail);
    lemma_opened(method, tail);
    lemma_args(args, rest);
}

// ----- service checks -----------------------------------------------------------

/// A method of a service check, with its arguments.
pub enum CheckCall {
    Over(Seq<Seq<char>>),
    By(Seq<Seq<char>>),
    Last(u32),
    CountByStatus,
}

impl CheckCall {
    /// The name of the method.
    pub open spec fn name(self) -> Seq<char> {
        match self {
            CheckCall::Over(_) => "over"@,
            CheckCall::By(_) => "by"@,
            CheckCall::Last(_) => "last"@,
            CheckCall::CountByStatus => "count_by_status"@,
        }
    }

    /// The arguments as they are written, through the closing parenthesis.
    pub open spec fn arguments(self) -> Seq<char> {
        match self {
            CheckCall::Over(args) => quoted_args(args),
            CheckCall::By(args) => quoted_args(args),
            CheckCall::Last(n) => decimal(n as nat) + seq![')'],
            CheckCall::CountByStatus => seq![')'],
        }
    }

    /// The call as it is written.
    pub open spec fn text(self) -> Seq<char> {
        opened(self.name()) + self.arguments()
    }

    /// What the call makes of what earlier ones have set.
    spec fn sets(self, parts: CheckParts) -> CheckParts {
        match self {
            CheckCall::Over(args) => CheckParts { over: args, ..parts },
            CheckCall::By(args) => CheckParts { by: args, ..parts },
            CheckCall::Last(n) => CheckParts { last: Some(n), ..parts },
            CheckCall::CountByStatus => CheckParts { counted: true, ..parts },
        }
    }
}

/// The calls one after another.
pub open spec fn check_calls(calls: Seq<CheckCall>) -> Seq<char>
    decreases calls.len(),
{
    if calls.len() == 0 {
        seq![]
    } else {
        check_calls(calls.drop_last()) + calls.last().text()
    }
}

/// The calls differ in their methods.
pub open spec fn distinct_check_calls(calls: Seq<CheckCall>) -> bool {
    &&& at_most_one(calls, |c: CheckCall| c is Over)
    &&& at_most_one(calls, |c: CheckCall| c is By)
    &&& at_most_one(calls, |c: CheckCall| c is Last)
    &&& at_most_one(calls, |c: CheckCall| c is CountByStatus)
}

/// The scope tags that the calls set, none without a call of `over`.
pub open spec fn over_of(calls: Seq<CheckCall>) -> Seq<Seq<char>> {
    match last_of(calls, |c: CheckCall| c is Over) {
        Some(c) => c->Over_0,
        None => seq![],
    }
}

/// The grouping tags that the calls set, none without a call of `by`.
pub open spec fn by_of(calls: Seq<CheckCall>) -> Seq<Seq<char>> {
    match last_of(calls, |c: CheckCall| c is By) {
        Some(c) => c->By_0,
        None => seq![],
    }
}

/// What the calls set.
spec fn set_by_check(calls: Seq<CheckCall>) -> CheckParts {
    CheckParts {
        over: over_of(calls),
        by: by_of(calls),
        last: match last_of(calls, |c: CheckCall| c is Last) {
            Some(c) => Some(c->Last_0),
            None => None,
        },
        counted: last_of(calls, |c: CheckCall| c is CountByStatus) is Some,
    }
}

/// The exponent of the greatest power of two that is not above `n`.
proof fn lemma_binade(n: nat) -> (e: nat)
    requires
        n > 0,
    ensures
        power(2, e) <= n < power(2, e + 1),
    decreases n,
{
    if n == 1 {
        assert(power(2, 0) == 1 && power(2, 1) == 2 * power(2, 0));
        0
    } else {
        let e = lemma_binade(n / 2);
        assert(power(2, e + 1) == 2 * power(2, e));
        assert(power(2, e + 2) == 2 * power(2, e + 1));
        e + 1
    }
}

/// Every unsigned 32-bit integer is a magnitude.
proof fn lemma_whole(n: nat) -> (i: nat)
    requires
        n <= u32::MAX,
    ensures
        i < INFINITE,
        grid(i) == n * one(),
{
    if n == 0 {
        assert(grid(0) == 0);
        assert(0 * one() == 0) by (nonlinear_arith);
        0
    } else {
        let e = lemma_binade(n);
        if e >= 32 {
            lemma_power_monotone(2, 32, e);
            lemma_two_to_32();
        }
        let b = BINADE as nat;
        let (p, q) = (power(2, e), power(2, (52 - e) as nat));
        lemma_power_adds(2, e, (52 - e) as nat);
        lemma_powers_of_two();
        lemma_power_positive(2, (52 - e) as nat);
        assert(power(2, e + 1) == 2 * p);
        assert(p * q <= n * q < 2 * (p * q)) by (nonlinear_arith)
            requires
                p <= n < 2 * p,
                q > 0,
        ;
        let f = (n * q - b) as nat;
        let i = (e + 1023) * b + f;
        vstd::arithmetic::div_mod::lemma_fundamental_div_mod_converse(
            i as int,
            b as int,
            e as int + 1023,
            f as int,
        );
        let r = power(2, (e + 1022) as nat);
        lemma_power_adds(2, (52 - e) as nat, (e + 1022) as nat);
        assert(((52 - e) as nat) + ((e + 1022) as nat) == 1074);
        assert((n * q) * r == n * (q * r)) by (nonlinear_arith);
        i
    }
}

/// A decimal numeral is read as its number.
proof fn lemma_count(n: u32) -> (x: Binary64)
    ensures
        number_of(decimal(n as nat)) == Some(x),
        x.as_u32() == Some(n),
{
    let s = decimal(n as nat);
    reveal(number_of);
    lemma_decimal(n as nat);
    lemma_plain_literal(false, s);
    assert(digit(s[0]));
    let i = lemma_whole(n as nat);
    assert(power(10, 0) == 1);
    assert(n * power(10, 0) == n) by (nonlinear_arith)
        requires
            power(10, 0) == 1,
    ;
    let num = numerator(n as nat, 0);
    assert(grid(i) * 1 == grid(i)) by (nonlinear_arith);
    lemma_rounds_to_itself(i, 1, num);
    lemma_nearest_unique(num, 1, i);
    let x = Binary64 { bits: i as u64 };
    lemma_power_positive(2, 1074);
    let v = n as nat * one();
    assert(v % one() == 0 && v / one() == n as nat) by {
        vstd::arithmetic::div_mod::lemma_mod_multiples_basic(n as int, one() as int);
        vstd::arithmetic::div_mod::lemma_div_by_multiple(n as int, one() as int);
    }
    assert(integer_of(i) == Some(n as nat));
    x
}

/// A number is taken for a count where it is that whole number, and no other is.
pub proof fn law_counts_are_whole(x: Binary64, n: u32)
    ensures
        x.as_u32() == Some(n) <==> x.magnitude() < INFINITE && grid(x.magnitude()) == n * one() && (
        n > 0 ==> !x.negative()),
        number_of(decimal(n as nat)) matches Some(y) && y.as_u32() == Some(n),
{
    let y = lemma_count(n);
    lemma_power_positive(2, 1074);
    let (g, o) = (grid(x.magnitude()), one());
    vstd::arithmetic::div_mod::lemma_fundamental_div_mod(g as int, o as int);
    let v = n as nat * o;
    vstd::arithmetic::div_mod::lemma_mod_multiples_basic(n as int, o as int);
    vstd::arithmetic::div_mod::lemma_div_by_multiple(n as int, o as int);
    if g == v {
        assert(g / o == n as nat && g % o == 0);
    } else if g % o == 0 {
        assert(g == o * (g / o));
        let k = g / o;
        assert(k == n as nat ==> o * k == n as nat * o) by (nonlinear_arith);
    }
}

/// A whole rank is one where it is at most 100.
pub proof fn law_percentiles_are_up_to_a_hundred(n: u32)
    ensures
        n <= 100 ==> SpaceAgg::of_token(seq!['p'] + decimal(n as nat)) == Some(
            SpaceAggView::Percentile(decimal(n as nat)),
        ),
        n > 100 ==> SpaceAgg::of_token(seq!['p'] + decimal(n as nat)) is None,
{
    let rank = decimal(n as nat);
    let x = lemma_count(n);
    law_counts_are_whole(x, n);
    law_space_agg_is_read_back(SpaceAggView::Percentile(rank));
    let (o, k) = (one(), n as nat);
    lemma_power_positive(2, 1074);
    assert(k <= 100 <==> k * o <= 100 * o) by (nonlinear_arith)
        requires
            o > 0,
    ;
    if n == 0 {
        assert(x.magnitude() == 0) by {
            assert(grid(0) == 0);
            assert(0 * o == 0) by (nonlinear_arith);
            if x.magnitude() > 0 {
                lemma_grid_monotone(0, x.magnitude());
            }
        }
    }
}

/// An argument without quotes is what stands before the next comma or parenthesis,
/// without the white space around it.
pub proof fn law_bare_arguments(
    before: Seq<char>,
    core: Seq<char>,
    behind: Seq<char>,
    rest: Seq<char>,
)
    requires
        spaces(before),
        spaces(behind),
        core.len() > 0,
        !white(core[0]) && !white(core.last()) && core[0] != '"' && core[0] != '\'',
        forall|i: int| 0 <= i < core.len() ==> #[trigger] core[i] != ',' && core[i] != ')',
        rest.len() > 0,
        rest[0] == ',' || rest[0] == ')',
    ensures
        string_arg(before + core + behind + rest) == done(core, rest),
{
    let s = before + core + behind + rest;
    let text = core + behind;
    let t = text + rest;
    assert(s =~= before + t);
    assert(t[0] == core[0]);
    lemma_first(t);
    lemma_run_behind(before, t, |c: char| ascii_white(c));
    lemma_run_is(t, |c: char| ascii_white(c), 0);
    assert(skipped(s) == t);
    assert forall|i: int| 0 <= i < text.len() implies in_bare_arg()(#[trigger] text[i]) by {
        if i < core.len() {
            assert(text[i] == core[i]);
        } else {
            assert(text[i] == behind[i - core.len()]);
        }
    }
    lemma_split(t, text, rest, in_bare_arg());
    lemma_first(text);
    lemma_run_is(text, |c: char| white(c), 0);
    assert(text.skip(0) =~= text);
    lemma_trimmed_end_spaces(core, behind);
}

proof fn lemma_digits_span(s: Seq<char>, rest: Seq<char>, signable: bool)
    requires
        forall|i: int| 0 <= i < s.len() ==> digit(#[trigger] s[i]),
        rest.len() > 0,
        rest[0] == ')',
    ensures
        number_span(s + rest, signable, false) == s.len(),
    decreases s.len(),
{
    let t = s + rest;
    if s.len() > 0 {
        assert(t[0] == s[0]);
        assert(t.skip(1) =~= s.skip(1) + rest);
        assert forall|i: int| 0 <= i < s.len() - 1 implies digit(#[trigger] s.skip(1)[i]) by {
            assert(s.skip(1)[i] == s[i + 1]);
        }
        lemma_digits_span(s.skip(1), rest, false);
    } else {
        assert(t =~= rest);
    }
}

proof fn lemma_runs(n: u32, rest: Seq<char>)
    ensures
        runs(decimal(n as nat) + seq![')'] + rest) == done(n, rest),
{
    let d = decimal(n as nat);
    let closing = seq![')'] + rest;
    let s = d + seq![')'] + rest;
    let x = lemma_count(n);
    lemma_decimal(n as nat);
    assert(s =~= d + closing);
    assert(closing[0] == ')');
    assert(s[0] == d[0] && digit(d[0]));
    lemma_first(s);
    lemma_digits_span(d, closing, true);
    assert(s.take(d.len() as int) =~= d);
    assert(s.skip(d.len() as int) =~= closing);
    assert(has_digit(d));
    reveal_strlit(")");
    lemma_eat_first(closing, ")"@);
    assert(closing.skip(1) =~= rest);
}

proof fn lemma_check_name(c: CheckCall)
    ensures
        c.name().len() > 0,
        forall|i: int| 0 <= i < c.name().len() ==> ident_char(#[trigger] c.name()[i]),
        "over"@ != "by"@,
        "over"@ != "last"@,
        "by"@ != "last"@,
        "count_by_status"@ != "over"@,
        "count_by_status"@ != "by"@,
        "count_by_status"@ != "last"@,
{
    reveal_strlit("over");
    reveal_strlit("by");
    reveal_strlit("last");
    reveal_strlit("count_by_status");
    assert("over"@.len() == 4 && "by"@.len() == 2 && "last"@.len() == 4);
    assert("count_by_status"@.len() == 15 && "over"@[0] == 'o' && "last"@[0] == 'l');
}

/// One call is read, and sets what it says.
proof fn lemma_check_call(c: CheckCall, parts: CheckParts, rest: Seq<char>)
    ensures
        check_methods(parts, c.text() + rest) == check_methods(c.sets(parts), rest),
{
    let s = c.text() + rest;
    let tail = c.arguments() + rest;
    lemma_check_name(c);
    assert(s =~= opened(c.name()) + tail);
    lemma_opened(c.name(), tail);
    match c {
        CheckCall::Over(args) => {
            lemma_args(args, rest);
        },
        CheckCall::By(args) => {
            lemma_args(args, rest);
        },
        CheckCall::Last(n) => {
            lemma_runs(n, rest);
        },
        CheckCall::CountByStatus => {
            lemma_args(seq![], rest);
            assert(quoted_args(seq![]) =~= seq![')']);
        },
    }
    assert(check_method(parts, c.name(), tail) == done(c.sets(parts), rest));
}

/// The calls are read, and set what they say.
proof fn lemma_check_calls(calls: Seq<CheckCall>, rest: Seq<char>)
    ensures
        check_methods(no_check_parts(), check_calls(calls) + rest) == check_methods(
            set_by_check(calls),
            rest,
        ),
    decreases calls.len(),
{
    if calls.len() == 0 {
        assert(check_calls(calls) + rest =~= rest);
        assert(set_by_check(calls) == no_check_parts());
    } else {
        let (front, c) = (calls.drop_last(), calls.last());
        assert(check_calls(calls) + rest =~= check_calls(front) + (c.text() + rest));
        lemma_check_calls(front, c.text() + rest);
        lemma_check_call(c, set_by_check(front), rest);
    }
}

proof fn lemma_check_read(name: Seq<char>, calls: Seq<CheckCall>, end: Seq<char>)
    requires
        !next_is(end, "."@),
        set_by_check(calls).last is Some,
        set_by_check(calls).counted,
    ensures
        check(quoted(name) + check_calls(calls) + end) == done(
            CheckQueryView {
                check: name,
                over: over_of(calls),
                by: by_of(calls),
                last: set_by_check(calls).last->Some_0,
            },
            skipped(end),
        ),
{
    let tail = check_calls(calls) + end;
    assert(quoted(name) + check_calls(calls) + end =~= quoted(name) + tail);
    lemma_quoted(name, tail);
    lemma_check_calls(calls, end);
}

/// The order of distinct methods of a service check does not matter: in every
/// order a check that has a number of runs and counts by status is read, and as
/// the same query, and so is the whole text, where nothing follows it. Scope tags
/// and grouping tags that are not given are none.
pub proof fn law_check_methods_in_any_order(
    name: Seq<char>,
    calls: Seq<CheckCall>,
    other: Seq<CheckCall>,
    end: Seq<char>,
)
    requires
        calls.to_multiset() == other.to_multiset(),
        distinct_check_calls(calls),
        exists|i: int| 0 <= i < calls.len() && (#[trigger] calls[i]) is Last,
        exists|i: int| 0 <= i < calls.len() && (#[trigger] calls[i]) is CountByStatus,
        !next_is(end, "."@),
    ensures
        check(quoted(name) + check_calls(calls) + end) == check(
            quoted(name) + check_calls(other) + end,
        ),
        check(quoted(name) + check_calls(calls) + end).result matches Ok(q) && q.check == name
            && q.over == over_of(calls) && q.by == by_of(calls) && calls.contains(
            CheckCall::Last(q.last),
        ),
        same_outcome(
            quoted(name) + check_calls(calls) + end,
            quoted(name) + check_calls(other) + end,
        ),
        ends(end) ==> parsed(quoted(name) + check_calls(calls) + end) is Ok,
{
    let last = |c: CheckCall| c is Last;
    let count = |c: CheckCall| c is CountByStatus;
    lemma_any_order(calls, other, |c: CheckCall| c is Over);
    lemma_any_order(calls, other, |c: CheckCall| c is By);
    lemma_any_order(calls, other, last);
    lemma_any_order(calls, other, count);
    lemma_last_of(calls, last);
    lemma_last_of(calls, count);
    let a = choose|i: int| 0 <= i < calls.len() && (#[trigger] calls[i]) is Last;
    let b = choose|i: int| 0 <= i < calls.len() && (#[trigger] calls[i]) is CountByStatus;
    assert(last(calls[a]) && count(calls[b]));
    lemma_check_read(name, calls, end);
    lemma_check_read(name, other, end);
    lemma_check_dialect(name, calls, end);
    lemma_check_dialect(name, other, end);
    lemma_skipped_once(end);
}

/// A method that a service check does not have is refused, and told.
pub proof fn law_unknown_check_methods_are_refused(
    parts: CheckParts,
    method: Seq<char>,
    rest: Seq<char>,
)
    requires
        method.len() > 0,
        forall|i: int| 0 <= i < method.len() ==> ident_char(#[trigger] method[i]),
        method != "over"@ && method != "by"@ && method != "last"@ && method != "count_by_status"@,
    ensures
        check_methods(parts, opened(method) + rest) == fail::<CheckParts>(
            "unknown check method `"@ + method + "`"@,
            rest,
        ),
{
    lemma_opened(method, rest);
}

/// A service check without a number of runs, or that does not count by status, is
/// refused, and told so.
pub proof fn law_checks_need_runs_and_a_count(
    name: Seq<char>,
    calls: Seq<CheckCall>,
    end: Seq<char>,
)
    requires
        !next_is(end, "."@),
    ensures
        ({
            let r = check(quoted(name) + check_calls(calls) + end).result;
            let limited = last_of(calls, |c: CheckCall| c is Last) is Some;
            let counted = last_of(calls, |c: CheckCall| c is CountByStatus) is Some;
            &&& !limited ==> r == Err::<CheckQueryView, Seq<char>>(
                "check query missing `.last(n)`"@,
            )
            &&& limited && !counted ==> r == Err::<CheckQueryView, Seq<char>>(
                "check query missing `.count_by_status()`"@,
            )
        }),
{
    let tail = check_calls(calls) + end;
    assert(quoted(name) + check_calls(calls) + end =~= quoted(name) + tail);
    lemma_quoted(name, tail);
    lemma_check_calls(calls, end);
}

/// A text that begins with a quoted string is read as a service check.
proof fn lemma_check_dialect(name: Seq<char>, calls: Seq<CheckCall>, end: Seq<char>)
    ensures
        ({
            let s = quoted(name) + check_calls(calls) + end;
            let r = check(s);
            &&& trimmed(s).len() > 0
            &&& query(s) == (match r.result {
                Err(reason) => fail(reason, r.rest),
                Ok(q) => done(MonitorQueryView::ServiceCheck(q), r.rest),
            })
        }),
{
    let s = quoted(name) + check_calls(calls) + end;
    assert(s[0] == '"') by {
        assert(s[0] == quoted(name)[0]);
    }
    lemma_first(s);
    lemma_trimmed_end(s);
}

} // verus!
