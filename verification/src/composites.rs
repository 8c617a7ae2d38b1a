//! Boolean trees: what is rendered of them is read back.

use vstd::prelude::*;
use crate::ast::{BoolOp, CompositeExprView, MonitorQueryView};
use crate::cursor::{done, eaten, expecting, lemma_skipped_once, lemma_split, next_is, skipped};
use crate::error::ParseErrorView;
use crate::grammar::{
    conjunction, conjuncts, dialect, disjunction, disjuncts, negation, parsed, query, Dialect,
    MAX_DEPTH,
};
use crate::laws::{lemma_eat_first, lemma_first, lemma_id, lemma_trimmed_end};
use crate::phrasing::composite_text;
use crate::text::{ascii_white, digit, lemma_run_is, white};

verus! {

/// `lhs op rhs`.
pub open spec fn boolean(
    op: BoolOp,
    lhs: CompositeExprView,
    rhs: CompositeExprView,
) -> CompositeExprView {
    CompositeExprView::Binary { op, lhs: Box::new(lhs), rhs: Box::new(rhs) }
}

/// How deep a boolean tree is nested when it is read: an operand in parentheses
/// stands one level deeper, and one behind an operator yet another.
pub open spec fn nesting(c: CompositeExprView) -> nat
    decreases c,
{
    match c {
        CompositeExprView::Ref(_) => 0,
        CompositeExprView::Not(inner) => 1 + nesting(*inner),
        CompositeExprView::Binary { op, lhs, rhs } => if nesting(*lhs) > nesting(*rhs) {
            1 + nesting(*lhs)
        } else {
            2 + nesting(*rhs)
        },
    }
}

/// The height of a boolean tree: none for an id.
pub open spec fn height(c: CompositeExprView) -> nat
    decreases c,
{
    match c {
        CompositeExprView::Ref(_) => 0,
        CompositeExprView::Not(inner) => 1 + height(*inner),
        CompositeExprView::Binary { op, lhs, rhs } => 1 + if height(*lhs) >= height(*rhs) {
            height(*lhs)
        } else {
            height(*rhs)
        },
    }
}

/// Every id of a boolean tree is made of digits.
pub open spec fn numbered(c: CompositeExprView) -> bool
    decreases c,
{
    match c {
        CompositeExprView::Ref(id) => id.len() > 0 && forall|i: int|
            0 <= i < id.len() ==> digit(#[trigger] id[i]),
        CompositeExprView::Not(inner) => numbered(*inner),
        CompositeExprView::Binary { op, lhs, rhs } => numbered(*lhs) && numbered(*rhs),
    }
}

/// `s` without the signs that mark ids.
pub open spec fn unmarked(s: Seq<char>) -> Seq<char> {
    s.filter(|c: char| c != '#')
}

/// A boolean tree as it is written in a query.
spec fn composite_source(c: CompositeExprView) -> Seq<char>
    decreases c,
{
    match c {
        CompositeExprView::Ref(id) => id,
        CompositeExprView::Not(inner) => seq!['!'] + composite_source(*inner),
        CompositeExprView::Binary { op, lhs, rhs } => seq!['('] + composite_source(*lhs) + seq![' ']
            + op.token() + seq![' '] + composite_source(*rhs) + seq![')'],
    }
}

proof fn lemma_unmarked_adds(a: Seq<char>, b: Seq<char>)
    ensures
        unmarked(a + b) == unmarked(a) + unmarked(b),
{
    Seq::filter_distributes_over_add(a, b, |c: char| c != '#');
}

proof fn lemma_unmarked_same(s: Seq<char>)
    requires
        forall|i: int| 0 <= i < s.len() ==> #[trigger] s[i] != '#',
    ensures
        unmarked(s) == s,
    decreases s.len(),
{
    reveal(Seq::filter);
    if s.len() > 0 {
        lemma_unmarked_same(s.drop_last());
        assert(s.drop_last().push(s.last()) =~= s);
    }
}

/// Rendering a boolean tree marks its ids, and adds nothing else.
proof fn lemma_unmarked_text(c: CompositeExprView)
    requires
        numbered(c),
    ensures
        unmarked(composite_text(c)) == composite_source(c),
    decreases c,
{
    match c {
        CompositeExprView::Ref(id) => {
            reveal_strlit("#");
            assert("#"@ =~= seq!['#']);
            lemma_unmarked_adds("#"@, id);
            lemma_unmarked_same(id);
            assert(unmarked("#"@) =~= seq![]) by {
                reveal_with_fuel(Seq::filter, 2);
                assert("#"@.drop_last() =~= seq![]);
                assert(seq!['#'].last() == '#');
            }
            assert(unmarked("#"@ + id) =~= id);
        },
        CompositeExprView::Not(inner) => {
            reveal_strlit("!");
            assert("!"@ =~= seq!['!']);
            lemma_unmarked_text(*inner);
            lemma_unmarked_adds("!"@, composite_text(*inner));
            lemma_unmarked_same("!"@);
        },
        CompositeExprView::Binary { op, lhs, rhs } => {
            reveal_strlit("(");
            reveal_strlit(")");
            reveal_strlit(" ");
            reveal_strlit("&&");
            reveal_strlit("||");
            assert("("@ =~= seq!['('] && ")"@ =~= seq![')'] && " "@ =~= seq![' ']);
            lemma_unmarked_text(*lhs);
            lemma_unmarked_text(*rhs);
            let (l, r) = (composite_text(*lhs), composite_text(*rhs));
            let a = "("@ + l;
            let b = a + " "@;
            let d = b + op.token();
            let e = d + " "@;
            let f = e + r;
            lemma_unmarked_adds("("@, l);
            lemma_unmarked_adds(a, " "@);
            lemma_unmarked_adds(b, op.token());
            lemma_unmarked_adds(d, " "@);
            lemma_unmarked_adds(e, r);
            lemma_unmarked_adds(f, ")"@);
            lemma_unmarked_same("("@);
            lemma_unmarked_same(" "@);
            lemma_unmarked_same(")"@);
            lemma_unmarked_same(op.token());
        },
    }
}

proof fn lemma_source_start(c: CompositeExprView)
    requires
        numbered(c),
    ensures
        composite_source(c).len() > 0,
        ({
            let first = composite_source(c)[0];
            digit(first) || first == '!' || first == '('
        }),
{
}

/// A literal of two characters comes next behind a space.
proof fn lemma_next_behind_space(lit: Seq<char>, other: Seq<char>, rest: Seq<char>)
    requires
        lit.len() == 2,
        !white(lit[0]),
        other.len() == 2,
        other[0] != lit[0],
    ensures
        next_is(seq![' '] + lit + rest, lit),
        eaten(seq![' '] + lit + rest, lit) == rest,
        !next_is(seq![' '] + lit + rest, other),
        skipped(seq![' '] + lit + rest) == lit + rest,
{
    let s = seq![' '] + lit + rest;
    let t = lit + rest;
    assert(t[0] == lit[0]);
    assert(s =~= seq![' '] + t);
    lemma_split(s, seq![' '], t, |c: char| ascii_white(c));
    assert(t.take(2) =~= lit);
    assert(t.skip(2) =~= rest);
    assert(t.take(2)[0] == lit[0]);
}

/// No operator comes next before a closing parenthesis.
proof fn lemma_closing(rest: Seq<char>)
    ensures
        skipped(seq![')'] + rest) == seq![')'] + rest,
        !next_is(seq![')'] + rest, "&&"@),
        !next_is(seq![')'] + rest, "||"@),
        expecting(seq![')'] + rest, ")"@) == done((), rest),
{
    let s = seq![')'] + rest;
    reveal_strlit("&&");
    reveal_strlit("||");
    reveal_strlit(")");
    assert(s[0] == ')');
    lemma_first(s);
    lemma_eat_first(s, ")"@);
    assert(s.skip(1) =~= rest);
    if s.len() >= 2 {
        assert(s.take(2)[0] == ')');
    }
}

/// Two operands with an operator between them, before a closing parenthesis.
proof fn lemma_binary_read(
    op: BoolOp,
    a: CompositeExprView,
    b: CompositeExprView,
    s: Seq<char>,
    right: Seq<char>,
    rest: Seq<char>,
    d: nat,
)
    requires
        d + 1 <= MAX_DEPTH,
        negation(s, d) == done(a, seq![' '] + op.token() + right),
        negation(right, d + 1) == done(b, seq![')'] + rest),
        right.len() > rest.len() + 1,
    ensures
        disjunction(s, d) == done(boolean(op, a, b), seq![')'] + rest),
{
    let c = boolean(op, a, b);
    let closing = seq![')'] + rest;
    let behind = seq![' '] + op.token() + right;
    reveal_strlit("&&");
    reveal_strlit("||");
    lemma_closing(rest);
    if op is And {
        lemma_next_behind_space("&&"@, "||"@, right);
        assert(conjuncts(c, closing, d) == done(c, closing));
        assert(conjuncts(a, behind, d) == done(c, closing));
        assert(conjunction(s, d) == done(c, closing));
        assert(disjuncts(c, closing, d) == done(c, closing));
    } else {
        lemma_next_behind_space("||"@, "&&"@, right);
        let t = "||"@ + right;
        lemma_skipped_once(behind);
        assert(conjuncts(a, behind, d) == done(a, t));
        assert(conjunction(s, d) == done(a, t));
        assert(conjuncts(b, closing, d + 1) == done(b, closing));
        assert(conjunction(right, d + 1) == done(b, closing));
        assert(disjuncts(c, closing, d) == done(c, closing));
        assert(disjuncts(a, t, d) == done(c, closing));
    }
}

/// `s` is read as `c`, and `rest` remains.
#[verifier::opaque]
spec fn reads_as(s: Seq<char>, depth: nat, c: CompositeExprView, rest: Seq<char>) -> bool {
    negation(s, depth) == done(c, rest)
}

/// A negation is read as one.
proof fn lemma_negation_read(c: CompositeExprView, s: Seq<char>, rest: Seq<char>, depth: nat)
    requires
        depth <= MAX_DEPTH,
        reads_as(s, depth + 1, c, rest),
    ensures
        reads_as(seq!['!'] + s, depth, CompositeExprView::Not(Box::new(c)), rest),
{
    reveal(reads_as);
    let t = seq!['!'] + s;
    reveal_strlit("!");
    assert(t[0] == '!');
    lemma_eat_first(t, "!"@);
    assert(t.skip(1) =~= s);
}

/// What stands in parentheses is read as what it is.
proof fn lemma_parentheses_read(c: CompositeExprView, s: Seq<char>, rest: Seq<char>, depth: nat)
    requires
        depth <= MAX_DEPTH,
        disjunction(s, depth + 1) == done(c, seq![')'] + rest),
    ensures
        reads_as(seq!['('] + s, depth, c, rest),
{
    reveal(reads_as);
    let t = seq!['('] + s;
    reveal_strlit("!");
    reveal_strlit("(");
    assert(t[0] == '(');
    lemma_eat_first(t, "!"@);
    lemma_eat_first(t, "("@);
    assert(t.skip(1) =~= s);
    lemma_closing(rest);
}

/// Two operands in parentheses, with an operator between them.
proof fn lemma_group_read(
    op: BoolOp,
    a: CompositeExprView,
    b: CompositeExprView,
    l: Seq<char>,
    r: Seq<char>,
    rest: Seq<char>,
    depth: nat,
)
    requires
        depth + 2 <= MAX_DEPTH,
        r.len() > 0,
        !white(r[0]),
        reads_as(
            l + (seq![' '] + op.token() + (seq![' '] + (r + (seq![')'] + rest)))),
            depth + 1,
            a,
            seq![' '] + op.token() + (seq![' '] + (r + (seq![')'] + rest))),
        ),
        reads_as(r + (seq![')'] + rest), depth + 2, b, seq![')'] + rest),
    ensures
        reads_as(
            seq!['('] + (l + (seq![' '] + op.token() + (seq![' '] + (r + (seq![')'] + rest))))),
            depth,
            boolean(op, a, b),
            rest,
        ),
{
    reveal(reads_as);
    let right = r + (seq![')'] + rest);
    let spaced = seq![' '] + right;
    let s = l + (seq![' '] + op.token() + spaced);
    assert(right[0] == r[0]);
    lemma_spaced_negation(right, depth + 2);
    lemma_binary_read(op, a, b, s, spaced, rest, depth + 1);
    lemma_parentheses_read(boolean(op, a, b), s, rest, depth);
}

/// What is written of a boolean tree is read as that tree.
proof fn lemma_composite_read_back(c: CompositeExprView, rest: Seq<char>, depth: nat)
    requires
        numbered(c),
        depth + nesting(c) <= MAX_DEPTH,
        rest.len() > 0 ==> !digit(rest[0]),
    ensures
        reads_as(composite_source(c) + rest, depth, c, rest),
    decreases c,
{
    let s = composite_source(c) + rest;
    match c {
        CompositeExprView::Ref(id) => {
            reveal(reads_as);
            lemma_id(id, rest, depth);
        },
        CompositeExprView::Not(inner) => {
            let t = composite_source(*inner) + rest;
            lemma_composite_read_back(*inner, rest, depth + 1);
            lemma_negation_read(*inner, t, rest, depth);
            assert(s =~= seq!['!'] + t);
        },
        CompositeExprView::Binary { op, lhs, rhs } => {
            let (l, r) = (composite_source(*lhs), composite_source(*rhs));
            let closing = seq![')'] + rest;
            let behind = seq![' '] + op.token() + (seq![' '] + (r + closing));
            lemma_composite_read_back(*lhs, behind, depth + 1);
            lemma_composite_read_back(*rhs, closing, depth + 2);
            lemma_source_start(*rhs);
            lemma_group_read(op, *lhs, *rhs, l, r, rest, depth);
            assert(s =~= seq!['('] + (l + behind));
        },
    }
}

/// A space before what is read does not matter.
proof fn lemma_spaced_negation(s: Seq<char>, depth: nat)
    requires
        s.len() > 0,
        !white(s[0]),
    ensures
        depth <= MAX_DEPTH ==> negation(seq![' '] + s, depth) == negation(s, depth),
{
    let t = seq![' '] + s;
    lemma_split(t, seq![' '], s, |c: char| ascii_white(c));
    lemma_first(s);
}

/// A boolean tree is read back as it was rendered, once the marks of its ids are
/// removed: with the same grouping, negations and ids.
pub proof fn law_composites_are_read_back(c: CompositeExprView)
    requires
        numbered(c),
        nesting(c) <= MAX_DEPTH,
    ensures
        disjunction(unmarked(composite_text(c)), 0) == done(c, Seq::<char>::empty()),
        parsed(unmarked(composite_text(c))) == Ok::<MonitorQueryView, ParseErrorView>(
            MonitorQueryView::Composite(c),
        ),
{
    let none = Seq::<char>::empty();
    let s = composite_source(c);
    lemma_unmarked_text(c);
    lemma_composite_read_back(c, none, 0);
    reveal(reads_as);
    assert(s + none =~= s);
    lemma_source_start(c);
    reveal_strlit("&&");
    reveal_strlit("||");
    lemma_run_is(none, |c: char| ascii_white(c), 0);
    assert(none.skip(0) =~= none);
    assert(conjuncts(c, none, 0) == done(c, none));
    assert(disjuncts(c, none, 0) == done(c, none));
    lemma_first(s);
    lemma_trimmed_end(s);
    assert(dialect(s) == Ok::<Dialect, Seq<char>>(Dialect::Composite));
    assert(query(s) == done(MonitorQueryView::Composite(c), none));
    lemma_run_is(none, |c: char| white(c), 0);
}

/// A boolean tree is nested at most twice as deep as it is high, so that every tree
/// of a height up to half of [`MAX_DEPTH`] is read back.
pub proof fn law_nesting_by_height(c: CompositeExprView)
    ensures
        nesting(c) <= 2 * height(c),
    decreases c,
{
    match c {
        CompositeExprView::Ref(_) => {},
        CompositeExprView::Not(inner) => law_nesting_by_height(*inner),
        CompositeExprView::Binary { op, lhs, rhs } => {
            law_nesting_by_height(*lhs);
            law_nesting_by_height(*rhs);
        },
    }
}

} // verus!
