//! What is refused, with which reason and at which place.

use vstd::prelude::*;
use crate::ast::{CmpOp, CompositeExprView, MetricExprView, MonitorQueryView, SpaceAgg, WindowView};
use crate::binary64::Binary64;
use crate::cursor::{fail, has_digit, lemma_split, number_span, numbering, peeked, quoting};
use crate::error::ParseErrorView;
use crate::grammar::{
    arith, comparison, dialect_of, identifier, in_digits, in_head, in_ident, metric_name,
    named_term, negation, parsed, query, term, window, MAX_DEPTH,
};
use crate::laws::{lemma_eat_first, lemma_first, lemma_trimmed_end};
use crate::literal::number_of;
use crate::text::{digit, ident_char, lemma_run_is, white};
use crate::window::window_of;

verus! {

/// A query that begins with a name that no dialect has is refused at its start, and
/// the name is told.
pub proof fn law_unknown_heads_are_refused(head: Seq<char>, t: Seq<char>)
    requires
        head.len() > 0,
        forall|i: int| 0 <= i < head.len() ==> ident_char(#[trigger] head[i]) || head[i] == '-',
        !digit(head[0]),
        t.len() > 0 ==> !ident_char(t[0]) && t[0] != '-',
        dialect_of(head) is None,
    ensures
        parsed(head + t) == Err::<MonitorQueryView, ParseErrorView>(
            ParseErrorView { offset: 0, reason: "unrecognized query head `"@ + head + "`"@ },
        ),
{
    let s = head + t;
    assert(s[0] == head[0]);
    assert(ident_char(head[0]) || head[0] == '-');
    assert forall|i: int| 0 <= i < head.len() implies in_head()(#[trigger] head[i]) by {}
    lemma_first(s);
    lemma_trimmed_end(s);
    lemma_split(s, head, t, in_head());
}

/// A token that is no window is refused behind it, and told.
pub proof fn law_bad_windows_are_refused(raw: Seq<char>, rest: Seq<char>)
    requires
        raw.len() > 0,
        forall|i: int| 0 <= i < raw.len() ==> ident_char(#[trigger] raw[i]),
        rest.len() > 0 ==> !ident_char(rest[0]),
        window_of(raw) is None,
    ensures
        window(raw + rest) == fail::<WindowView>("invalid window `"@ + raw + "`"@, rest),
{
    let s = raw + rest;
    assert(s[0] == raw[0] && ident_char(raw[0]));
    lemma_first(s);
    lemma_split(s, raw, rest, in_ident());
}

/// A name before a colon that is no space aggregation is refused, and told; so is a
/// name before anything but a colon or a parenthesis.
pub proof fn law_bad_operands_are_refused(name: Seq<char>, rest: Seq<char>, depth: nat)
    requires
        depth <= MAX_DEPTH,
    ensures
        SpaceAgg::of_token(name) is None && peeked(rest) == Some(':') ==> named_term(
            name,
            rest,
            depth,
        ) == fail::<MetricExprView>("invalid space aggregation `"@ + name + "`"@, rest),
        peeked(rest) != Some(':') && peeked(rest) != Some('(') ==> named_term(name, rest, depth)
            == fail::<MetricExprView>("expected `:` or `(` after `"@ + name + "`"@, rest),
        peeked(rest) is None ==> term(rest, depth) == fail::<MetricExprView>(
            "unexpected end of expression"@,
            rest,
        ),
{
}

/// What is nested too deep is refused before anything of it is read.
pub proof fn law_deep_nesting_is_refused(s: Seq<char>, least: u8, depth: nat)
    requires
        depth > 128,
    ensures
        arith(s, least, depth) == fail::<MetricExprView>("maximum nesting depth exceeded"@, s),
        term(s, depth) == fail::<MetricExprView>("maximum nesting depth exceeded"@, s),
        negation(s, depth) == fail::<CompositeExprView>("maximum nesting depth exceeded"@, s),
{
}

/// What does not begin as it has to is refused at the first character that is no
/// white space.
pub proof fn law_missing_parts_are_refused(s: Seq<char>, depth: nat)
    requires
        s.len() > 0,
        !white(s[0]),
        depth <= MAX_DEPTH,
    ensures
        !ident_char(s[0]) ==> {
            &&& identifier(s) == fail::<Seq<char>>("expected an identifier"@, s)
            &&& metric_name(s) == fail::<Seq<char>>("expected a metric name"@, s)
        },
        s[0] != '>' && s[0] != '<' && s[0] != '=' && s[0] != '!' ==> comparison(s) == fail::<CmpOp>(
            "expected a comparison operator"@,
            s,
        ),
        !digit(s[0]) && s[0] != '!' && s[0] != '(' ==> negation(s, depth) == fail::<
            CompositeExprView,
        >("expected a monitor id"@, s),
        !digit(s[0]) && s[0] != '+' && s[0] != '-' && s[0] != '.' && s[0] != 'e' && s[0] != 'E'
            ==> numbering(s) == fail::<Binary64>("expected a number"@, s),
        s[0] != '"' && s[0] != '\'' ==> quoting(s) == fail::<Seq<char>>(
            "expected a quoted string"@,
            s,
        ),
{
    reveal_strlit(">=");
    reveal_strlit("<=");
    reveal_strlit("==");
    reveal_strlit("!=");
    reveal_strlit(">");
    reveal_strlit("<");
    reveal_strlit("!");
    reveal_strlit("(");
    lemma_first(s);
    assert(s.len() >= 2 ==> s.take(2)[0] == s[0]);
    assert(s.take(1)[0] == s[0]);
    assert(s.skip(0) =~= s);
    if !ident_char(s[0]) {
        lemma_run_is(s, in_ident(), 0);
        assert(s.take(0) =~= Seq::<char>::empty());
    }
    if !digit(s[0]) {
        lemma_run_is(s, in_digits(), 0);
        lemma_eat_first(s, "!"@);
        lemma_eat_first(s, "("@);
    }
}

/// Digits with marks that make no number are refused where they begin, and told.
pub proof fn law_bad_numbers_are_refused(s: Seq<char>)
    requires
        s.len() > 0,
        !white(s[0]),
    ensures
        ({
            let text = s.take(number_span(s, true, false) as int);
            has_digit(text) && number_of(text) is None ==> numbering(s) == fail::<Binary64>(
                "invalid number `"@ + text + "`"@,
                s,
            )
        }),
{
    lemma_first(s);
}

} // verus!
