//! A cursor over the query.
//!
//! The parser is scannerless: it walks this cursor directly. The cursor holds a
//! byte position that is always on a character boundary, and is modelled by
//! the characters not yet consumed.

use vstd::prelude::*;
use vstd::string::StringExecFns;
use vstd::utf8::{encode_utf8, is_char_boundary};
use crate::binary64::Binary64;
use crate::error::{ParseError, ParseErrorView};
use crate::literal::{number_of, read_number};
use crate::text::{
    after_run, ascii_white, begins, byte_width, bytes, copy_of, digit, is_ascii_white, is_digit,
    is_white, lemma_bytes_prefix, lemma_bytes_step, lemma_encode_concat, lemma_prefix_boundary,
    lemma_run, lemma_run_is, run, split_at_char, starts_str, the_run, trimmed_start, white,
};

verus! {

/// The outcome of a step of the parser: a value or the reason of a failure,
/// and the characters that remain at that point.
pub struct Step<T> {
    /// The value, or the reason of the failure.
    pub result: Result<T, Seq<char>>,
    /// What is left to read.
    pub rest: Seq<char>,
}

/// A step that gives `value`.
pub open spec fn done<T>(value: T, rest: Seq<char>) -> Step<T> {
    Step { result: Ok(value), rest }
}

/// A step that fails for `reason`.
pub open spec fn fail<T>(reason: Seq<char>, rest: Seq<char>) -> Step<T> {
    Step { result: Err(reason), rest }
}

/// The error of a failure where `rest` remains of `source`.
pub open spec fn error_at(source: Seq<char>, rest: Seq<char>, reason: Seq<char>) -> ParseErrorView {
    ParseErrorView { offset: (bytes(source) - bytes(rest)) as nat, reason }
}

// ----- what the steps do --------------------------------------------------------

/// `s` without leading ASCII white space.
pub open spec fn skipped(s: Seq<char>) -> Seq<char> {
    after_run(s, |c: char| ascii_white(c))
}

/// Skipping white space twice is skipping it once.
pub proof fn lemma_skipped_once(s: Seq<char>)
    ensures
        skipped(skipped(s)) == skipped(s),
{
    let p = |c: char| ascii_white(c);
    lemma_run(s, p);
    lemma_run_is(skipped(s), p, 0);
    assert(skipped(s).skip(0) =~= skipped(s));
}

/// The first character of `s` that is not white space.
pub open spec fn peeked(s: Seq<char>) -> Option<char> {
    let t = trimmed_start(s);
    if t.len() > 0 {
        Some(t[0])
    } else {
        None
    }
}

/// Whether `lit` comes next, after white space.
pub open spec fn next_is(s: Seq<char>, lit: Seq<char>) -> bool {
    begins(skipped(s), lit)
}

/// What is left of `s` once `lit` is consumed, if it comes next.
pub open spec fn eaten(s: Seq<char>, lit: Seq<char>) -> Seq<char> {
    if next_is(s, lit) {
        skipped(s).skip(lit.len() as int)
    } else {
        skipped(s)
    }
}

/// The reason of a missing literal.
pub open spec fn expected(lit: Seq<char>) -> Seq<char> {
    "expected `"@ + lit + "`"@
}

/// Consumes `lit`, or fails.
pub open spec fn expecting(s: Seq<char>, lit: Seq<char>) -> Step<()> {
    if next_is(s, lit) {
        done((), eaten(s, lit))
    } else {
        fail(expected(lit), eaten(s, lit))
    }
}

/// The longest run of characters satisfying `p`, after white space.
pub open spec fn taken(s: Seq<char>, p: spec_fn(char) -> bool) -> Seq<char> {
    the_run(skipped(s), p)
}

/// What is left once that run is consumed.
pub open spec fn untaken(s: Seq<char>, p: spec_fn(char) -> bool) -> Seq<char> {
    after_run(skipped(s), p)
}

/// What the escape of `c` stands for: a quote or a backslash for itself, any
/// other character with its backslash.
pub open spec fn unescaped(c: char) -> Seq<char> {
    if c == '"' || c == '\'' || c == '\\' {
        seq![c]
    } else {
        seq!['\\', c]
    }
}

/// The contents of a quoted string up to the closing `quote`, and what follows
/// it; nothing if it is not closed.
pub open spec fn unquoted(s: Seq<char>, quote: char) -> Option<(Seq<char>, Seq<char>)>
    decreases s.len(),
{
    if s.len() == 0 {
        None
    } else if s[0] == quote {
        Some((seq![], s.skip(1)))
    } else if s[0] == '\\' {
        if s.len() == 1 {
            None
        } else {
            prepended(unescaped(s[1]), unquoted(s.skip(2), quote))
        }
    } else {
        prepended(seq![s[0]], unquoted(s.skip(1), quote))
    }
}

/// `head` before the contents of a quoted string.
pub open spec fn prepended(head: Seq<char>, tail: Option<(Seq<char>, Seq<char>)>) -> Option<
    (Seq<char>, Seq<char>),
> {
    match tail {
        Some((t, rest)) => Some((head + t, rest)),
        None => None,
    }
}

/// Reads a quoted string, after white space.
pub open spec fn quoting(s: Seq<char>) -> Step<Seq<char>> {
    let t = skipped(s);
    if t.len() > 0 && (t[0] == '"' || t[0] == '\'') {
        match unquoted(t.skip(1), t[0]) {
            Some((contents, rest)) => done(contents, rest),
            None => fail("unterminated quoted string"@, t),
        }
    } else {
        fail("expected a quoted string"@, t)
    }
}

/// The number of characters that are read as a number: digits, one point,
/// and exponent marks; a sign at the start (`signable`) and behind each mark.
pub open spec fn number_span(s: Seq<char>, signable: bool, pointed: bool) -> nat
    decreases s.len(),
{
    if s.len() == 0 {
        0
    } else if signable && (s[0] == '+' || s[0] == '-') {
        1 + number_span(s.skip(1), false, pointed)
    } else if digit(s[0]) {
        1 + number_span(s.skip(1), false, pointed)
    } else if s[0] == '.' && !pointed {
        1 + number_span(s.skip(1), false, true)
    } else if s[0] == 'e' || s[0] == 'E' {
        1 + number_span(s.skip(1), true, pointed)
    } else {
        0
    }
}

/// Whether `s` holds a digit.
pub open spec fn has_digit(s: Seq<char>) -> bool {
    exists|i: int| 0 <= i < s.len() && digit(#[trigger] s[i])
}

/// Reads a number, after white space.
pub open spec fn numbering(s: Seq<char>) -> Step<Binary64> {
    let t = skipped(s);
    let n = number_span(t, true, false);
    let text = t.take(n as int);
    if !has_digit(text) {
        fail("expected a number"@, t)
    } else {
        match number_of(text) {
            Some(x) => done(x, t.skip(n as int)),
            None => fail("invalid number `"@ + text + "`"@, t),
        }
    }
}

// ----- the cursor ---------------------------------------------------------------

/// A position in a query.
pub struct Cursor<'a> {
    input: &'a str,
    pos: usize,
    index: Ghost<nat>,
}

impl<'a> View for Cursor<'a> {
    type V = Seq<char>;

    /// The characters not yet consumed.
    closed spec fn view(&self) -> Seq<char> {
        self.input@.skip(self.index@ as int)
    }
}

impl<'a> Clone for Cursor<'a> {
    fn clone(&self) -> (r: Self)
        ensures
            self.wf() ==> r.wf() && r.source() == self.source() && r@ == self@,
    {
        Cursor { input: self.input, pos: self.pos, index: self.index }
    }
}

impl<'a> Cursor<'a> {
    /// The whole query.
    pub closed spec fn source(&self) -> Seq<char> {
        self.input@
    }

    /// The position is a character boundary of the query.
    pub closed spec fn wf(&self) -> bool {
        &&& self.index@ <= self.input@.len()
        &&& self.pos == bytes(self.input@.take(self.index@ as int))
        &&& bytes(self.input@) <= usize::MAX
    }

    /// `next` is this cursor, moved forward or not at all.
    pub open spec fn moves_to(&self, next: &Cursor<'a>) -> bool {
        &&& next.wf()
        &&& next.source() == self.source()
        &&& next@.len() <= self@.len()
    }

    /// A cursor at the start of `input`.
    pub fn new(input: &'a str) -> (r: Self)
        ensures
            r.wf(),
            r.source() == input@,
            r@ == input@,
    {
        let encoded = input.as_bytes();
        assert(encoded.len() <= usize::MAX);
        assert(input@.skip(0) =~= input@);
        assert(input@.take(0) =~= Seq::<char>::empty());
        Cursor { input, pos: 0, index: Ghost(0) }
    }

    /// What is not yet consumed.
    pub fn rest(&self) -> (r: &'a str)
        requires
            self.wf(),
        ensures
            r@ == self@,
    {
        split_at_char(self.input, self.pos, Ghost(self.index@)).1
    }

    /// Moves over the first `k` characters of the rest, which take `n` bytes.
    fn advance(&mut self, n: usize, Ghost(k): Ghost<nat>)
        requires
            old(self).wf(),
            k <= old(self)@.len(),
            n == bytes(old(self)@.take(k as int)),
        ensures
            old(self).moves_to(final(self)),
            final(self)@ == old(self)@.skip(k as int),
    {
        let ghost a = self.input@.take(self.index@ as int);
        let ghost i = self.index@ + k;
        proof {
            let s = self.input@;
            assert(s.take(i as int) =~= a + self@.take(k as int));
            lemma_encode_concat(a, self@.take(k as int));
            lemma_bytes_prefix(s, i as int);
            assert(s.skip(i as int) =~= self@.skip(k as int));
        }
        self.pos = self.pos + n;
        self.index = Ghost(i);
    }

    /// Whether all input is consumed but for white space.
    pub fn is_done(&self) -> (r: bool)
        requires
            self.wf(),
        ensures
            r == (trimmed_start(self@).len() == 0),
            r == (peeked(self@) is None),
    {
        self.peek().is_none()
    }

    /// The next character that is not white space, which is not consumed.
    pub fn peek(&self) -> (r: Option<char>)
        requires
            self.wf(),
        ensures
            r == peeked(self@),
    {
        let ghost s = self@;
        let ghost p = |c: char| white(c);
        for c in it: self.rest().chars()
            invariant
                it.seq() == s,
                s == self@,
                p == (|c: char| white(c)),
                forall|i: int| 0 <= i < it.index() ==> p(#[trigger] s[i]),
        {
            if !is_white(c) {
                proof {
                    lemma_run_is(s, p, it.index() as nat);
                }
                return Some(c);
            }
        }
        proof {
            lemma_run_is(s, p, s.len());
        }
        None
    }

    /// An error at the current position.
    pub fn error(&self, reason: &str) -> (e: ParseError)
        requires
            self.wf(),
        ensures
            e@ == error_at(self.source(), self@, reason@),
    {
        proof {
            lemma_bytes_prefix(self.input@, self.index@ as int);
        }
        ParseError::new(self.pos, reason)
    }

    /// The byte position is on a character boundary of the query.
    pub proof fn lemma_boundary(&self)
        requires
            self.wf(),
        ensures
            bytes(self@) <= bytes(self.source()),
            is_char_boundary(
                encode_utf8(self.source()),
                bytes(self.source()) - bytes(self@),
            ),
    {
        let a = self.input@.take(self.index@ as int);
        let b = self.input@.skip(self.index@ as int);
        lemma_bytes_prefix(self.input@, self.index@ as int);
        lemma_prefix_boundary(a, b);
        assert(a + b =~= self.input@);
    }

    /// Consumes the longest leading run of characters that satisfy `pred`, and
    /// returns it.
    pub fn take_run<F: Fn(char) -> bool>(&mut self, pred: F) -> (r: &'a str)
        requires
            old(self).wf(),
            forall|c: char| call_requires(pred, (c,)),
        ensures
            old(self).moves_to(final(self)),
            old(self)@ == r@ + final(self)@,
            forall|i: int| 0 <= i < r@.len() ==> call_ensures(pred, (#[trigger] r@[i],), true),
            final(self)@.len() > 0 ==> call_ensures(pred, (final(self)@[0],), false),
    {
        let rest = self.rest();
        let ghost s = self@;
        let n: usize = run_width(rest, &pred);
        let ghost k = choose|k: nat| is_run_of(s, pred, k) && n == bytes(s.take(k as int));
        let r = split_at_char(rest, n, Ghost(k)).0;
        self.advance(n, Ghost(k));
        proof {
            assert(s =~= r@ + self@);
            assert forall|i: int| 0 <= i < r@.len() implies call_ensures(
                pred,
                (#[trigger] r@[i],),
                true,
            ) by {
                assert(r@[i] == s[i]);
            }
            if self@.len() > 0 {
                assert(self@[0] == s[k as int]);
            }
        }
        r
    }

    /// Skips leading ASCII white space.
    pub fn skip_ws(&mut self)
        requires
            old(self).wf(),
        ensures
            old(self).moves_to(final(self)),
            final(self)@ == skipped(old(self)@),
    {
        let f = |c: char| -> (b: bool)
            ensures
                b == ascii_white(c),
            { is_ascii_white(c) };
        let ghost s = self@;
        let r = self.take_run(f);
        proof {
            lemma_split(s, r@, self@, |c: char| ascii_white(c));
        }
    }

    /// Consumes `lit` if it comes next, after white space.
    pub fn eat(&mut self, lit: &str) -> (r: bool)
        requires
            old(self).wf(),
        ensures
            old(self).moves_to(final(self)),
            r == next_is(old(self)@, lit@),
            final(self)@ == eaten(old(self)@, lit@),
            r ==> final(self)@.len() + lit@.len() <= old(self)@.len(),
    {
        let ghost s = self@;
        self.skip_ws();
        proof {
            lemma_run(s, |c: char| ascii_white(c));
        }
        if starts_str(self.rest(), lit) {
            let n: usize = lit.as_bytes().len();
            self.advance(n, Ghost(lit@.len()));
            true
        } else {
            false
        }
    }

    /// Consumes `lit`, or returns an error that names it.
    pub fn expect(&mut self, lit: &str) -> (r: Result<(), ParseError>)
        requires
            old(self).wf(),
        ensures
            old(self).moves_to(final(self)),
            final(self)@ == expecting(old(self)@, lit@).rest,
            match r {
                Ok(()) => expecting(old(self)@, lit@).result is Ok && final(self)@.len() + lit@.len()
                    <= old(self)@.len(),
                Err(e) => expecting(old(self)@, lit@).result is Err && e@ == error_at(
                    old(self).source(),
                    final(self)@,
                    expecting(old(self)@, lit@).result->Err_0,
                ),
            },
    {
        if self.eat(lit) {
            Ok(())
        } else {
            let mut reason = copy_of("expected `");
            reason.append(lit);
            reason.append("`");
            assert(reason@ =~= expected(lit@));
            Err(self.error(reason.as_str()))
        }
    }

    /// Consumes the longest leading run of characters that satisfy `pred`,
    /// after white space, and returns it.
    pub fn take_while<F: Fn(char) -> bool>(&mut self, pred: F) -> (r: &'a str)
        requires
            old(self).wf(),
            forall|c: char| call_requires(pred, (c,)),
        ensures
            old(self).moves_to(final(self)),
            skipped(old(self)@) == r@ + final(self)@,
            forall|i: int| 0 <= i < r@.len() ==> call_ensures(pred, (#[trigger] r@[i],), true),
            final(self)@.len() > 0 ==> call_ensures(pred, (final(self)@[0],), false),
    {
        self.skip_ws();
        self.take_run(pred)
    }

    /// Reads a single- or double-quoted string and returns its contents,
    /// without the quotes and with escaped quotes and backslashes unescaped.
    pub fn take_quoted(&mut self) -> (r: Result<String, ParseError>)
        requires
            old(self).wf(),
        ensures
            old(self).moves_to(final(self)),
            final(self)@ == quoting(old(self)@).rest,
            match r {
                Ok(v) => quoting(old(self)@).result == Ok::<Seq<char>, Seq<char>>(v@),
                Err(e) => quoting(old(self)@).result is Err && e@ == error_at(
                    old(self).source(),
                    final(self)@,
                    quoting(old(self)@).result->Err_0,
                ),
            },
    {
        self.skip_ws();
        let rest = self.rest();
        let ghost t = self@;
        let mut quote: char = ' ';
        let mut opened: bool = false;
        let mut escaped: bool = false;
        let mut out = String::new();
        let mut n: usize = 0;
        let total: usize = rest.as_bytes().len();
        assert(t.take(0) =~= Seq::<char>::empty());
        for c in it: rest.chars()
            invariant
                it.seq() == t,
                t == self@,
                self.wf(),
                self.source() == old(self).source(),
                t == skipped(old(self)@),
                t.len() <= old(self)@.len(),
                bytes(t) == total,
                n == bytes(t.take(it.index() as int)),
                opened == (it.index() > 0),
                !opened ==> !escaped && out@.len() == 0,
                opened ==> {
                    &&& quote == t[0]
                    &&& quote == '"' || quote == '\''
                    &&& escaped ==> it.index() >= 2 && t[it.index() - 1] == '\\'
                    &&& unquoted(t.skip(1), quote) == prepended(
                        out@,
                        unquoted(t.skip(it.index() - (if escaped { 1int } else { 0 })), quote),
                    )
                },
        {
            proof {
                lemma_bytes_step(t, it.index() as int);
                lemma_bytes_prefix(t, it.index() + 1);
                assert(c == t[it.index() as int]);
            }
            let ghost i = it.index() as int;
            n = n + byte_width(c);
            if !opened {
                if c != '"' && c != '\'' {
                    return Err(self.error("expected a quoted string"));
                }
                quote = c;
                opened = true;
                proof {
                    match unquoted(t.skip(1), quote) {
                        Some((a, b)) => {
                            assert(out@ + a =~= a);
                        },
                        None => {},
                    }
                }
            } else if escaped {
                let ghost from = t.skip(i - 1);
                let ghost before = out@;
                proof {
                    assert(from[0] == '\\' && from[1] == c);
                    assert(from.skip(2) =~= t.skip(i + 1));
                }
                if c == '"' || c == '\'' || c == '\\' {
                    out.push(c);
                } else {
                    out.push('\\');
                    out.push(c);
                }
                escaped = false;
                proof {
                    assert(out@ =~= before + unescaped(c));
                    match unquoted(t.skip(i + 1), quote) {
                        Some((a, b)) => {
                            assert(before + (unescaped(c) + a) =~= out@ + a);
                        },
                        None => {},
                    }
                }
            } else if c == '\\' {
                escaped = true;
                assert(t.skip(i)[0] == c);
            } else if c == quote {
                proof {
                    assert(t.skip(i)[0] == c);
                    assert(t.skip(i).skip(1) =~= t.skip(i + 1));
                    assert(out@ + Seq::<char>::empty() =~= out@);
                }
                self.advance(n, Ghost((i + 1) as nat));
                return Ok(out);
            } else {
                let ghost before = out@;
                out.push(c);
                proof {
                    assert(t.skip(i)[0] == c);
                    assert(t.skip(i).skip(1) =~= t.skip(i + 1));
                    match unquoted(t.skip(i + 1), quote) {
                        Some((a, b)) => {
                            assert(before + (seq![c] + a) =~= out@ + a);
                        },
                        None => {},
                    }
                }
            }
        }
        if opened {
            Err(self.error("unterminated quoted string"))
        } else {
            Err(self.error("expected a quoted string"))
        }
    }

    /// Reads a number: an optional sign, digits with an optional point, and an
    /// optional exponent.
    pub fn take_number(&mut self) -> (r: Result<Binary64, ParseError>)
        requires
            old(self).wf(),
        ensures
            old(self).moves_to(final(self)),
            final(self)@ == numbering(old(self)@).rest,
            match r {
                Ok(x) => numbering(old(self)@).result == Ok::<Binary64, Seq<char>>(x),
                Err(e) => numbering(old(self)@).result is Err && e@ == error_at(
                    old(self).source(),
                    final(self)@,
                    numbering(old(self)@).result->Err_0,
                ),
            },
    {
        self.skip_ws();
        let rest = self.rest();
        let ghost t = self@;
        let n: usize = number_width(rest);
        let ghost k = number_span(t, true, false);
        proof {
            lemma_span(t, true, false);
        }
        let text = split_at_char(rest, n, Ghost(k)).0;
        if !holds_digit(text) {
            return Err(self.error("expected a number"));
        }
        match read_number(text) {
            Some(x) => {
                self.advance(n, Ghost(k));
                Ok(x)
            },
            None => {
                let mut reason = copy_of("invalid number `");
                reason.append(text);
                reason.append("`");
                assert(reason@ =~= "invalid number `"@ + text@ + "`"@);
                Err(self.error(reason.as_str()))
            },
        }
    }
}

/// Where `s` is divided into characters satisfying `p` and a rest that does
/// not begin with one, the first part is its longest run.
pub proof fn lemma_split(s: Seq<char>, a: Seq<char>, b: Seq<char>, p: spec_fn(char) -> bool)
    requires
        s == a + b,
        forall|i: int| 0 <= i < a.len() ==> p(#[trigger] a[i]),
        b.len() > 0 ==> !p(b[0]),
    ensures
        run(s, p) == a.len(),
        the_run(s, p) == a,
        after_run(s, p) == b,
{
    assert forall|i: int| 0 <= i < a.len() implies p(#[trigger] s[i]) by {
        assert(s[i] == a[i]);
    }
    if b.len() > 0 {
        assert(s[a.len() as int] == b[0]);
    }
    lemma_run_is(s, p, a.len());
    assert(s.take(a.len() as int) =~= a);
    assert(s.skip(a.len() as int) =~= b);
}

/// The first `k` characters satisfy the predicate, and then one fails it or
/// the end is reached.
spec fn is_run_of<F: Fn(char) -> bool>(s: Seq<char>, f: F, k: nat) -> bool {
    &&& k <= s.len()
    &&& forall|i: int| 0 <= i < k ==> call_ensures(f, (#[trigger] s[i],), true)
    &&& k < s.len() ==> call_ensures(f, (s[k as int],), false)
}

/// The number of bytes of the longest leading run of characters that satisfy
/// `pred`.
fn run_width<F: Fn(char) -> bool>(s: &str, pred: &F) -> (n: usize)
    requires
        forall|c: char| call_requires(*pred, (c,)),
    ensures
        exists|k: nat| is_run_of(s@, *pred, k) && n == bytes(s@.take(k as int)),
{
    let total: usize = s.as_bytes().len();
    let mut n: usize = 0;
    assert(s@.take(0) =~= Seq::<char>::empty());
    for c in it: s.chars()
        invariant
            it.seq() == s@,
            total == bytes(s@),
            n == bytes(s@.take(it.index() as int)),
            forall|c: char| call_requires(*pred, (c,)),
            forall|i: int| 0 <= i < it.index() ==> call_ensures(*pred, (#[trigger] s@[i],), true),
    {
        if !pred(c) {
            assert(is_run_of(s@, *pred, it.index() as nat));
            return n;
        }
        proof {
            lemma_bytes_step(s@, it.index() as int);
            lemma_bytes_prefix(s@, it.index() + 1);
        }
        n = n + byte_width(c);
    }
    assert(is_run_of(s@, *pred, s@.len()));
    n
}

pub proof fn lemma_span(s: Seq<char>, signable: bool, pointed: bool)
    ensures
        number_span(s, signable, pointed) <= s.len(),
    decreases s.len(),
{
    if s.len() > 0 {
        lemma_span(s.skip(1), false, pointed);
        lemma_span(s.skip(1), false, true);
        lemma_span(s.skip(1), true, pointed);
    }
}

/// The number of bytes that are read as a number.
fn number_width(s: &str) -> (n: usize)
    ensures
        n == bytes(s@.take(number_span(s@, true, false) as int)),
{
    let total: usize = s.as_bytes().len();
    let mut n: usize = 0;
    let mut signable: bool = true;
    let mut pointed: bool = false;
    assert(s@.take(0) =~= Seq::<char>::empty());
    assert(s@.skip(0) =~= s@);
    for c in it: s.chars()
        invariant
            it.seq() == s@,
            total == bytes(s@),
            n == bytes(s@.take(it.index() as int)),
            number_span(s@, true, false) == it.index() + number_span(
                s@.skip(it.index() as int),
                signable,
                pointed,
            ),
    {
        let ghost i = it.index() as int;
        proof {
            assert(s@.skip(i)[0] == c);
            assert(s@.skip(i).skip(1) =~= s@.skip(i + 1));
            lemma_bytes_step(s@, i);
            lemma_bytes_prefix(s@, i + 1);
        }
        if signable && (c == '+' || c == '-') {
            signable = false;
        } else if is_digit(c) {
            signable = false;
        } else if c == '.' && !pointed {
            signable = false;
            pointed = true;
        } else if c == 'e' || c == 'E' {
            signable = true;
        } else {
            return n;
        }
        n = n + byte_width(c);
    }
    n
}

/// Whether `s` holds a digit.
fn holds_digit(s: &str) -> (r: bool)
    ensures
        r == has_digit(s@),
{
    for c in it: s.chars()
        invariant
            it.seq() == s@,
            forall|i: int| 0 <= i < it.index() ==> !digit(#[trigger] s@[i]),
    {
        if is_digit(c) {
            assert(digit(s@[it.index() as int]));
            return true;
        }
    }
    false
}

} // verus!
