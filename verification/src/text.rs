//! Characters, strings and their byte positions.
//!
//! A string is modelled by its sequence of characters; where a byte offset
//! matters, by the lengths of the UTF-8 encodings of its prefixes.

use vstd::prelude::*;
use vstd::string::StringExecFns;
use vstd::string::StringSliceAdditionalSpecFns;
use vstd::utf8::{encode_scalar, encode_utf8, is_char_boundary};

verus! {

/// `String::push` appends the character to the string and changes nothing else.
pub assume_specification[ String::push ](s: &mut String, ch: char)
    ensures
        final(s)@ == old(s)@.push(ch),
;

// ----- character classes ----------------------------------------------------

/// An ASCII decimal digit.
pub open spec fn digit(c: char) -> bool {
    '0' <= c && c <= '9'
}

/// A character of an identifier or of a metric-name segment: `[A-Za-z0-9_]`.
pub open spec fn ident_char(c: char) -> bool {
    digit(c) || ('a' <= c && c <= 'z') || ('A' <= c && c <= 'Z') || c == '_'
}

/// A character with the Unicode property `White_Space`.
pub open spec fn white(c: char) -> bool {
    ||| '\u{9}' <= c && c <= '\u{d}'
    ||| c == ' '
    ||| c == '\u{85}'
    ||| c == '\u{a0}'
    ||| c == '\u{1680}'
    ||| '\u{2000}' <= c && c <= '\u{200a}'
    ||| c == '\u{2028}'
    ||| c == '\u{2029}'
    ||| c == '\u{202f}'
    ||| c == '\u{205f}'
    ||| c == '\u{3000}'
}

/// White space within ASCII.
pub open spec fn ascii_white(c: char) -> bool {
    ('\u{9}' <= c && c <= '\u{d}') || c == ' '
}

/// Whether `c` is an ASCII decimal digit.
pub fn is_digit(c: char) -> (b: bool)
    ensures
        b == digit(c),
{
    '0' <= c && c <= '9'
}

/// Whether `c` belongs to an identifier or a metric-name segment.
pub fn is_ident(c: char) -> (b: bool)
    ensures
        b == ident_char(c),
{
    is_digit(c) || ('a' <= c && c <= 'z') || ('A' <= c && c <= 'Z') || c == '_'
}

/// Whether `c` is white space.
pub fn is_white(c: char) -> (b: bool)
    ensures
        b == white(c),
{
    ('\u{9}' <= c && c <= '\u{d}') || c == ' ' || c == '\u{85}' || c == '\u{a0}' || c == '\u{1680}'
        || ('\u{2000}' <= c && c <= '\u{200a}') || c == '\u{2028}' || c == '\u{2029}' || c
        == '\u{202f}' || c == '\u{205f}' || c == '\u{3000}'
}

/// Whether `c` is white space within ASCII.
pub fn is_ascii_white(c: char) -> (b: bool)
    ensures
        b == ascii_white(c),
{
    ('\u{9}' <= c && c <= '\u{d}') || c == ' '
}

// ----- runs and trimming ----------------------------------------------------

/// The length of the longest prefix of `s` whose characters all satisfy `p`.
pub open spec fn run(s: Seq<char>, p: spec_fn(char) -> bool) -> nat
    decreases s.len(),
{
    if s.len() > 0 && p(s[0]) {
        1 + run(s.skip(1), p)
    } else {
        0
    }
}

/// `s` without its longest prefix of characters satisfying `p`.
pub open spec fn after_run(s: Seq<char>, p: spec_fn(char) -> bool) -> Seq<char> {
    s.skip(run(s, p) as int)
}

/// The longest prefix of `s` whose characters all satisfy `p`.
pub open spec fn the_run(s: Seq<char>, p: spec_fn(char) -> bool) -> Seq<char> {
    s.take(run(s, p) as int)
}

/// `s` without leading white space.
pub open spec fn trimmed_start(s: Seq<char>) -> Seq<char> {
    after_run(s, |c: char| white(c))
}

/// `s` without trailing white space.
pub open spec fn trimmed_end(s: Seq<char>) -> Seq<char>
    decreases s.len(),
{
    if s.len() > 0 && white(s.last()) {
        trimmed_end(s.drop_last())
    } else {
        s
    }
}

/// `s` without leading and trailing white space.
pub open spec fn trimmed(s: Seq<char>) -> Seq<char> {
    trimmed_end(trimmed_start(s))
}

/// The run ends where the predicate first fails.
pub proof fn lemma_run(s: Seq<char>, p: spec_fn(char) -> bool)
    ensures
        run(s, p) <= s.len(),
        forall|i: int| 0 <= i < run(s, p) ==> p(#[trigger] s[i]),
        run(s, p) < s.len() ==> !p(s[run(s, p) as int]),
    decreases s.len(),
{
    if s.len() > 0 && p(s[0]) {
        lemma_run(s.skip(1), p);
        assert forall|i: int| 0 <= i < run(s, p) implies p(#[trigger] s[i]) by {
            if i > 0 {
                assert(s[i] == s.skip(1)[i - 1]);
            }
        }
    }
}

/// A prefix that satisfies the predicate belongs to the run.
pub proof fn lemma_run_behind(w: Seq<char>, q: Seq<char>, p: spec_fn(char) -> bool)
    requires
        forall|i: int| 0 <= i < w.len() ==> p(#[trigger] w[i]),
    ensures
        after_run(w + q, p) == after_run(q, p),
{
    let s = w + q;
    lemma_run(q, p);
    let n = w.len() + run(q, p);
    assert forall|i: int| 0 <= i < n implies p(#[trigger] s[i]) by {
        if i < w.len() {
            assert(s[i] == w[i]);
        } else {
            assert(s[i] == q[i - w.len()]);
        }
    }
    if n < s.len() {
        assert(s[n as int] == q[run(q, p) as int]);
    }
    lemma_run_is(s, p, n);
    assert(s.skip(n as int) =~= q.skip(run(q, p) as int));
}

/// A prefix that satisfies the predicate, followed by a failure or the end,
/// is the run.
pub proof fn lemma_run_is(s: Seq<char>, p: spec_fn(char) -> bool, k: nat)
    requires
        k <= s.len(),
        forall|i: int| 0 <= i < k ==> p(#[trigger] s[i]),
        k < s.len() ==> !p(s[k as int]),
    ensures
        run(s, p) == k,
    decreases s.len(),
{
    if k > 0 {
        assert(p(s[0]));
        assert forall|i: int| 0 <= i < k - 1 implies p(#[trigger] s.skip(1)[i]) by {
            assert(s.skip(1)[i] == s[i + 1]);
        }
        lemma_run_is(s.skip(1), p, (k - 1) as nat);
    }
}

// ----- UTF-8 ----------------------------------------------------------------

/// The number of bytes of the UTF-8 encoding of `s`.
pub open spec fn bytes(s: Seq<char>) -> nat {
    encode_utf8(s).len()
}

/// Encoding distributes over concatenation.
pub proof fn lemma_encode_concat(a: Seq<char>, b: Seq<char>)
    ensures
        encode_utf8(a + b) == encode_utf8(a) + encode_utf8(b),
        bytes(a + b) == bytes(a) + bytes(b),
    decreases a.len(),
{
    if a.len() == 0 {
        assert(a + b =~= b);
        assert(encode_utf8(a + b) =~= encode_utf8(a) + encode_utf8(b));
    } else {
        assert((a + b).drop_first() =~= a.drop_first() + b);
        lemma_encode_concat(a.drop_first(), b);
        assert(encode_utf8(a + b) =~= encode_utf8(a) + encode_utf8(b));
    }
}

/// The end of a prefix is a character boundary of the whole.
pub proof fn lemma_prefix_boundary(a: Seq<char>, b: Seq<char>)
    ensures
        is_char_boundary(encode_utf8(a + b), bytes(a) as int),
    decreases a.len(),
{
    broadcast use vstd::utf8::encode_utf8_valid_utf8;

    if a.len() > 0 {
        let s = a + b;
        vstd::utf8::encode_utf8_first_scalar(s);
        assert(s.drop_first() =~= a.drop_first() + b);
        lemma_encode_concat(a, b);
        assert(vstd::utf8::pop_first_scalar(encode_utf8(s)) =~= encode_utf8(s.drop_first()));
        lemma_prefix_boundary(a.drop_first(), b);
    }
}

/// Strings with the same encoding are the same.
pub proof fn lemma_encode_injective(a: Seq<char>, b: Seq<char>)
    requires
        encode_utf8(a) == encode_utf8(b),
    ensures
        a == b,
{
    vstd::utf8::encode_utf8_decode_utf8(a);
    vstd::utf8::encode_utf8_decode_utf8(b);
}

/// The number of bytes of the encoding of `c`.
pub fn byte_width(c: char) -> (n: usize)
    ensures
        n == encode_scalar(c as u32).len(),
        1 <= n <= 4,
{
    let u: u32 = c as u32;
    if u < 0x80 {
        1
    } else if u < 0x800 {
        2
    } else if u < 0x10000 {
        3
    } else {
        4
    }
}

/// Splits `s` at byte `mid`, where a prefix of `k` characters ends.
pub(crate) fn split_at_char<'a>(s: &'a str, mid: usize, Ghost(k): Ghost<nat>) -> (r: (
    &'a str,
    &'a str,
))
    requires
        k <= s@.len(),
        mid == bytes(s@.take(k as int)),
    ensures
        r.0@ == s@.take(k as int),
        r.1@ == s@.skip(k as int),
{
    let ghost a = s@.take(k as int);
    let ghost b = s@.skip(k as int);
    proof {
        assert(a + b =~= s@);
        lemma_prefix_boundary(a, b);
        lemma_encode_concat(a, b);
    }
    let r = s.split_at(mid);
    proof {
        assert(r.0.spec_bytes() =~= encode_utf8(a));
        assert(r.1.spec_bytes() =~= encode_utf8(b));
        lemma_encode_injective(r.0@, a);
        lemma_encode_injective(r.1@, b);
    }
    r
}

/// One more character adds its width.
pub proof fn lemma_bytes_step(s: Seq<char>, k: int)
    requires
        0 <= k < s.len(),
    ensures
        bytes(s.take(k + 1)) == bytes(s.take(k)) + encode_scalar(s[k] as u32).len(),
{
    assert(s.take(k + 1) =~= s.take(k) + seq![s[k]]);
    lemma_encode_concat(s.take(k), seq![s[k]]);
    assert(seq![s[k]].drop_first() =~= Seq::<char>::empty());
    reveal_with_fuel(encode_utf8, 2);
}

/// A prefix is no longer in bytes than the whole.
pub proof fn lemma_bytes_prefix(s: Seq<char>, k: int)
    requires
        0 <= k <= s.len(),
    ensures
        bytes(s) == bytes(s.take(k)) + bytes(s.skip(k)),
{
    assert(s.take(k) + s.skip(k) =~= s);
    lemma_encode_concat(s.take(k), s.skip(k));
}

// ----- whole strings --------------------------------------------------------

/// The characters of `s`.
pub fn chars_of(s: &str) -> (out: Vec<char>)
    ensures
        out@ == s@,
{
    let mut out: Vec<char> = Vec::new();
    for c in it: s.chars()
        invariant
            out@ == s@.take(it.index() as int),
            it.seq() == s@,
    {
        out.push(c);
    }
    assert(s@.take(s@.len() as int) =~= s@);
    out
}

/// The string of the characters `v[from..to]`.
pub fn string_of(v: &Vec<char>, from: usize, to: usize) -> (out: String)
    requires
        from <= to <= v@.len(),
    ensures
        out@ == v@.subrange(from as int, to as int),
{
    let mut out = String::new();
    let mut i: usize = from;
    while i < to
        invariant
            from <= i <= to <= v@.len(),
            out@ == v@.subrange(from as int, i as int),
        decreases to - i,
    {
        out.push(v[i]);
        assert(v@.subrange(from as int, i as int).push(v@[i as int]) =~= v@.subrange(
            from as int,
            i + 1,
        ));
        i += 1;
    }
    out
}

/// A copy of `s`.
pub fn copy_of(s: &str) -> (out: String)
    ensures
        out@ == s@,
{
    s.to_owned()
}

/// Whether `a` and `b` hold the same characters.
pub fn same(a: &str, b: &str) -> (r: bool)
    ensures
        r == (a@ == b@),
{
    let x = chars_of(a);
    let y = chars_of(b);
    if x.len() != y.len() {
        return false;
    }
    let mut i: usize = 0;
    while i < x.len()
        invariant
            x@ == a@,
            y@ == b@,
            x@.len() == y@.len(),
            i <= x@.len(),
            forall|j: int| 0 <= j < i ==> x@[j] == y@[j],
        decreases x@.len() - i,
    {
        if x[i] != y[i] {
            return false;
        }
        i += 1;
    }
    assert(a@ =~= b@);
    true
}

/// Whether `s` begins with `prefix`.
pub open spec fn begins(s: Seq<char>, prefix: Seq<char>) -> bool {
    prefix.len() <= s.len() && s.take(prefix.len() as int) == prefix
}

/// Whether the characters `v[from..]` begin with `prefix`.
pub fn begins_at(v: &Vec<char>, from: usize, prefix: &Vec<char>) -> (r: bool)
    requires
        from <= v@.len(),
    ensures
        r == begins(v@.skip(from as int), prefix@),
{
    let total: usize = v.len();
    if prefix.len() > total - from {
        return false;
    }
    let mut i: usize = 0;
    while i < prefix.len()
        invariant
            total == v@.len(),
            from <= total,
            prefix@.len() <= total - from,
            i <= prefix@.len(),
            forall|j: int| 0 <= j < i ==> v@[from + j] == prefix@[j],
        decreases prefix@.len() - i,
    {
        if v[from + i] != prefix[i] {
            proof {
                let t = v@.skip(from as int).take(prefix@.len() as int);
                assert(t[i as int] == v@[from + i]);
            }
            return false;
        }
        i += 1;
    }
    assert(v@.skip(from as int).take(prefix@.len() as int) =~= prefix@);
    true
}

/// Whether `s` begins with `prefix`.
pub fn starts_str(s: &str, prefix: &str) -> (r: bool)
    ensures
        r == begins(s@, prefix@),
{
    let p: Vec<char> = chars_of(prefix);
    let mut i: usize = 0;
    for c in it: s.chars()
        invariant
            it.seq() == s@,
            p@ == prefix@,
            i == it.index(),
            i <= p@.len(),
            forall|k: int| 0 <= k < i ==> s@[k] == p@[k],
    {
        if i == p.len() {
            assert(s@.take(i as int) =~= prefix@);
            return true;
        }
        if c != p[i] {
            assert(begins(s@, prefix@) ==> s@.take(p@.len() as int)[i as int] == prefix@[i as int]);
            return false;
        }
        i += 1;
    }
    if i == p.len() {
        assert(s@.take(i as int) =~= prefix@);
        true
    } else {
        false
    }
}

// ----- lists of strings -----------------------------------------------------

/// The characters of each string of a list.
pub open spec fn texts(v: Seq<String>) -> Seq<Seq<char>> {
    v.map_values(|s: String| s@)
}

/// The parts one after another, with `sep` between neighbours.
pub open spec fn joined(parts: Seq<Seq<char>>, sep: Seq<char>) -> Seq<char>
    decreases parts.len(),
{
    if parts.len() == 0 {
        seq![]
    } else if parts.len() == 1 {
        parts[0]
    } else {
        joined(parts.drop_last(), sep) + sep + parts.last()
    }
}

/// Joins the strings of `parts` with `sep`.
pub fn join(parts: &Vec<String>, sep: &str) -> (out: String)
    ensures
        out@ == joined(texts(parts@), sep@),
{
    let mut out = String::new();
    let mut i: usize = 0;
    let ghost all = texts(parts@);
    while i < parts.len()
        invariant
            all == texts(parts@),
            i <= parts@.len(),
            out@ == joined(all.take(i as int), sep@),
        decreases parts@.len() - i,
    {
        if i > 0 {
            out.append(sep);
        }
        out.append(parts[i].as_str());
        proof {
            let next = all.take(i + 1);
            assert(next.drop_last() =~= all.take(i as int));
            assert(next.last() == parts@[i as int]@);
            assert(out@ =~= joined(next, sep@));
        }
        i += 1;
    }
    assert(all.take(i as int) =~= all);
    out
}

/// A copy of a list of strings.
pub fn copy_all(v: &Vec<String>) -> (out: Vec<String>)
    ensures
        texts(out@) == texts(v@),
{
    let mut out: Vec<String> = Vec::new();
    let mut i: usize = 0;
    while i < v.len()
        invariant
            i <= v@.len(),
            out@.len() == i,
            forall|j: int| 0 <= j < i ==> (#[trigger] out@[j])@ == v@[j]@,
        decreases v@.len() - i,
    {
        out.push(copy_of(v[i].as_str()));
        i += 1;
    }
    assert(texts(out@) =~= texts(v@));
    out
}

// ----- decimal numerals -----------------------------------------------------

/// The decimal digit of value `d`.
pub open spec fn digit_char(d: nat) -> char {
    (48 + d) as char
}

/// The value of a decimal digit.
pub open spec fn digit_value(c: char) -> nat {
    (c as int - 48) as nat
}

/// The decimal numeral of `n`, without leading zeros.
pub open spec fn decimal(n: nat) -> Seq<char>
    decreases n,
{
    if n < 10 {
        seq![digit_char(n)]
    } else {
        decimal(n / 10).push(digit_char(n % 10))
    }
}

/// The value of a sequence of decimal digits.
pub open spec fn numeral_value(s: Seq<char>) -> nat
    decreases s.len(),
{
    if s.len() == 0 {
        0
    } else {
        numeral_value(s.drop_last()) * 10 + digit_value(s.last())
    }
}

/// Appends the decimal numeral of `n`.
pub fn push_decimal(out: &mut String, n: u64)
    ensures
        final(out)@ == old(out)@ + decimal(n as nat),
    decreases n,
{
    if n >= 10 {
        push_decimal(out, n / 10);
    }
    let d: u8 = (n % 10) as u8;
    out.push((48u8 + d) as char);
    proof {
        assert((48u8 + d) as char == digit_char((n % 10) as nat));
        assert(out@ =~= old(out)@ + decimal(n as nat));
    }
}

/// The decimal numeral of `n`.
pub fn decimal_of(n: u64) -> (out: String)
    ensures
        out@ == decimal(n as nat),
{
    let mut out = String::new();
    push_decimal(&mut out, n);
    assert(out@ =~= decimal(n as nat));
    out
}

} // verus!
