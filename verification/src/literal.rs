//! Decimal number literals and the numbers they denote.

use vstd::prelude::*;
use crate::binary64::{
    grid, midpoint, nearest, one, reaches, rounds_to, Binary64, BINADE, INFINITE, SIGN,
};
use crate::binary64::{
    find_nearest, lemma_grid_step, lemma_nearest_unique, lemma_reaches_monotone,
    lemma_reaches_scaled,
};
use crate::natural::{
    lemma_power_adds, lemma_power_base_monotone, lemma_power_monotone, lemma_power_of_eight,
    lemma_power_of_ten, lemma_power_positive, lemma_powers_of_two, power, Natural,
};
use crate::text::{chars_of, digit, is_digit, lemma_run_is, numeral_value, run};

verus! {

/// What a literal says: `significand * 10^exponent`, with a sign.
pub struct Literal {
    pub negative: bool,
    pub significand: nat,
    pub exponent: int,
}

/// The longest run of digits at the start of `s`.
pub open spec fn digits(s: Seq<char>) -> nat {
    run(s, |c: char| digit(c))
}

/// Whether `s` starts with `a` or `b`.
pub open spec fn starts_either(s: Seq<char>, a: char, b: char) -> bool {
    s.len() > 0 && (s[0] == a || s[0] == b)
}

/// The exponent that `s` writes: an optional sign and one or more digits.
pub open spec fn exponent_of(s: Seq<char>) -> Option<int> {
    let body = if starts_either(s, '+', '-') {
        s.skip(1)
    } else {
        s
    };
    if body.len() == 0 || digits(body) < body.len() {
        None
    } else if s[0] == '-' {
        Some(-(numeral_value(body) as int))
    } else {
        Some(numeral_value(body) as int)
    }
}

/// The digits before the point.
pub open spec fn whole_part(s: Seq<char>) -> Seq<char> {
    s.take(digits(s) as int)
}

/// What follows the digits before the point.
pub open spec fn after_whole(s: Seq<char>) -> Seq<char> {
    s.skip(digits(s) as int)
}

/// Whether there is a point.
pub open spec fn has_point(s: Seq<char>) -> bool {
    after_whole(s).len() > 0 && after_whole(s)[0] == '.'
}

/// The digits behind the point.
pub open spec fn fraction_part(s: Seq<char>) -> Seq<char> {
    if has_point(s) {
        whole_part(after_whole(s).skip(1))
    } else {
        Seq::empty()
    }
}

/// What follows the digits and the point.
pub open spec fn after_figures(s: Seq<char>) -> Seq<char> {
    if has_point(s) {
        after_whole(after_whole(s).skip(1))
    } else {
        after_whole(s)
    }
}

/// Reads a literal without its sign: digits with at most one point among,
/// before or behind them, then an optional `e` or `E` with an exponent.
pub open spec fn unsigned_literal(negative: bool, s: Seq<char>) -> Option<Literal> {
    let figures = whole_part(s) + fraction_part(s);
    let places = fraction_part(s).len();
    let tail = after_figures(s);
    let significand = numeral_value(figures);
    if figures.len() == 0 {
        None
    } else if tail.len() == 0 {
        Some(Literal { negative, significand, exponent: -(places as int) })
    } else if starts_either(tail, 'e', 'E') {
        match exponent_of(tail.skip(1)) {
            Some(e) => Some(Literal { negative, significand, exponent: e - places }),
            None => None,
        }
    } else {
        None
    }
}

/// The literal that `s` is, if it is one: an optional sign, then the rest.
pub open spec fn literal(s: Seq<char>) -> Option<Literal> {
    if starts_either(s, '+', '-') {
        unsigned_literal(s[0] == '-', s.skip(1))
    } else {
        unsigned_literal(false, s)
    }
}

/// The numerator of `c * 10^q`.
pub open spec fn numerator(c: nat, q: int) -> nat {
    c * power(10, if q > 0 {
        q as nat
    } else {
        0
    })
}

/// The denominator of `c * 10^q`.
pub open spec fn denominator(q: int) -> nat {
    power(10, if q < 0 {
        (-q) as nat
    } else {
        0
    })
}

/// The double-precision number nearest to what a literal says.
pub open spec fn rounded(l: Literal) -> Binary64 {
    let m = nearest(numerator(l.significand, l.exponent), denominator(l.exponent));
    Binary64 {
        bits: (m + if l.negative {
            SIGN as nat
        } else {
            0
        }) as u64,
    }
}

/// The number that `s` denotes, if it is a literal.
#[verifier::opaque]
pub open spec fn number_of(s: Seq<char>) -> Option<Binary64> {
    match literal(s) {
        Some(l) => Some(rounded(l)),
        None => None,
    }
}

pub proof fn lemma_denominator_positive(q: int)
    ensures
        denominator(q) > 0,
{
    lemma_power_positive(10, if q < 0 {
        (-q) as nat
    } else {
        0
    });
}

/// The value of a numeral is less than ten to the power of its length.
proof fn lemma_numeral_bound(s: Seq<char>)
    requires
        forall|i: int| 0 <= i < s.len() ==> digit(#[trigger] s[i]),
    ensures
        numeral_value(s) < power(10, s.len()),
    decreases s.len(),
{
    if s.len() > 0 {
        assert forall|i: int| 0 <= i < s.len() - 1 implies digit(#[trigger] s.drop_last()[i]) by {
            assert(s.drop_last()[i] == s[i]);
        }
        lemma_numeral_bound(s.drop_last());
        assert(digit(s[s.len() - 1]));
    }
}

/// Great powers of ten exceed the format.
pub proof fn lemma_infinite(c: nat, q: int)
    requires
        c > 0,
        q >= 350,
    ensures
        reaches(numerator(c, q), denominator(q), INFINITE as nat),
        rounds_to(numerator(c, q), denominator(q), INFINITE as nat),
{
    let i = INFINITE as nat;
    let p = power(10, q as nat);
    lemma_power_base_monotone(8, 10, q as nat);
    lemma_power_of_eight(q as nat);
    lemma_power_monotone(2, 1050, 3 * q as nat);
    let n = numerator(c, q);
    assert(n >= p) by (nonlinear_arith)
        requires
            n == c * p,
            c > 0,
    ;
    lemma_power_adds(2, 1050, 1074);
    assert(n * one() >= power(2, 1050) * one()) by (nonlinear_arith)
        requires
            n >= power(2, 1050),
    ;
    lemma_powers_of_two();
    lemma_power_adds(2, 52, 2046);
    lemma_power_monotone(2, 2099, 2124);
    assert(power(2, 2099) == 2 * power(2, 2098));
    lemma_power_positive(2, 2098);
    assert(i / BINADE as nat == 2047 && i % BINADE as nat == 0);
    assert(grid(i) == power(2, 2098));
    lemma_grid_step((i - 1) as nat);
    assert(denominator(q) == 1);
    assert(midpoint(i) * 1 == midpoint(i)) by (nonlinear_arith);
}

/// Small powers of ten vanish in the format.
proof fn lemma_vanishing(c: nat, n: nat, q: int)
    requires
        c < power(10, n),
        n + q <= -360,
    ensures
        rounds_to(numerator(c, q), denominator(q), 0),
{
    let num = numerator(c, q);
    let den = denominator(q);
    let k = (-q) as nat;
    assert(c * power(10, 0) == c) by (nonlinear_arith)
        requires
            power(10, 0) == 1,
    ;
    lemma_power_monotone(10, n + 360, k);
    lemma_power_adds(10, n, 360);
    lemma_power_base_monotone(8, 10, 360);
    lemma_power_of_eight(360);
    lemma_power_monotone(2, 1075, 1080);
    let (p, t) = (power(10, n), power(10, 360));
    lemma_power_positive(2, 1075);
    assert(c * power(2, 1075) < p * t) by (nonlinear_arith)
        requires
            c < p,
            power(2, 1075) <= t,
            power(2, 1075) > 0,
    ;
    assert(power(2, 1075) == 2 * one());
    assert(2 * (num * one()) == num * (2 * one())) by (nonlinear_arith);
    assert(grid(0) == 0 && grid(1) == 1);
    assert(midpoint(1) * den == den) by (nonlinear_arith)
        requires
            midpoint(1) == 1,
    ;
}

/// `c * 10^k * 10^q` is `c * 10^(k + q)`, however it is written as a fraction.
proof fn lemma_reaches_shifted(c: nat, k: nat, q: int, i: nat)
    ensures
        reaches(numerator(c * power(10, k), q), denominator(q), i) == reaches(
            numerator(c, q + k),
            denominator(q + k),
            i,
        ),
{
    let p = power(10, k);
    assert(power(10, 0) == 1);
    assert(c * 1 == c && (c * p) * 1 == c * p) by (nonlinear_arith);
    if q >= 0 {
        lemma_power_adds(10, k, q as nat);
        let t = power(10, q as nat);
        assert((c * p) * t == c * (p * t)) by (nonlinear_arith);
    } else if q + k <= 0 {
        let t = power(10, (-(q + k)) as nat);
        lemma_power_adds(10, k, (-(q + k)) as nat);
        lemma_power_positive(10, k);
        assert(c * p == p * c) by (nonlinear_arith);
        lemma_reaches_scaled(c, t, p, i);
    } else {
        let (t, u) = (power(10, (-q) as nat), power(10, (q + k) as nat));
        lemma_power_adds(10, (-q) as nat, (q + k) as nat);
        lemma_power_positive(10, (-q) as nat);
        assert(c * (t * u) == t * (c * u)) by (nonlinear_arith);
        assert(t * 1 == t) by (nonlinear_arith);
        lemma_reaches_scaled(c * u, 1, t, i);
    }
}

/// A literal with many digits before its point exceeds the format.
proof fn lemma_long_infinite(c: nat, k: nat, q: int)
    requires
        c >= power(10, k),
        k + q >= 350,
    ensures
        rounds_to(numerator(c, q), denominator(q), INFINITE as nat),
{
    let p = power(10, k);
    lemma_infinite(1, q + k);
    lemma_reaches_shifted(1, k, q, INFINITE as nat);
    assert(1 * p == p) by (nonlinear_arith);
    let t = power(10, if q > 0 {
        q as nat
    } else {
        0
    });
    assert(p * t <= c * t) by (nonlinear_arith)
        requires
            p <= c,
    ;
    lemma_reaches_monotone(numerator(p, q), numerator(c, q), denominator(q), INFINITE as nat);
}

/// Between two numbers that are next to each other in units of `10^-s`, where `s`
/// is great, there is no midpoint: what lies between them is rounded as far as the
/// lower one, or further where that one lies on a midpoint.
proof fn lemma_between(h: nat, r: nat, s: nat, x: nat, i: nat)
    requires
        s >= 1075,
        h * power(10, r) < x < (h + 1) * power(10, r),
    ensures
        reaches(x, power(10, r + s), i) == (midpoint(i) * power(10, r + s) <= 2 * ((h * power(
            10,
            r,
        )) * one())),
{
    let (p, t, m) = (power(10, r), power(2, 1075), midpoint(i));
    let rest = power(2, (s - 1075) as nat) * power(5, s);
    lemma_power_adds(10, r, s);
    lemma_power_of_ten(s);
    lemma_power_adds(2, 1075, (s - 1075) as nat);
    let (u, v) = (power(2, (s - 1075) as nat), power(5, s));
    assert((t * u) * v == t * (u * v)) by (nonlinear_arith);
    assert(power(10, s) == t * rest);
    assert(t == 2 * one());
    let unit = p * t;
    let k = m * rest;
    assert(m * (p * (t * rest)) == unit * k) by (nonlinear_arith)
        requires
            unit == p * t,
            k == m * rest,
    ;
    assert(2 * ((h * p) * one()) == unit * h) by (nonlinear_arith)
        requires
            unit == p * (2 * one()),
    ;
    let (low, high, at) = (h * p, (h + 1) * p, 2 * (x * one()));
    lemma_power_positive(2, 1074);
    assert(unit * h < at < unit * (h + 1)) by (nonlinear_arith)
        requires
            low < x < high,
            low == h * p,
            high == (h + 1) * p,
            unit == p * (2 * one()),
            at == 2 * (x * one()),
            one() > 0,
    ;
    lemma_power_positive(10, r);
    lemma_power_positive(2, 1075);
    assert(unit > 0) by (nonlinear_arith)
        requires
            unit == p * t,
            p > 0,
            t > 0,
    ;
    if k <= h {
        assert(unit * k <= unit * h) by (nonlinear_arith)
            requires
                k <= h,
        ;
    } else {
        assert(unit * k >= unit * (h + 1)) by (nonlinear_arith)
            requires
                k >= h + 1,
        ;
        assert(unit * (h + 1) > unit * h) by (nonlinear_arith)
            requires
                unit > 0,
        ;
    }
}

/// The digits behind the first [`KEPT`] significant ones may be condensed into one.
proof fn lemma_condensed(c: nat, r: nat, q: int, m: nat)
    requires
        r > 0,
        c >= power(10, (KEPT - 1 + r) as nat),
        rounds_to(numerator(condensed(c, r), q + r - 1), denominator(q + r - 1), m),
    ensures
        rounds_to(numerator(c, q), denominator(q), m),
{
    let p = power(10, r);
    let (h, t) = (c / p, c % p);
    let short = condensed(c, r);
    lemma_power_positive(10, r);
    vstd::arithmetic::div_mod::lemma_fundamental_div_mod(c as int, p as int);
    let w = power(10, (KEPT - 1) as nat);
    lemma_power_adds(10, (KEPT - 1) as nat, r);
    assert(h >= w) by (nonlinear_arith)
        requires
            c >= w * p,
            c == p * h + t,
            t < p,
    ;
    if q + r >= -1074 {
        lemma_long_infinite(c, (KEPT - 1 + r) as nat, q);
        assert(power(10, KEPT as nat) == 10 * w);
        lemma_long_infinite(short, KEPT as nat, q + r - 1);
        lemma_denominator_positive(q + r - 1);
        let (a, b) = (numerator(short, q + r - 1), denominator(q + r - 1));
        lemma_nearest_unique(a, b, m);
        lemma_nearest_unique(a, b, INFINITE as nat);
    } else {
        lemma_condensed_reaches(c, r, q, m);
        lemma_condensed_reaches(c, r, q, m + 1);
    }
}

proof fn lemma_condensed_reaches(c: nat, r: nat, q: int, i: nat)
    requires
        r > 0,
        q + r <= -1075,
    ensures
        reaches(numerator(condensed(c, r), q + r - 1), denominator(q + r - 1), i) == reaches(
            numerator(c, q),
            denominator(q),
            i,
        ),
{
    let (p, g) = (power(10, r), power(10, (r - 1) as nat));
    let (h, t) = (c / p, c % p);
    let short = condensed(c, r);
    let long = short * g;
    lemma_power_positive(10, r);
    lemma_power_positive(10, (r - 1) as nat);
    assert(p == 10 * g);
    vstd::arithmetic::div_mod::lemma_fundamental_div_mod(c as int, p as int);
    lemma_reaches_shifted(short, (r - 1) as nat, q, i);
    assert(p * h == h * p) by (nonlinear_arith);
    if t == 0 {
        assert(long == c) by (nonlinear_arith)
            requires
                long == short * g,
                short == 10 * h,
                c == p * h,
                p == 10 * g,
        ;
    } else {
        assert(h * p < long < (h + 1) * p) by (nonlinear_arith)
            requires
                long == short * g,
                short == 10 * h + 1,
                p == 10 * g,
                g > 0,
        ;
        assert(h * p < c < (h + 1) * p) by (nonlinear_arith)
            requires
                c == h * p + t,
                0 < t < p,
        ;
        let s = (-(q + r)) as nat;
        lemma_between(h, r, s, long, i);
        lemma_between(h, r, s, c, i);
        assert(r + s == (-q) as nat);
        assert(c * 1 == c && long * 1 == long) by (nonlinear_arith);
        assert(power(10, 0) == 1);
    }
}

/// The length of the run of digits from place `from` on.
pub fn digits_from(v: &Vec<char>, from: usize) -> (n: usize)
    requires
        from <= v@.len(),
    ensures
        n == digits(v@.skip(from as int)),
        from + n <= v@.len(),
        forall|i: int| from <= i < from + n ==> digit(#[trigger] v@[i]),
{
    let mut i: usize = from;
    while i < v.len() && is_digit(v[i])
        invariant
            from <= i <= v@.len(),
            forall|k: int| from <= k < i ==> digit(#[trigger] v@[k]),
        decreases v@.len() - i,
    {
        i += 1;
    }
    proof {
        let s = v@.skip(from as int);
        let p = |c: char| digit(c);
        assert forall|k: int| 0 <= k < i - from implies p(#[trigger] s[k]) by {
            assert(s[k] == v@[from + k]);
        }
        lemma_run_is(s, p, (i - from) as nat);
    }
    i - from
}

/// How many significant digits of a literal are read. What the further digits
/// say of the number nearest to the literal, one digit says as well.
pub const KEPT: usize = 1500;

/// The number `c` without its last `r` digits, and with one digit in their place:
/// 0 if they are all 0, and otherwise 1.
pub open spec fn condensed(c: nat, r: nat) -> nat {
    if r == 0 {
        c
    } else {
        10 * (c / power(10, r)) + if c % power(10, r) > 0 {
            1
        } else {
            0nat
        }
    }
}

proof fn lemma_by_one(c: nat)
    ensures
        c / power(10, 0) == c,
        c % power(10, 0) == 0,
{
    assert(power(10, 0) == 1);
    vstd::arithmetic::div_mod::lemma_fundamental_div_mod_converse(c as int, 1, c as int, 0);
}

/// Digits that were read: the value of the first significant ones, how many they
/// are, how many follow, and whether one of those is not 0.
struct Tally {
    head: Natural,
    kept: usize,
    dropped: usize,
    more: bool,
}

impl Tally {
    /// The digits that were read have the value `c`.
    spec fn holds(&self, c: nat) -> bool {
        let p = power(10, self.dropped as nat);
        &&& self.head@ == c / p
        &&& self.more == (c % p > 0)
        &&& self.head@ < power(10, self.kept as nat)
        &&& self.kept <= KEPT
        &&& self.kept > 0 ==> self.head@ >= power(10, (self.kept - 1) as nat)
        &&& self.dropped > 0 ==> self.kept == KEPT
    }

    /// Takes up one more digit.
    fn push(&mut self, d: u64, Ghost(c): Ghost<nat>)
        requires
            old(self).holds(c),
            old(self).dropped < usize::MAX,
            d < 10,
        ensures
            final(self).holds(10 * c + d as nat),
            final(self).dropped <= old(self).dropped + 1,
    {
        let ghost r = self.dropped as nat;
        let ghost (head, p, k) = (self.head@, power(10, r), self.kept as nat);
        proof {
            lemma_power_positive(10, r);
            vstd::arithmetic::div_mod::lemma_fundamental_div_mod(c as int, p as int);
            assert(power(10, 0) == 1);
            if r == 0 {
                lemma_by_one(c);
                lemma_by_one(10 * c + d as nat);
            }
        }
        if self.kept == KEPT {
            self.dropped += 1;
            self.more = self.more || d > 0;
            proof {
                let rest = 10 * (c % p) + d as nat;
                let total = 10 * c + d as nat;
                assert(power(10, r + 1) == 10 * p);
                assert(head * (10 * p) == 10 * (p * head)) by (nonlinear_arith);
                vstd::arithmetic::div_mod::lemma_fundamental_div_mod_converse(
                    total as int,
                    (10 * p) as int,
                    head as int,
                    rest as int,
                );
            }
        } else if self.kept > 0 || d > 0 {
            self.head.mul_add(10, d);
            self.kept += 1;
            proof {
                assert(power(10, k + 1) == 10 * power(10, k));
                if k > 0 {
                    assert(power(10, k) == 10 * power(10, (k - 1) as nat));
                }
            }
        }
    }
}

/// Takes up the digits `v[from..to]`.
fn add_digits(
    tally: &mut Tally,
    v: &Vec<char>,
    from: usize,
    to: usize,
    Ghost(before): Ghost<Seq<char>>,
)
    requires
        from <= to <= v@.len(),
        old(tally).holds(numeral_value(before)),
        old(tally).dropped <= from,
        forall|i: int| from <= i < to ==> digit(#[trigger] v@[i]),
    ensures
        final(tally).holds(numeral_value(before + v@.subrange(from as int, to as int))),
        final(tally).dropped <= to,
{
    let mut i: usize = from;
    assert(before + v@.subrange(from as int, from as int) =~= before);
    while i < to
        invariant
            from <= i <= to <= v@.len(),
            tally.holds(numeral_value(before + v@.subrange(from as int, i as int))),
            tally.dropped <= i,
            forall|k: int| from <= k < to ==> digit(#[trigger] v@[k]),
        decreases to - i,
    {
        let c: char = v[i];
        assert(digit(v@[i as int]));
        let d: u64 = (c as u32 - 48) as u64;
        let ghost read = before + v@.subrange(from as int, i as int);
        tally.push(d, Ghost(numeral_value(read)));
        proof {
            let next = before + v@.subrange(from as int, i + 1);
            assert(next.drop_last() =~= read);
            assert(next.last() == c);
        }
        i += 1;
    }
}

/// Beyond every exponent that decides about a literal of any length.
pub const FAR: u128 = 100000000000000000000;

/// The value of the digits `v[from..]`, exact below [`FAR`].
fn capped_value(v: &Vec<char>, from: usize) -> (r: u128)
    requires
        from <= v@.len(),
        forall|i: int| from <= i < v@.len() ==> digit(#[trigger] v@[i]),
    ensures
        r == numeral_value(v@.skip(from as int)) || (r >= FAR && numeral_value(
            v@.skip(from as int),
        ) >= FAR),
        r < 10 * FAR,
{
    let mut r: u128 = 0;
    let mut i: usize = from;
    assert(v@.subrange(from as int, from as int) =~= Seq::<char>::empty());
    while i < v.len()
        invariant
            from <= i <= v@.len(),
            r < 10 * FAR,
            r == numeral_value(v@.subrange(from as int, i as int)) || (r >= FAR && numeral_value(
                v@.subrange(from as int, i as int),
            ) >= FAR),
            forall|k: int| from <= k < v@.len() ==> digit(#[trigger] v@[k]),
        decreases v@.len() - i,
    {
        let c: char = v[i];
        assert(digit(v@[i as int]));
        proof {
            let next = v@.subrange(from as int, i + 1);
            assert(next.drop_last() =~= v@.subrange(from as int, i as int));
            assert(next.last() == c);
        }
        if r < FAR {
            r = r * 10 + (c as u32 - 48) as u128;
        }
        i += 1;
    }
    assert(v@.subrange(from as int, i as int) =~= v@.skip(from as int));
    r
}

/// The encoding of the magnitude nearest to `c * 10^q`, where `c` has at most
/// `n` digits.
fn nearest_scaled(c: &Natural, n: usize, q: i128) -> (i: u64)
    requires
        c@ < power(10, n as nat),
    ensures
        rounds_to(numerator(c@, q as int), denominator(q as int), i as nat),
{
    if c.against(&Natural::new(0)) == 0 {
        proof {
            lemma_zero(q as int);
        }
        0
    } else if q >= 350 {
        proof {
            lemma_infinite(c@, q as int);
        }
        INFINITE
    } else if q <= -360 - n as i128 {
        proof {
            lemma_vanishing(c@, n as nat, q as int);
        }
        0
    } else {
        let mut num = c.copy();
        let mut den = Natural::new(1);
        proof {
            let p = power(10, 0);
            assert(c@ * p == c@ && 1 * p == 1) by (nonlinear_arith)
                requires
                    p == 1,
            ;
        }
        if q > 0 {
            num.mul_power_of_ten(q as u128);
        } else if q < 0 {
            den.mul_power_of_ten((-q) as u128);
            assert(1 * power(10, (-q) as nat) == power(10, (-q) as nat)) by (nonlinear_arith);
        }
        proof {
            lemma_denominator_positive(q as int);
        }
        find_nearest(&num, &den)
    }
}

/// Zero is nearest to nothing but itself.
proof fn lemma_zero(q: int)
    ensures
        rounds_to(numerator(0, q), denominator(q), 0),
{
    lemma_denominator_positive(q);
    assert(numerator(0, q) == 0) by (nonlinear_arith)
        requires
            numerator(0, q) == 0 * power(10, if q > 0 {
                q as nat
            } else {
                0
            }),
    ;
    assert(grid(0) == 0 && grid(1) == 1);
    let den = denominator(q);
    assert(midpoint(1) * den > 0) by (nonlinear_arith)
        requires
            midpoint(1) == 1,
            den > 0,
    ;
    assert(2 * (0 * one()) == 0) by (nonlinear_arith);
}

/// Reads an exponent: an optional sign and one or more digits up to the end.
/// Exact below [`FAR`], with the right sign beyond it.
fn read_exponent(v: &Vec<char>, from: usize) -> (r: Option<i128>)
    requires
        from <= v@.len(),
    ensures
        r is Some <==> exponent_of(v@.skip(from as int)) is Some,
        r matches Some(e) ==> {
            let x = exponent_of(v@.skip(from as int))->0;
            &&& -(10 * FAR) < e < 10 * FAR
            &&& e == x || (e >= FAR && x >= FAR) || (e <= -FAR && x <= -FAR)
        },
{
    let ghost s = v@.skip(from as int);
    let signed: bool = from < v.len() && (v[from] == '+' || v[from] == '-');
    let start: usize = if signed {
        from + 1
    } else {
        from
    };
    proof {
        if from < v@.len() {
            assert(s[0] == v@[from as int]);
        }
        assert(signed == starts_either(s, '+', '-'));
        if signed {
            assert(s.skip(1) =~= v@.skip(start as int));
        }
    }
    let n: usize = digits_from(v, start);
    if n == 0 || start + n < v.len() {
        return None;
    }
    let size: u128 = capped_value(v, start);
    if v[from] == '-' {
        Some(-(size as i128))
    } else {
        Some(size as i128)
    }
}

/// Far exponents are as good as any beyond them.
proof fn lemma_exponent_cap(c: nat, n: nat, e: int, x: int, fraction: nat, m: nat)
    requires
        c < power(10, n),
        fraction <= n <= u64::MAX,
        e == x || (e >= FAR && x >= FAR) || (e <= -FAR && x <= -FAR),
        rounds_to(numerator(c, e - fraction), denominator(e - fraction), m),
    ensures
        nearest(numerator(c, x - fraction), denominator(x - fraction)) == m,
{
    let q = e - fraction;
    let r = x - fraction;
    lemma_denominator_positive(q);
    lemma_denominator_positive(r);
    lemma_nearest_unique(numerator(c, q), denominator(q), m);
    if x != e {
        if c == 0 {
            lemma_zero(q);
            lemma_zero(r);
            lemma_nearest_unique(numerator(c, q), denominator(q), 0);
        } else if e > 0 {
            lemma_infinite(c, q);
            lemma_infinite(c, r);
            lemma_nearest_unique(numerator(c, q), denominator(q), INFINITE as nat);
        } else {
            lemma_vanishing(c, n, q);
            lemma_vanishing(c, n, r);
            lemma_nearest_unique(numerator(c, q), denominator(q), 0);
        }
    }
    lemma_nearest_unique(numerator(c, r), denominator(r), m);
}

/// The figures of a literal: their value, condensed where they are many, with its
/// number of digits and the number of those that were condensed.
struct Figures {
    significand: Natural,
    size: usize,
    dropped: usize,
    whole: usize,
    fraction: usize,
    end: usize,
}

/// What a tally says of the digits that were read.
proof fn lemma_tally(tally: Tally, c: nat)
    requires
        tally.holds(c),
    ensures
        tally.dropped == 0 ==> tally.head@ == c,
        tally.dropped > 0 ==> c >= power(10, (KEPT - 1 + tally.dropped) as nat),
        power(10, tally.kept as nat + 1) == 10 * power(10, tally.kept as nat),
{
    let r = tally.dropped as nat;
    let p = power(10, r);
    lemma_power_positive(10, r);
    vstd::arithmetic::div_mod::lemma_fundamental_div_mod(c as int, p as int);
    if r == 0 {
        lemma_by_one(c);
    } else {
        let (h, w) = (c / p, power(10, (KEPT - 1) as nat));
        lemma_power_adds(10, (KEPT - 1) as nat, r);
        assert(c >= w * p) by (nonlinear_arith)
            requires
                c >= p * h,
                h >= w,
        ;
    }
}

/// The value of the digits of a literal.
spec fn figures_value(s: Seq<char>) -> nat {
    numeral_value(whole_part(s) + fraction_part(s))
}

/// Reads the digits of a literal, with the point if there is one.
fn read_figures(v: &Vec<char>, start: usize) -> (r: Figures)
    requires
        start <= v@.len(),
    ensures
        r.whole == whole_part(v@.skip(start as int)).len(),
        r.fraction == fraction_part(v@.skip(start as int)).len(),
        r.significand@ == condensed(figures_value(v@.skip(start as int)), r.dropped as nat),
        r.significand@ < power(10, r.size as nat),
        r.size <= KEPT + 1,
        r.dropped > 0 ==> figures_value(v@.skip(start as int)) >= power(
            10,
            (KEPT - 1 + r.dropped) as nat,
        ),
        figures_value(v@.skip(start as int)) < power(10, (r.whole + r.fraction) as nat),
        r.end <= v@.len(),
        r.whole + r.fraction <= r.end,
        v@.skip(r.end as int) == after_figures(v@.skip(start as int)),
{
    let len: usize = v.len();
    let ghost t = v@;
    let ghost s = t.skip(start as int);
    let whole: usize = digits_from(v, start);
    let at: usize = start + whole;
    proof {
        assert(whole_part(s) =~= t.subrange(start as int, at as int));
        assert(after_whole(s) =~= t.skip(at as int));
    }
    let pointed: bool = at < len && v[at] == '.';
    let from: usize = if pointed {
        at + 1
    } else {
        at
    };
    proof {
        if at < len {
            assert(after_whole(s)[0] == t[at as int]);
        }
        if pointed {
            assert(after_whole(s).skip(1) =~= t.skip(from as int));
        }
    }
    let fraction: usize = if pointed {
        digits_from(v, from)
    } else {
        0
    };
    let end: usize = from + fraction;
    let ghost figures = whole_part(s) + fraction_part(s);
    proof {
        assert(fraction_part(s) =~= t.subrange(from as int, end as int));
        assert(after_figures(s) =~= t.skip(end as int));
    }
    let mut tally = Tally { head: Natural::new(0), kept: 0, dropped: 0, more: false };
    proof {
        assert(power(10, 0) == 1);
        assert(0nat / 1nat == 0 && 0nat % 1nat == 0);
    }
    add_digits(&mut tally, v, start, at, Ghost(Seq::empty()));
    assert(Seq::<char>::empty() + t.subrange(start as int, at as int) =~= whole_part(s));
    add_digits(&mut tally, v, from, end, Ghost(whole_part(s)));
    proof {
        assert forall|i: int| 0 <= i < figures.len() implies digit(#[trigger] figures[i]) by {
            if i < whole {
                assert(figures[i] == t[start + i]);
            } else {
                assert(figures[i] == t[from + i - whole]);
            }
        }
        lemma_numeral_bound(figures);
        lemma_tally(tally, numeral_value(figures));
    }
    let dropped: usize = tally.dropped;
    let mut significand = tally.head;
    let mut size: usize = tally.kept;
    if dropped > 0 {
        significand.mul_add(10, if tally.more {
            1
        } else {
            0
        });
        size += 1;
    }
    Figures { significand, size, dropped, whole, fraction, end }
}

/// The number that `v[start..]` denotes, if it is a literal without a sign.
fn read_unsigned(v: &Vec<char>, start: usize, negative: bool) -> (r: Option<Binary64>)
    requires
        start <= v@.len(),
    ensures
        r == (match unsigned_literal(negative, v@.skip(start as int)) {
            Some(l) => Some(rounded(l)),
            None => None,
        }),
{
    let ghost s = v@.skip(start as int);
    let figures = read_figures(v, start);
    let end: usize = figures.end;
    let n: usize = figures.whole + figures.fraction;
    if n == 0 {
        return None;
    }
    let ghost tail = after_figures(s);
    let mut e: i128 = 0;
    let ghost mut x: int = 0;
    if end < v.len() {
        assert(tail[0] == v@[end as int]);
        if v[end] != 'e' && v[end] != 'E' {
            return None;
        }
        assert(tail.skip(1) =~= v@.skip(end + 1));
        match read_exponent(v, end + 1) {
            None => {
                return None;
            },
            Some(written) => {
                e = written;
                proof {
                    x = exponent_of(tail.skip(1))->0;
                }
            },
        }
    }
    let q: i128 = e - figures.fraction as i128;
    let scale: i128 = if figures.dropped > 0 {
        q + figures.dropped as i128 - 1
    } else {
        q
    };
    let m: u64 = nearest_scaled(&figures.significand, figures.size, scale);
    proof {
        let c = figures_value(s);
        if figures.dropped > 0 {
            lemma_condensed(c, figures.dropped as nat, q as int, m as nat);
        }
        lemma_exponent_cap(
            c,
            n as nat,
            e as int,
            x,
            figures.fraction as nat,
            m as nat,
        );
    }
    if negative {
        Some(Binary64 { bits: m + SIGN })
    } else {
        Some(Binary64 { bits: m })
    }
}

/// The number that `text` denotes, if it is a literal.
pub fn read_number(text: &str) -> (r: Option<Binary64>)
    ensures
        r == number_of(text@),
{
    let v: Vec<char> = chars_of(text);
    proof {
        reveal(number_of);
    }
    if v.len() > 0 && (v[0] == '+' || v[0] == '-') {
        read_unsigned(&v, 1, v[0] == '-')
    } else {
        assert(v@.skip(0) =~= v@);
        read_unsigned(&v, 0, false)
    }
}

} // verus!
