//! Numbers as text: the shortest decimals that denote them.

use vstd::prelude::*;
use vstd::string::StringExecFns;
use crate::binary64::{
    decode, grid, integer_of, lemma_grid_step, lemma_nearest_unique, lemma_reaches_antitone,
    lemma_reaches_monotone, lemma_reaches_scaled, lemma_rounds_to_itself, midpoint, one, reaches,
    rounds_to, test_reaches, whole_magnitude, Binary64, INFINITE, SIGN, TOO_GREAT,
};
use crate::literal::{
    denominator, lemma_denominator_positive, lemma_infinite, number_of, numerator, unsigned_literal,
    Literal,
};
use crate::natural::{lemma_power_of_ten, lemma_power_positive, power, Natural};
use crate::text::{
    chars_of, copy_of, decimal, digit, digit_char, digit_value, lemma_run_is, numeral_value,
    push_decimal, string_of,
};

verus! {

/// Whether `c * 10^q` is read as the magnitude of encoding `i`.
pub open spec fn reads_back(c: nat, q: int, i: nat) -> bool {
    rounds_to(numerator(c, q), denominator(q), i)
}

/// How far `c * 10^q` lies from the magnitude of encoding `i`, in a unit that
/// depends on `q` alone.
pub open spec fn gap(c: nat, q: int, i: nat) -> nat {
    let d = numerator(c, q) * one() - grid(i) * denominator(q);
    if d < 0 {
        (-d) as nat
    } else {
        d as nat
    }
}

/// `c * 10^q` is the shortest decimal that is read as encoding `i`: no
/// multiple of a greater power of ten is, and of the multiples of `10^q` that
/// are, it is the nearest; of two equally near ones the greater.
pub open spec fn is_shortest(c: nat, q: int, i: nat) -> bool {
    &&& reads_back(c, q, i)
    &&& forall|d: nat, r: int| r > q ==> !#[trigger] reads_back(d, r, i)
    &&& forall|d: nat| #[trigger] reads_back(d, q, i) ==> gap(c, q, i) < gap(d, q, i) || (gap(c, q, i)
        == gap(d, q, i) && c >= d)
}

/// The shortest decimal that is read as encoding `i`: a significand and the
/// exponent of ten.
pub open spec fn shortest(i: nat) -> (nat, int) {
    choose|p: (nat, int)| #[trigger] is_shortest(p.0, p.1, i)
}

/// There is one shortest decimal.
pub proof fn lemma_shortest_unique(c: nat, q: int, i: nat)
    requires
        is_shortest(c, q, i),
    ensures
        shortest(i) == (c, q),
{
    let p = (c, q);
    assert(is_shortest(p.0, p.1, i));
    let s = shortest(i);
    assert(is_shortest(s.0, s.1, i));
    if s.1 > q {
        assert(!reads_back(s.0, s.1, i));
    } else if s.1 < q {
        assert(!reads_back(c, q, i));
    }
}

/// `n` zeros.
pub open spec fn zeros(n: nat) -> Seq<char> {
    Seq::new(n, |k: int| '0')
}

/// `c * 10^q` written out without an exponent.
pub open spec fn spelled(c: nat, q: int) -> Seq<char> {
    let d = decimal(c);
    if q >= 0 {
        d + zeros(q as nat)
    } else if d.len() > -q {
        d.take(d.len() + q) + seq!['.'] + d.skip(d.len() + q)
    } else {
        seq!['0', '.'] + zeros((-q - d.len()) as nat) + d
    }
}

/// The text of a magnitude.
pub open spec fn magnitude_text(i: nat) -> Seq<char> {
    if i == INFINITE {
        seq!['i', 'n', 'f']
    } else if i == 0 {
        seq!['0']
    } else {
        spelled(shortest(i).0, shortest(i).1)
    }
}

/// The text of a number: its sign if negative, then the shortest decimal that
/// denotes it.
pub open spec fn number_text(x: Binary64) -> Seq<char> {
    if x.magnitude() > INFINITE {
        seq!['N', 'a', 'N']
    } else if x.negative() {
        seq!['-'] + magnitude_text(x.magnitude())
    } else {
        magnitude_text(x.magnitude())
    }
}

/// The text of a number that shows a whole one as a signed 64-bit integer,
/// the nearest one if it is out of range, and any other by [`number_text`].
pub open spec fn scalar_text(x: Binary64) -> Seq<char> {
    match integer_of(x.magnitude()) {
        Some(n) => if x.negative() && n > 0 {
            seq!['-'] + decimal(
                if n < TOO_GREAT {
                    n
                } else {
                    TOO_GREAT as nat
                },
            )
        } else {
            decimal(
                if n < TOO_GREAT {
                    n
                } else {
                    (TOO_GREAT - 1) as nat
                },
            )
        },
        None => number_text(x),
    }
}

// ----- the search ---------------------------------------------------------------

/// Whether `c * 10^q` is at most the magnitude of encoding `i`.
spec fn at_most(c: nat, q: int, i: nat) -> bool {
    numerator(c, q) * one() <= grid(i) * denominator(q)
}

/// `c` is the magnitude of encoding `i` over `10^q`, rounded down.
spec fn is_floor(c: nat, q: int, i: nat) -> bool {
    at_most(c, q, i) && !at_most(c + 1, q, i)
}

/// Ten to the power of `q`, if positive.
spec fn step(q: int) -> nat {
    power(10, if q > 0 {
        q as nat
    } else {
        0
    })
}

proof fn lemma_numerator_order(a: nat, b: nat, q: int)
    requires
        a <= b,
    ensures
        numerator(a, q) <= numerator(b, q),
        numerator(a, q) * one() <= numerator(b, q) * one(),
        numerator(b, q) * one() == numerator(a, q) * one() + (b - a) * (step(q) * one()),
{
    let t = step(q);
    let o = one();
    assert(a * t <= b * t) by (nonlinear_arith)
        requires
            a <= b,
    ;
    assert((a * t) * o <= (b * t) * o) by (nonlinear_arith)
        requires
            a * t <= b * t,
    ;
    assert((b * t) * o == (a * t) * o + (b - a) * (t * o)) by (nonlinear_arith);
}

/// A tenfold significand with a lower exponent is the same decimal.
proof fn lemma_refine(c: nat, q: int, i: nat)
    ensures
        reads_back(c, q, i) == reads_back(10 * c, q - 1, i),
        at_most(c, q, i) == at_most(10 * c, q - 1, i),
{
    if q >= 1 {
        let t = power(10, (q - 1) as nat);
        assert(power(10, q as nat) == 10 * t);
        assert(c * (10 * t) == (10 * c) * t) by (nonlinear_arith);
        assert(numerator(c, q) == numerator(10 * c, q - 1));
    } else {
        let d = power(10, (-q) as nat);
        assert(power(10, (1 - q) as nat) == 10 * d);
        assert(c * 1 == c && (10 * c) * 1 == 10 * c) by (nonlinear_arith);
        assert(numerator(c, q) == c && numerator(10 * c, q - 1) == 10 * c);
        if i > 0 {
            lemma_reaches_scaled(c, d, 10, i);
        }
        lemma_reaches_scaled(c, d, 10, i + 1);
        let (o, g) = (one(), grid(i));
        assert((c * o <= g * d) == ((10 * c) * o <= g * (10 * d))) by (nonlinear_arith);
    }
}

/// What no multiple of `10^q` reads as, no multiple of a greater power does.
proof fn lemma_coarser(q: int, r: int, d: nat, i: nat)
    requires
        r >= q,
        forall|c: nat| !#[trigger] reads_back(c, q, i),
    ensures
        !reads_back(d, r, i),
    decreases r - q,
{
    if r > q {
        lemma_refine(d, r, i);
        lemma_coarser(q, r - 1, 10 * d, i);
    }
}

/// Where `10^q` is read as more than `i`, no multiple of it is read as `i`.
proof fn lemma_too_coarse(q: int, i: nat)
    requires
        0 < i < INFINITE,
        reaches(numerator(1, q), denominator(q), i + 1),
    ensures
        forall|c: nat| !#[trigger] reads_back(c, q, i),
        is_floor(0, q, i),
{
    lemma_denominator_positive(q);
    let d = denominator(q);
    assert forall|c: nat| !#[trigger] reads_back(c, q, i) by {
        if c == 0 {
            let n = numerator(0, q);
            assert(n == 0) by (nonlinear_arith)
                requires
                    n == 0 * step(q),
            ;
            assert(2 * (n * one()) == 0) by (nonlinear_arith)
                requires
                    n == 0,
            ;
            lemma_grid_step((i - 1) as nat);
            assert(midpoint(i) * d > 0) by (nonlinear_arith)
                requires
                    midpoint(i) > 0,
                    d > 0,
            ;
        } else {
            lemma_numerator_order(1, c, q);
            lemma_reaches_monotone(numerator(1, q), numerator(c, q), d, i + 1);
        }
    }
    lemma_grid_step(i);
    let (g, m) = (grid(i), midpoint(i + 1));
    assert((2 * g) * d < m * d) by (nonlinear_arith)
        requires
            2 * g < m,
            d > 0,
    ;
    assert((2 * g) * d == 2 * (g * d)) by (nonlinear_arith);
    let n = numerator(0, q);
    assert(n * one() == 0) by (nonlinear_arith)
        requires
            n == 0 * step(q),
    ;
}

/// If a multiple of `10^q` is read as `i`, the multiple on its side of the
/// magnitude that is next to it is too.
proof fn lemma_neighbours(c: nat, d: nat, q: int, i: nat)
    requires
        0 < i < INFINITE,
        is_floor(c, q, i),
        reads_back(d, q, i),
    ensures
        d <= c ==> reads_back(c, q, i),
        d > c ==> reads_back(c + 1, q, i),
{
    lemma_denominator_positive(q);
    let den = denominator(q);
    let g = grid(i);
    assert((2 * g) * den == 2 * (g * den)) by (nonlinear_arith);
    if d <= c {
        lemma_numerator_order(d, c, q);
        lemma_reaches_monotone(numerator(d, q), numerator(c, q), den, i);
        lemma_grid_step(i);
        let m = midpoint(i + 1);
        assert((2 * g) * den < m * den) by (nonlinear_arith)
            requires
                2 * g < m,
                den > 0,
        ;
        assert(!reaches(numerator(c, q), den, i + 1));
    } else {
        lemma_numerator_order(c + 1, d, q);
        if reaches(numerator(c + 1, q), den, i + 1) {
            lemma_reaches_monotone(numerator(c + 1, q), numerator(d, q), den, i + 1);
        }
        lemma_grid_step((i - 1) as nat);
        let m = midpoint(i);
        assert(m * den < (2 * g) * den) by (nonlinear_arith)
            requires
                m < 2 * g,
                den > 0,
        ;
        assert(reaches(numerator(c + 1, q), den, i));
    }
}

/// Of the multiples of `10^q`, the two around the magnitude are the nearest.
proof fn lemma_gaps(c: nat, d: nat, q: int, i: nat)
    requires
        is_floor(c, q, i),
    ensures
        d <= c ==> gap(c, q, i) <= gap(d, q, i),
        d < c ==> gap(c, q, i) < gap(d, q, i),
        d > c ==> gap(c + 1, q, i) <= gap(d, q, i),
        d > c + 1 ==> gap(c + 1, q, i) < gap(d, q, i),
        gap(c, q, i) + gap(c + 1, q, i) == step(q) * one(),
        gap(c, q, i) == grid(i) * denominator(q) - numerator(c, q) * one(),
{
    let u = step(q) * one();
    assert(u > 0) by {
        lemma_power_positive(10, if q > 0 {
            q as nat
        } else {
            0
        });
        lemma_power_positive(2, 1074);
        assert(step(q) * one() > 0) by (nonlinear_arith)
            requires
                step(q) > 0,
                one() > 0,
        ;
    }
    lemma_numerator_order(c, c + 1, q);
    assert(1 * u == u) by (nonlinear_arith);
    if d <= c {
        lemma_numerator_order(d, c, q);
        if d < c {
            assert((c - d) * u >= u) by (nonlinear_arith)
                requires
                    c - d >= 1,
                    u > 0,
            ;
        }
    } else {
        lemma_numerator_order(c + 1, d, q);
        if d > c + 1 {
            assert((d - (c + 1)) * u >= u) by (nonlinear_arith)
                requires
                    d - (c + 1) >= 1,
                    u > 0,
            ;
        }
    }
}

/// The multiple above is at least as near if the middle is at most the
/// magnitude.
proof fn lemma_nearer(c: nat, q: int, i: nat)
    requires
        is_floor(c, q, i),
    ensures
        gap(c + 1, q, i) <= gap(c, q, i) <==> numerator(2 * c + 1, q) * one() <= 2 * (grid(i)
            * denominator(q)),
{
    let u = step(q) * one();
    lemma_gaps(c, c, q, i);
    lemma_numerator_order(0, 2 * c + 1, q);
    lemma_numerator_order(0, c, q);
    assert((2 * c + 1) * u == 2 * (c * u) + u) by (nonlinear_arith);
    let n = numerator(0, q);
    assert(n * one() == 0) by (nonlinear_arith)
        requires
            n == 0 * step(q),
    ;
}

/// The exact decimal of a magnitude is read back.
proof fn lemma_exact(i: nat)
    requires
        i < INFINITE,
    ensures
        reads_back(grid(i) * power(5, 1074), -1074, i),
{
    lemma_power_of_ten(1074);
    lemma_denominator_positive(-1074);
    let (g, f, t) = (grid(i), power(5, 1074), one());
    let c = g * f;
    assert(c * power(10, 0) == c) by (nonlinear_arith)
        requires
            power(10, 0) == 1,
    ;
    assert((g * f) * t == g * (t * f)) by (nonlinear_arith);
    lemma_rounds_to_itself(i, denominator(-1074), numerator(c, -1074));
}

/// `2 * c * 10^q`, scaled by its denominator, on the grid.
fn twice_scaled(c: &Natural, q: i64) -> (r: Natural)
    requires
        -2000 <= q <= 2000,
    ensures
        r@ == 2 * (numerator(c@, q as int) * one()),
{
    let mut r = c.copy();
    if q > 0 {
        r.mul_power_of_ten(q as u128);
    } else {
        assert(c@ * power(10, 0) == c@) by (nonlinear_arith)
            requires
                power(10, 0) == 1,
        ;
    }
    r.mul_power_of_two(1074);
    r.mul_add(2, 0);
    r
}

/// The denominator of a multiple of `10^q`.
fn scale(q: i64) -> (r: Natural)
    requires
        -2000 <= q <= 2000,
    ensures
        r@ == denominator(q as int),
{
    let mut r = Natural::new(1);
    if q < 0 {
        r.mul_power_of_ten((-q) as u128);
        assert(1 * power(10, (-q) as nat) == power(10, (-q) as nat)) by (nonlinear_arith);
    }
    r
}

/// Twice the magnitude of encoding `i` over `10^q`, on the grid.
fn twice_magnitude(i: u64, q: i64) -> (r: Natural)
    requires
        i < INFINITE,
        -2000 <= q <= 2000,
    ensures
        r@ == 2 * (grid(i as nat) * denominator(q as int)),
{
    let (m, s) = decode(i);
    let mut r = scale(q);
    let ghost d = r@;
    r.mul_add(m, 0);
    r.mul_power_of_two(s);
    r.mul_add(2, 0);
    proof {
        let p = power(2, s as nat);
        assert((d * m) * p == (m * p) * d) by (nonlinear_arith);
    }
    r
}

/// Whether `c * 10^q` is read as encoding `i`.
fn test_reads_back(c: &Natural, q: i64, i: u64) -> (r: bool)
    requires
        0 < i < INFINITE,
        -2000 <= q <= 2000,
    ensures
        r == reads_back(c@, q as int, i as nat),
{
    let twice = twice_scaled(c, q);
    let den = scale(q);
    test_reaches(&twice, &den, i, Ghost(numerator(c@, q as int))) && !test_reaches(
        &twice,
        &den,
        i + 1,
        Ghost(numerator(c@, q as int)),
    )
}

/// The least exponent, from 0 up, whose power of ten is read as more than `i`.
fn first_exponent(i: u64) -> (q: i64)
    requires
        0 < i < INFINITE,
    ensures
        0 <= q <= 350,
        reaches(numerator(1, q as int), denominator(q as int), i as nat + 1),
{
    let unit = Natural::new(1);
    let den = scale(0);
    let mut q: i64 = 0;
    while q < 350
        invariant
            0 <= q <= 350,
            0 < i < INFINITE,
            unit@ == 1,
            den@ == denominator(0),
        decreases 350 - q,
    {
        assert(denominator(q as int) == denominator(0));
        let twice = twice_scaled(&unit, q);
        if test_reaches(&twice, &den, i + 1, Ghost(numerator(1, q as int))) {
            return q;
        }
        q += 1;
    }
    proof {
        lemma_infinite(1, 350);
        lemma_denominator_positive(350);
        lemma_reaches_antitone(
            numerator(1, 350),
            denominator(350),
            (i + 1) as nat,
            INFINITE as nat,
        );
    }
    q
}

/// The next digit of the magnitude: the quotient by `10^q`, where `c` is the
/// quotient by the next power of ten.
fn next_digit(c: &Natural, q: i64, i: u64) -> (d: u64)
    requires
        0 < i < INFINITE,
        -1074 <= q <= 350,
        is_floor(c@, q + 1, i as nat),
    ensures
        d <= 9,
        is_floor(10 * c@ + d as nat, q as int, i as nat),
{
    let whole = twice_magnitude(i, q);
    let mut d: u64 = 0;
    proof {
        lemma_refine(c@, q + 1, i as nat);
        lemma_refine(c@ + 1, q + 1, i as nat);
    }
    while d < 9
        invariant
            d <= 9,
            0 < i < INFINITE,
            -1074 <= q <= 350,
            whole@ == 2 * (grid(i as nat) * denominator(q as int)),
            at_most(10 * c@ + d as nat, q as int, i as nat),
            !at_most(10 * c@ + 10, q as int, i as nat),
        decreases 9 - d,
    {
        let mut more = c.copy();
        more.mul_add(10, d + 1);
        assert(more@ == 10 * c@ + d as nat + 1);
        let twice = twice_scaled(&more, q);
        if twice.against(&whole) > 0 {
            return d;
        }
        d += 1;
    }
    d
}

/// The shortest decimal of a magnitude: the numeral of its significand, and
/// the exponent of ten.
fn find_shortest(i: u64) -> (r: (String, i64))
    requires
        0 < i < INFINITE,
    ensures
        r.0@ == decimal(shortest(i as nat).0),
        r.1 == shortest(i as nat).1,
        -1074 <= r.1 <= 350,
{
    let mut q: i64 = first_exponent(i);
    let mut c = Natural::new(0);
    let mut digits = String::new();
    proof {
        lemma_too_coarse(q as int, i as nat);
    }
    loop
        invariant
            0 < i < INFINITE,
            -1074 <= q <= 350,
            is_floor(c@, q as int, i as nat),
            forall|d: nat| !#[trigger] reads_back(d, q as int, i as nat),
            digits@ == (if c@ == 0 {
                Seq::empty()
            } else {
                decimal(c@)
            }),
        decreases q + 1075,
    {
        let ghost before = c@;
        proof {
            lemma_exact(i as nat);
            assert(q > -1074);
        }
        q -= 1;
        let d: u64 = next_digit(&c, q, i);
        let mut above = c.copy();
        above.mul_add(10, d + 1);
        c.mul_add(10, d);
        let down: bool = test_reads_back(&c, q, i);
        let up: bool = test_reads_back(&above, q, i);
        if down || up {
            let rounded_up: bool = if !down {
                true
            } else if !up {
                false
            } else {
                let mut both = c.copy();
                both.mul_add(2, 1);
                let mut whole = twice_magnitude(i, q);
                let twice = twice_scaled(&both, q);
                whole.mul_add(2, 0);
                proof {
                    lemma_nearer(c@, q as int, i as nat);
                }
                twice.against(&whole) <= 0
            };
            let last: u64 = if rounded_up {
                d + 1
            } else {
                d
            };
            proof {
                lemma_choice(c@, q as int, i as nat, rounded_up);
                if rounded_up && d == 9 {
                    lemma_refine(before + 1, q + 1, i as nat);
                    assert(false);
                }
                if before == 0 && last == 0 {
                    lemma_floor_zero(q as int, i as nat);
                }
                let chosen = 10 * before + last as nat;
                assert(chosen % 10 == last && chosen / 10 == before);
                assert(digits@.push(digit_char(last as nat)) =~= decimal(chosen));
                assert((48u8 + last as u8) as char == digit_char(last as nat));
            }
            digits.push((48u8 + last as u8) as char);
            return (digits, q);
        }
        proof {
            assert forall|e: nat| !#[trigger] reads_back(e, q as int, i as nat) by {
                if reads_back(e, q as int, i as nat) {
                    lemma_neighbours(c@, e, q as int, i as nat);
                }
            }
        }
        if c.against(&Natural::new(0)) > 0 {
            digits.push((48u8 + d as u8) as char);
            proof {
                let chosen = 10 * before + d as nat;
                assert(chosen % 10 == d && chosen / 10 == before);
                assert((48u8 + d as u8) as char == digit_char(d as nat));
                assert(digits@ =~= decimal(chosen));
            }
        }
    }
}

/// Nothing reads as a positive magnitude.
proof fn lemma_floor_zero(q: int, i: nat)
    requires
        0 < i < INFINITE,
    ensures
        !reads_back(0, q, i),
{
    lemma_denominator_positive(q);
    let d = denominator(q);
    let n = numerator(0, q);
    assert(n == 0) by (nonlinear_arith)
        requires
            n == 0 * step(q),
    ;
    assert(2 * (n * one()) == 0) by (nonlinear_arith)
        requires
            n == 0,
    ;
    lemma_grid_step((i - 1) as nat);
    assert(midpoint(i) * d > 0) by (nonlinear_arith)
        requires
            midpoint(i) > 0,
            d > 0,
    ;
}

/// The better of the two multiples of `10^q` around the magnitude is the
/// shortest decimal, if one of them is read back and no coarser one is.
proof fn lemma_choice(c: nat, q: int, i: nat, rounded_up: bool)
    requires
        0 < i < INFINITE,
        is_floor(c, q, i),
        forall|d: nat| !#[trigger] reads_back(d, q + 1, i),
        reads_back(c, q, i) || reads_back(c + 1, q, i),
        rounded_up == (!reads_back(c, q, i) || (reads_back(c + 1, q, i) && gap(c + 1, q, i) <= gap(
            c,
            q,
            i,
        ))),
    ensures
        shortest(i) == (if rounded_up {
            (c + 1, q)
        } else {
            (c, q)
        }),
        reads_back(shortest(i).0, q, i),
{
    let best = if rounded_up {
        c + 1
    } else {
        c
    };
    assert forall|d: nat, r: int| r > q implies !#[trigger] reads_back(d, r, i) by {
        lemma_coarser(q + 1, r, d, i);
    }
    assert forall|d: nat| #[trigger] reads_back(d, q, i) implies gap(best, q, i) < gap(d, q, i) || (
    gap(best, q, i) == gap(d, q, i) && best >= d) by {
        lemma_gaps(c, d, q, i);
        lemma_neighbours(c, d, q, i);
    }
    lemma_shortest_unique(best, q, i);
}

// ----- texts --------------------------------------------------------------------

/// Appends `n` zeros.
fn push_zeros(out: &mut String, n: u64)
    ensures
        final(out)@ == old(out)@ + zeros(n as nat),
{
    let mut k: u64 = 0;
    assert(out@ =~= old(out)@ + zeros(0));
    while k < n
        invariant
            k <= n,
            out@ == old(out)@ + zeros(k as nat),
        decreases n - k,
    {
        out.push('0');
        k += 1;
        assert(out@ =~= old(out)@ + zeros(k as nat));
    }
}

/// Writes out `c * 10^q`, given the numeral of `c`.
fn spell(numeral: &String, q: i64, Ghost(c): Ghost<nat>) -> (out: String)
    requires
        numeral@ == decimal(c),
        -1074 <= q <= 350,
    ensures
        out@ == spelled(c, q as int),
{
    let d: Vec<char> = chars_of(numeral.as_str());
    let n: usize = d.len();
    if q >= 0 {
        let mut out = copy_of(numeral.as_str());
        push_zeros(&mut out, q as u64);
        out
    } else {
        let places: usize = (-q) as usize;
        if n > places {
            let mut out = string_of(&d, 0, n - places);
            out.push('.');
            let fraction = string_of(&d, n - places, n);
            out.append(fraction.as_str());
            proof {
                assert(d@.subrange(0, n - places) =~= decimal(c).take(decimal(c).len() + q));
                assert(d@.subrange(n - places, n as int) =~= decimal(c).skip(decimal(c).len() + q));
                assert(out@ =~= spelled(c, q as int));
            }
            out
        } else {
            let mut out = String::new();
            out.push('0');
            out.push('.');
            push_zeros(&mut out, (places - n) as u64);
            out.append(numeral.as_str());
            assert(out@ =~= spelled(c, q as int));
            out
        }
    }
}

/// The text of a number: its sign if negative, then the shortest decimal that
/// denotes it.
pub fn render_number(x: Binary64) -> (out: String)
    ensures
        out@ == number_text(x),
{
    let i: u64 = x.bits % SIGN;
    let mut out = String::new();
    if i > INFINITE {
        out.push('N');
        out.push('a');
        out.push('N');
        assert(out@ =~= number_text(x));
        return out;
    }
    if x.bits >= SIGN {
        out.push('-');
    }
    if i == INFINITE {
        out.push('i');
        out.push('n');
        out.push('f');
    } else if i == 0 {
        out.push('0');
    } else {
        let (numeral, q) = find_shortest(i);
        let text = spell(&numeral, q, Ghost(shortest(i as nat).0));
        out.append(text.as_str());
    }
    assert(out@ =~= number_text(x));
    out
}

/// The text of a number that shows a whole one as a signed 64-bit integer,
/// and any other by [`render_number`].
pub fn render_scalar(x: Binary64) -> (out: String)
    ensures
        out@ == scalar_text(x),
{
    match whole_magnitude(x.bits % SIGN) {
        Some(n) => {
            let mut out = String::new();
            if x.bits >= SIGN && n > 0 {
                out.push('-');
                push_decimal(&mut out, n);
            } else if n < TOO_GREAT {
                push_decimal(&mut out, n);
            } else {
                push_decimal(&mut out, TOO_GREAT - 1);
            }
            assert(out@ =~= scalar_text(x));
            out
        },
        None => render_number(x),
    }
}

// ----- reading back -------------------------------------------------------------

/// There is a multiple of `10^q` just below every magnitude.
proof fn lemma_floor_exists(q: int, i: nat) -> (c: nat)
    ensures
        is_floor(c, q, i),
{
    let u = step(q) * one();
    let g = grid(i) * denominator(q);
    assert(u > 0) by {
        lemma_power_positive(10, if q > 0 {
            q as nat
        } else {
            0
        });
        lemma_power_positive(2, 1074);
        assert(step(q) * one() > 0) by (nonlinear_arith)
            requires
                step(q) > 0,
                one() > 0,
        ;
    }
    let c = g / u;
    vstd::arithmetic::div_mod::lemma_fundamental_div_mod(g as int, u as int);
    let (t, o) = (step(q), one());
    assert((c * t) * o == u * c) by (nonlinear_arith)
        requires
            u == t * o,
    ;
    assert(((c + 1) * t) * o == u * c + u) by (nonlinear_arith)
        requires
            u == t * o,
    ;
    c
}

proof fn lemma_search_ends(q: int, i: nat)
    requires
        0 < i < INFINITE,
        -1074 <= q,
        forall|c: nat| !#[trigger] reads_back(c, q, i),
    ensures
        reads_back(shortest(i).0, shortest(i).1, i),
    decreases q + 1075,
{
    lemma_exact(i);
    assert(q > -1074);
    let r = q - 1;
    if exists|d: nat| #[trigger] reads_back(d, r, i) {
        let d = choose|d: nat| #[trigger] reads_back(d, r, i);
        let c = lemma_floor_exists(r, i);
        lemma_neighbours(c, d, r, i);
        let up = !reads_back(c, r, i) || (reads_back(c + 1, r, i) && gap(c + 1, r, i) <= gap(
            c,
            r,
            i,
        ));
        lemma_choice(c, r, i, up);
    } else {
        lemma_search_ends(r, i);
    }
}

/// The shortest decimal of a magnitude is read as that magnitude.
proof fn lemma_shortest_reads_back(i: nat)
    requires
        0 < i < INFINITE,
    ensures
        reads_back(shortest(i).0, shortest(i).1, i),
{
    lemma_infinite(1, 350);
    lemma_denominator_positive(350);
    lemma_reaches_antitone(numerator(1, 350), denominator(350), i + 1, INFINITE as nat);
    lemma_too_coarse(350, i);
    lemma_search_ends(350, i);
}

/// All characters are digits.
pub(crate) open spec fn figures(s: Seq<char>) -> bool {
    forall|k: int| 0 <= k < s.len() ==> digit(#[trigger] s[k])
}

proof fn lemma_digit_char(d: nat)
    requires
        d < 10,
    ensures
        digit(digit_char(d)),
        digit_value(digit_char(d)) == d,
{
}

/// The decimal numeral of a number has its value.
pub(crate) proof fn lemma_decimal(n: nat)
    ensures
        decimal(n).len() > 0,
        figures(decimal(n)),
        numeral_value(decimal(n)) == n,
    decreases n,
{
    let s = decimal(n);
    lemma_digit_char(n % 10);
    if n < 10 {
        assert(s.drop_last() =~= Seq::<char>::empty());
        assert(s.last() == digit_char(n));
        assert(numeral_value(s.drop_last()) == 0);
    } else {
        lemma_decimal(n / 10);
        assert(s.drop_last() =~= decimal(n / 10));
        assert forall|k: int| 0 <= k < s.len() implies digit(#[trigger] s[k]) by {
            if k < s.len() - 1 {
                assert(s[k] == decimal(n / 10)[k]);
            }
        }
    }
}

proof fn lemma_leading_zeros(n: nat, s: Seq<char>)
    ensures
        numeral_value(zeros(n) + s) == numeral_value(s),
    decreases s.len(), n,
{
    let t = zeros(n) + s;
    if s.len() > 0 {
        lemma_leading_zeros(n, s.drop_last());
        assert(t.drop_last() =~= zeros(n) + s.drop_last());
    } else if n > 0 {
        lemma_leading_zeros((n - 1) as nat, s);
        assert(t.drop_last() =~= zeros((n - 1) as nat) + s);
        assert(digit_value('0') == 0);
    } else {
        assert(t =~= s);
    }
}

proof fn lemma_trailing_zeros(s: Seq<char>, n: nat)
    ensures
        numeral_value(s + zeros(n)) == numeral_value(s) * power(10, n),
    decreases n,
{
    let t = s + zeros(n);
    if n > 0 {
        lemma_trailing_zeros(s, (n - 1) as nat);
        assert(t.drop_last() =~= s + zeros((n - 1) as nat));
        assert(digit_value('0') == 0);
        let (v, p) = (numeral_value(s), power(10, (n - 1) as nat));
        assert((v * p) * 10 == v * (10 * p)) by (nonlinear_arith);
    } else {
        assert(t =~= s);
        assert(numeral_value(s) * power(10, 0) == numeral_value(s)) by (nonlinear_arith)
            requires
                power(10, 0) == 1,
        ;
    }
}

/// Digits alone are a literal.
pub(crate) proof fn lemma_plain_literal(negative: bool, s: Seq<char>)
    requires
        s.len() > 0,
        figures(s),
    ensures
        unsigned_literal(negative, s) == Some(
            Literal { negative, significand: numeral_value(s), exponent: 0 },
        ),
{
    lemma_run_is(s, |c: char| digit(c), s.len());
    assert(s.take(s.len() as int) =~= s);
    assert(s + Seq::<char>::empty() =~= s);
}

/// Digits with a point among them are a literal.
proof fn lemma_pointed_literal(negative: bool, a: Seq<char>, b: Seq<char>)
    requires
        a.len() > 0,
        figures(a),
        figures(b),
    ensures
        unsigned_literal(negative, a + seq!['.'] + b) == Some(
            Literal { negative, significand: numeral_value(a + b), exponent: -(b.len() as int) },
        ),
{
    let s = a + seq!['.'] + b;
    let p = |c: char| digit(c);
    assert forall|k: int| 0 <= k < a.len() implies p(#[trigger] s[k]) by {
        assert(s[k] == a[k]);
    }
    assert(s[a.len() as int] == '.');
    lemma_run_is(s, p, a.len());
    assert(s.take(a.len() as int) =~= a);
    assert(s.skip(a.len() as int).skip(1) =~= b);
    lemma_run_is(b, p, b.len());
    assert(b.take(b.len() as int) =~= b);
}

/// A whole decimal that is written out is a literal of the same value.
proof fn lemma_spelled_whole(negative: bool, c: nat, q: int)
    requires
        q >= 0,
    ensures
        spelled(c, q).len() > 0,
        digit(spelled(c, q)[0]),
        unsigned_literal(negative, spelled(c, q)) == Some(
            Literal { negative, significand: c * power(10, q as nat), exponent: 0 },
        ),
{
    let d = decimal(c);
    let s = spelled(c, q);
    lemma_decimal(c);
    lemma_trailing_zeros(d, q as nat);
    assert forall|k: int| 0 <= k < s.len() implies digit(#[trigger] s[k]) by {
        if k < d.len() {
            assert(s[k] == d[k]);
        }
    }
    lemma_plain_literal(negative, s);
}

/// A decimal with its point among its digits is a literal of the same value.
proof fn lemma_spelled_mixed(negative: bool, c: nat, q: int)
    requires
        q < 0,
        decimal(c).len() > -q,
    ensures
        spelled(c, q).len() > 0,
        digit(spelled(c, q)[0]),
        unsigned_literal(negative, spelled(c, q)) == Some(
            Literal { negative, significand: c, exponent: q },
        ),
{
    let d = decimal(c);
    let (a, b) = (d.take(d.len() + q), d.skip(d.len() + q));
    lemma_decimal(c);
    assert(a + b =~= d);
    assert forall|k: int| 0 <= k < a.len() implies digit(#[trigger] a[k]) by {
        assert(a[k] == d[k]);
    }
    assert forall|k: int| 0 <= k < b.len() implies digit(#[trigger] b[k]) by {
        assert(b[k] == d[k + d.len() + q]);
    }
    lemma_pointed_literal(negative, a, b);
    assert(spelled(c, q)[0] == a[0]);
}

/// A decimal with zeros behind its point is a literal of the same value.
proof fn lemma_spelled_small(negative: bool, c: nat, q: int)
    requires
        q < 0,
        decimal(c).len() <= -q,
    ensures
        spelled(c, q).len() > 0,
        digit(spelled(c, q)[0]),
        unsigned_literal(negative, spelled(c, q)) == Some(
            Literal { negative, significand: c, exponent: q },
        ),
{
    let d = decimal(c);
    let z = zeros((-q - d.len()) as nat);
    let (a, b) = (seq!['0'], z + d);
    lemma_decimal(c);
    assert forall|k: int| 0 <= k < b.len() implies digit(#[trigger] b[k]) by {
        if k >= z.len() {
            assert(b[k] == d[k - z.len()]);
        }
    }
    lemma_pointed_literal(negative, a, b);
    assert(spelled(c, q) =~= a + seq!['.'] + b);
    lemma_leading_zeros(z.len(), d);
    lemma_leading_zeros(1, b);
    assert(zeros(1) + b =~= a + b);
}

/// A decimal that is written out is a literal of the same value.
proof fn lemma_spelled(negative: bool, c: nat, q: int)
    ensures
        spelled(c, q).len() > 0,
        digit(spelled(c, q)[0]),
        unsigned_literal(negative, spelled(c, q)) == Some(
            if q >= 0 {
                Literal { negative, significand: c * power(10, q as nat), exponent: 0 }
            } else {
                Literal { negative, significand: c, exponent: q }
            },
        ),
{
    if q >= 0 {
        lemma_spelled_whole(negative, c, q);
    } else if decimal(c).len() > -q {
        lemma_spelled_mixed(negative, c, q);
    } else {
        lemma_spelled_small(negative, c, q);
    }
}

/// The text of a finite number is read as that number, to the bit.
pub proof fn law_numbers_are_read_back(x: Binary64)
    requires
        x.magnitude() < INFINITE,
    ensures
        number_of(number_text(x)) == Some(x),
{
    let i = x.magnitude();
    let negative = x.negative();
    let body = magnitude_text(i);
    let text = number_text(x);
    reveal(number_of);
    assert(power(10, 0) == 1);
    if i == 0 {
        lemma_plain_literal(negative, body);
        assert(numeral_value(body.drop_last()) == 0);
        assert(numeral_value(body) == 0);
        let num = numerator(0, 0);
        lemma_zero_reads();
        lemma_nearest_unique(num, 1, 0);
    } else {
        let (c, q) = shortest(i);
        lemma_shortest_reads_back(i);
        lemma_spelled(negative, c, q);
        lemma_denominator_positive(q);
        lemma_nearest_unique(numerator(c, q), denominator(q), i);
        if q >= 0 {
            let n = c * power(10, q as nat);
            assert(n * power(10, 0) == n) by (nonlinear_arith)
                requires
                    power(10, 0) == 1,
            ;
            assert(numerator(n, 0) == numerator(c, q));
        }
    }
    assert(digit(body[0]));
    if negative {
        assert(text[0] == '-');
        assert(text.skip(1) =~= body);
    } else {
        assert(text[0] == body[0]);
    }
}

/// Nothing is read as nothing.
proof fn lemma_zero_reads()
    ensures
        numerator(0, 0) == 0,
        denominator(0) == 1,
        rounds_to(0, 1, 0),
{
    assert(power(10, 0) == 1);
    assert(0 * power(10, 0) == 0) by (nonlinear_arith);
    lemma_grid_step(0);
    assert(midpoint(1) * 1 > 0) by (nonlinear_arith)
        requires
            midpoint(1) > 0,
    ;
    assert(2 * (0 * one()) == 0) by (nonlinear_arith);
}

/// A whole magnitude is read from its decimal numeral, with its sign.
proof fn lemma_whole_reads_back(n: nat, i: nat, negative: bool)
    requires
        i < INFINITE,
        grid(i) == n * one(),
    ensures
        ({
            let s = if negative {
                seq!['-'] + decimal(n)
            } else {
                decimal(n)
            };
            number_of(s) matches Some(x) && x.magnitude() == i && x.negative() == negative
        }),
{
    reveal(number_of);
    let d = decimal(n);
    let s = if negative {
        seq!['-'] + d
    } else {
        d
    };
    lemma_decimal(n);
    lemma_plain_literal(negative, d);
    assert(digit(d[0]));
    if negative {
        assert(s[0] == '-');
        assert(s.skip(1) =~= d);
    }
    let num = numerator(n, 0);
    assert(power(10, 0) == 1);
    assert(n * power(10, 0) == n) by (nonlinear_arith)
        requires
            power(10, 0) == 1,
    ;
    assert(grid(i) * 1 == grid(i)) by (nonlinear_arith);
    lemma_rounds_to_itself(i, 1, num);
    lemma_nearest_unique(num, 1, i);
}

/// A number that is not whole is shown by the shortest decimal that reads back. A
/// whole one within 64 bits is shown without a fraction, and reads back as the same
/// value; beyond them the nearest integer of 64 bits is shown.
pub proof fn law_scalars_are_shown(x: Binary64)
    requires
        x.magnitude() < INFINITE,
    ensures
        integer_of(x.magnitude()) is None ==> number_of(scalar_text(x)) == Some(x),
        integer_of(x.magnitude()) matches Some(n) ==> {
            &&& n < 0x8000_0000_0000_0000 ==> {
                &&& number_of(scalar_text(x)) matches Some(y) && y.magnitude() == x.magnitude()
                    && (n > 0 ==> y.negative() == x.negative())
                &&& !scalar_text(x).contains('.')
            }
            &&& n >= 0x8000_0000_0000_0000 && !x.negative() ==> numeral_value(scalar_text(x))
                == 0x7fff_ffff_ffff_ffff && digit(scalar_text(x)[0])
            &&& n >= 0x8000_0000_0000_0000 && x.negative() ==> scalar_text(x)[0] == '-'
                && numeral_value(scalar_text(x).skip(1)) == 0x8000_0000_0000_0000
        },
{
    let i = x.magnitude();
    match integer_of(i) {
        None => law_numbers_are_read_back(x),
        Some(n) => {
            let g = grid(i);
            lemma_power_positive(2, 1074);
            vstd::arithmetic::div_mod::lemma_fundamental_div_mod(g as int, one() as int);
            assert(one() * n == n * one()) by (nonlinear_arith);
            lemma_whole_reads_back(n, i, false);
            lemma_whole_reads_back(n, i, true);
            lemma_decimal(n);
            lemma_decimal(0x7fff_ffff_ffff_ffff);
            lemma_decimal(0x8000_0000_0000_0000);
            let s = scalar_text(x);
            let great = decimal(0x8000_0000_0000_0000);
            assert((seq!['-'] + great).skip(1) =~= great);
            if n < 0x8000_0000_0000_0000 {
                assert forall|k: int| 0 <= k < s.len() implies #[trigger] s[k] != '.' by {
                    if x.negative() && n > 0 {
                        if k > 0 {
                            assert(s[k] == decimal(n)[k - 1]);
                            assert(digit(decimal(n)[k - 1]));
                        }
                    } else {
                        assert(digit(decimal(n)[k]));
                    }
                }
            }
        },
    }
}

/// Every number has a nearest magnitude.
proof fn lemma_nearest_exists(num: nat, den: nat, k: nat) -> (i: nat)
    requires
        k <= INFINITE,
        k < INFINITE ==> !reaches(num, den, k + 1),
    ensures
        rounds_to(num, den, i),
    decreases k,
{
    if k == 0 || reaches(num, den, k) {
        k
    } else {
        lemma_nearest_exists(num, den, (k - 1) as nat)
    }
}

/// A sign before a literal is that of the number, and changes nothing else of it.
pub proof fn law_signs_are_read(s: Seq<char>)
    requires
        s.len() > 0,
        s[0] != '+' && s[0] != '-',
    ensures
        number_of(seq!['+'] + s) == number_of(s),
        number_of(seq!['-'] + s) is Some <==> number_of(s) is Some,
        number_of(s) matches Some(x) ==> !x.negative() && {
            let y = number_of(seq!['-'] + s)->Some_0;
            y.negative() && y.magnitude() == x.magnitude()
        },
{
    reveal(number_of);
    let (a, b) = (seq!['+'] + s, seq!['-'] + s);
    assert(a[0] == '+' && a.skip(1) =~= s);
    assert(b[0] == '-' && b.skip(1) =~= s);
    if let Some(l) = unsigned_literal(false, s) {
        let (num, den) = (numerator(l.significand, l.exponent), denominator(l.exponent));
        lemma_denominator_positive(l.exponent);
        let i = lemma_nearest_exists(num, den, INFINITE as nat);
        lemma_nearest_unique(num, den, i);
    }
}

/// Digits with an exponent behind them are a literal.
proof fn lemma_scaled_literal(negative: bool, a: Seq<char>, e: Seq<char>, minus: bool)
    requires
        a.len() > 0,
        figures(a),
        e.len() > 0,
        figures(e),
    ensures
        ({
            let sign = if minus {
                seq!['-']
            } else {
                Seq::empty()
            };
            let v = numeral_value(e) as int;
            unsigned_literal(negative, a + seq!['e'] + (sign + e)) == Some(
                Literal {
                    negative,
                    significand: numeral_value(a),
                    exponent: if minus {
                        -v
                    } else {
                        v
                    },
                },
            )
        }),
{
    let p = |c: char| digit(c);
    let sign = if minus {
        seq!['-']
    } else {
        Seq::<char>::empty()
    };
    let s = a + seq!['e'] + (sign + e);
    assert forall|k: int| 0 <= k < a.len() implies p(#[trigger] s[k]) by {
        assert(s[k] == a[k]);
    }
    assert(s[a.len() as int] == 'e');
    lemma_run_is(s, p, a.len());
    assert(s.take(a.len() as int) =~= a);
    assert(a + Seq::<char>::empty() =~= a);
    let tail = s.skip(a.len() as int);
    assert(tail[0] == 'e');
    assert(tail.skip(1) =~= sign + e);
    lemma_run_is(e, p, e.len());
    if minus {
        assert((sign + e)[0] == '-');
        assert((sign + e).skip(1) =~= e);
    } else {
        assert(sign + e =~= e);
        assert(digit(e[0]));
    }
}

/// An exponent appends as many zeros: `1e3` is read as `1000` is.
pub proof fn law_exponents_append_zeros(a: Seq<char>, e: Seq<char>)
    requires
        a.len() > 0,
        forall|i: int| 0 <= i < a.len() ==> digit(#[trigger] a[i]),
        e.len() > 0,
        forall|i: int| 0 <= i < e.len() ==> digit(#[trigger] e[i]),
    ensures
        number_of(a + seq!['e'] + e) == number_of(a + zeros(numeral_value(e))),
        number_of(a + seq!['e'] + e) is Some,
{
    reveal(number_of);
    let n = numeral_value(e);
    let s = a + seq!['e'] + e;
    let t = a + zeros(n);
    lemma_scaled_literal(false, a, e, false);
    assert(s =~= a + seq!['e'] + (Seq::<char>::empty() + e));
    assert forall|k: int| 0 <= k < t.len() implies digit(#[trigger] t[k]) by {
        if k < a.len() {
            assert(t[k] == a[k]);
        }
    }
    lemma_plain_literal(false, t);
    lemma_trailing_zeros(a, n);
    let c = numeral_value(a);
    assert(power(10, 0) == 1);
    assert((c * power(10, n)) * power(10, 0) == c * power(10, n)) by (nonlinear_arith)
        requires
            power(10, 0) == 1,
    ;
    assert(s[0] == a[0] && t[0] == a[0] && digit(a[0]));
}

/// A point shifts the digits behind it: `1.25` is read as `125e-2` is.
pub proof fn law_points_shift_digits(a: Seq<char>, b: Seq<char>)
    requires
        a.len() > 0,
        forall|i: int| 0 <= i < a.len() ==> digit(#[trigger] a[i]),
        forall|i: int| 0 <= i < b.len() ==> digit(#[trigger] b[i]),
    ensures
        number_of(a + seq!['.'] + b) == number_of(
            a + b + seq!['e'] + (seq!['-'] + decimal(b.len())),
        ),
        number_of(a + seq!['.'] + b) is Some,
{
    reveal(number_of);
    let (s, d) = (a + seq!['.'] + b, a + b);
    let t = d + seq!['e'] + (seq!['-'] + decimal(b.len()));
    lemma_pointed_literal(false, a, b);
    lemma_decimal(b.len());
    assert forall|k: int| 0 <= k < d.len() implies digit(#[trigger] d[k]) by {
        if k < a.len() {
            assert(d[k] == a[k]);
        } else {
            assert(d[k] == b[k - a.len()]);
        }
    }
    lemma_scaled_literal(false, d, decimal(b.len()), true);
    assert(s[0] == a[0] && t[0] == a[0] && digit(a[0]));
}

/// A whole numeral is read as the number it says, where the format holds it.
pub proof fn law_whole_numerals_are_read(n: nat, i: nat)
    requires
        i < INFINITE,
        grid(i) == n * one(),
    ensures
        number_of(decimal(n)) matches Some(x) && x.magnitude() == i && !x.negative(),
{
    lemma_whole_reads_back(n, i, false);
}

} // verus!
