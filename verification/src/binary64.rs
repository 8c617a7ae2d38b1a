//! Double-precision numbers in the format binary64 of IEEE 754, held by their
//! bits.
//!
//! The magnitudes of this format are ordered as the integers that encode them.
//! All of them are multiples of 2^-1074, the least one, so [`grid`] gives each
//! magnitude exactly, as an integer in that unit.

use vstd::prelude::*;
use crate::natural::{
    lemma_power_adds, lemma_power_monotone, lemma_power_positive, lemma_powers_of_two, power,
    Natural,
};

verus! {

/// Two to the power 52: the number of magnitudes that share an exponent.
pub const BINADE: u64 = 4503599627370496;

/// The encoding of infinity; greater ones encode no number.
pub const INFINITE: u64 = 9218868437227405312;

/// The encoding of the sign.
pub const SIGN: u64 = 9223372036854775808;

/// A double-precision number, by its bits.
#[derive(Clone, Copy, Debug)]
pub struct Binary64 {
    /// Sign, exponent and fraction, from the highest bit down.
    pub bits: u64,
}

impl Binary64 {
    /// Whether the sign is negative.
    pub open spec fn negative(self) -> bool {
        self.bits >= SIGN
    }

    /// The encoding of the magnitude: the bits without the sign.
    pub open spec fn magnitude(self) -> nat {
        (self.bits % SIGN) as nat
    }
}

// ----- magnitudes -------------------------------------------------------------

/// The magnitude of encoding `i`, in units of 2^-1074. At [`INFINITE`], the
/// power of two that the format just fails to hold.
pub open spec fn grid(i: nat) -> nat {
    let e = i / BINADE as nat;
    let f = i % BINADE as nat;
    if e == 0 {
        f
    } else {
        (BINADE + f) as nat * power(2, (e - 1) as nat)
    }
}

/// Two to the power 1074: the unit 1 on the grid.
pub open spec fn one() -> nat {
    power(2, 1074)
}

/// Twice the value halfway between encodings `i - 1` and `i`, on the grid.
pub open spec fn midpoint(i: nat) -> nat {
    grid((i - 1) as nat) + grid(i)
}

/// Whether `num / den` is rounded to encoding `i` or beyond: it lies above the
/// midpoint below `i`, or on it with `i` even.
pub open spec fn reaches(num: nat, den: nat, i: nat) -> bool {
    let twice = 2 * (num * one());
    let limit = midpoint(i) * den;
    limit < twice || (limit == twice && i % 2 == 0)
}

/// `i` encodes the magnitude nearest to `num / den`; of two equally near ones
/// the even one.
pub open spec fn rounds_to(num: nat, den: nat, i: nat) -> bool {
    &&& i <= INFINITE
    &&& i > 0 ==> reaches(num, den, i)
    &&& i < INFINITE ==> !reaches(num, den, i + 1)
}

/// The encoding of the magnitude nearest to `num / den`.
pub open spec fn nearest(num: nat, den: nat) -> nat {
    choose|i: nat| rounds_to(num, den, i)
}

pub proof fn lemma_grid_step(i: nat)
    ensures
        grid(i) < grid(i + 1),
{
    let b = BINADE as nat;
    let e = i / b;
    let f = i % b;
    if f + 1 < b {
        assert((i + 1) / b == e && (i + 1) % b == f + 1) by {
            vstd::arithmetic::div_mod::lemma_fundamental_div_mod_converse(
                i as int + 1,
                b as int,
                e as int,
                f as int + 1,
            );
        }
        if e > 0 {
            let p = power(2, (e - 1) as nat);
            lemma_power_positive(2, (e - 1) as nat);
            assert((b + f) * p + p == (b + f + 1) * p) by (nonlinear_arith);
        }
    } else {
        assert((i + 1) / b == e + 1 && (i + 1) % b == 0) by {
            vstd::arithmetic::div_mod::lemma_fundamental_div_mod_converse(
                i as int + 1,
                b as int,
                e as int + 1,
                0,
            );
        }
        if e == 0 {
            assert(b * power(2, 0) == b) by (nonlinear_arith)
                requires
                    power(2, 0) == 1,
            ;
        } else {
            let p = power(2, (e - 1) as nat);
            lemma_power_positive(2, (e - 1) as nat);
            assert(power(2, e) == 2 * p);
            assert((b + f) * p < b * (2 * p)) by (nonlinear_arith)
                requires
                    b + f < 2 * b,
                    p > 0,
            ;
        }
    }
}

pub proof fn lemma_grid_monotone(i: nat, j: nat)
    requires
        i <= j,
    ensures
        grid(i) <= grid(j),
        i < j ==> grid(i) < grid(j),
    decreases j,
{
    if i < j {
        lemma_grid_monotone(i, (j - 1) as nat);
        lemma_grid_step((j - 1) as nat);
    }
}

/// What is rounded to `i` or beyond is rounded to any lower encoding or beyond.
pub proof fn lemma_reaches_antitone(num: nat, den: nat, j: nat, i: nat)
    requires
        den > 0,
        0 < j <= i,
        reaches(num, den, i),
    ensures
        reaches(num, den, j),
{
    if j < i {
        lemma_grid_monotone(j, i);
        lemma_grid_monotone((j - 1) as nat, (i - 1) as nat);
        let (a, b) = (midpoint(j), midpoint(i));
        assert(a * den < b * den) by (nonlinear_arith)
            requires
                a < b,
                den > 0,
        ;
    }
}

/// Greater numbers are rounded at least as far.
pub proof fn lemma_reaches_monotone(num: nat, more: nat, den: nat, i: nat)
    requires
        num <= more,
        reaches(num, den, i),
    ensures
        reaches(more, den, i),
{
    assert(num * one() <= more * one()) by (nonlinear_arith)
        requires
            num <= more,
    ;
    if num < more {
        lemma_power_positive(2, 1074);
        assert(num * one() < more * one()) by (nonlinear_arith)
            requires
                num < more,
                one() > 0,
        ;
    }
}

/// A common factor does not matter.
pub proof fn lemma_reaches_scaled(num: nat, den: nat, k: nat, i: nat)
    requires
        k > 0,
    ensures
        reaches(k * num, k * den, i) == reaches(num, den, i),
{
    let (a, b, m) = (2 * (num * one()), midpoint(i) * den, midpoint(i));
    assert(2 * ((k * num) * one()) == k * (2 * (num * one()))) by (nonlinear_arith);
    assert(m * (k * den) == k * (m * den)) by (nonlinear_arith);
    assert((b < a) == (k * b < k * a)) by (nonlinear_arith)
        requires
            k > 0,
    ;
    assert((b == a) == (k * b == k * a)) by (nonlinear_arith)
        requires
            k > 0,
    ;
}

/// There is one nearest magnitude.
pub proof fn lemma_nearest_unique(num: nat, den: nat, i: nat)
    requires
        den > 0,
        rounds_to(num, den, i),
    ensures
        nearest(num, den) == i,
{
    let j = nearest(num, den);
    assert(rounds_to(num, den, j));
    if j < i {
        lemma_reaches_antitone(num, den, j + 1, i);
    } else if i < j {
        lemma_reaches_antitone(num, den, i + 1, j);
    }
}

/// A magnitude is nearest to itself.
pub proof fn lemma_rounds_to_itself(i: nat, den: nat, num: nat)
    requires
        i <= INFINITE,
        den > 0,
        num * one() == grid(i) * den,
    ensures
        rounds_to(num, den, i),
{
    let g = grid(i);
    assert(2 * (g * den) == (2 * g) * den) by (nonlinear_arith);
    if i > 0 {
        lemma_grid_step((i - 1) as nat);
        let m = midpoint(i);
        assert(m * den < (2 * g) * den) by (nonlinear_arith)
            requires
                m < 2 * g,
                den > 0,
        ;
    }
    lemma_grid_step(i);
    let m = midpoint(i + 1);
    assert((2 * g) * den < m * den) by (nonlinear_arith)
        requires
            2 * g < m,
            den > 0,
    ;
}

/// Two to the power `k`.
fn two_to(k: u64) -> (r: u64)
    requires
        k <= 62,
    ensures
        r == power(2, k as nat),
        r > 0,
{
    let mut r: u64 = 1;
    let mut j: u64 = 0;
    while j < k
        invariant
            j <= k <= 62,
            r == power(2, j as nat),
            r > 0,
        decreases k - j,
    {
        proof {
            lemma_power_monotone(2, (j + 1) as nat, 62);
            lemma_powers_of_two();
        }
        r = r * 2;
        j += 1;
    }
    r
}

/// The magnitude of encoding `i` as a multiple of a power of two on the grid.
pub fn decode(i: u64) -> (r: (u64, u64))
    requires
        i <= INFINITE,
    ensures
        grid(i as nat) == r.0 * power(2, r.1 as nat),
        r.0 < 2 * BINADE,
        i >= BINADE ==> r.0 >= BINADE,
        r.1 == (if i / BINADE == 0 { 0 } else { i / BINADE - 1 }),
        r.1 <= 2046,
{
    let e: u64 = i / BINADE;
    let f: u64 = i % BINADE;
    if e == 0 {
        assert(f * power(2, 0) == f) by (nonlinear_arith)
            requires
                power(2, 0) == 1,
        ;
        (f, 0)
    } else {
        (BINADE + f, e - 1)
    }
}

/// Whether `num / den` is rounded to encoding `i` or beyond, from
/// `2 * num * 2^1074` and `den`.
pub(crate) fn test_reaches(
    twice: &Natural,
    den: &Natural,
    i: u64,
    Ghost(num): Ghost<nat>,
) -> (r: bool)
    requires
        0 < i <= INFINITE,
        twice@ == 2 * (num * one()),
    ensures
        r == reaches(num, den@, i as nat),
{
    let (m0, s0) = decode(i - 1);
    let (m1, s1) = decode(i);
    proof {
        vstd::arithmetic::div_mod::lemma_div_is_ordered(i - 1, i as int, BINADE as int);
        vstd::arithmetic::div_mod::lemma_div_is_ordered(i as int, i - 1 + BINADE, BINADE as int);
        vstd::arithmetic::div_mod::lemma_div_plus_one(i - 1, BINADE as int);
    }
    let lifted: u64 = if s1 == s0 {
        m1
    } else {
        2 * m1
    };
    proof {
        let p = power(2, s0 as nat);
        if s1 != s0 {
            assert(s1 == s0 + 1);
            assert(power(2, s1 as nat) == 2 * p);
            assert(m1 * (2 * p) == (2 * m1) * p) by (nonlinear_arith);
        }
        assert(m0 * p + lifted * p == (m0 + lifted) * p) by (nonlinear_arith);
        let (d, m) = (den@, (m0 + lifted) as nat);
        assert((d * m) * p == (m * p) * d) by (nonlinear_arith);
    }
    let mut limit = den.copy();
    limit.mul_add(m0 + lifted, 0);
    limit.mul_power_of_two(s0);
    assert(limit@ == midpoint(i as nat) * den@);
    let side: i8 = limit.against(twice);
    side < 0 || (side == 0 && i % 2 == 0)
}

/// The encoding of the magnitude nearest to `num / den`.
pub fn find_nearest(num: &Natural, den: &Natural) -> (i: u64)
    requires
        den@ > 0,
    ensures
        rounds_to(num@, den@, i as nat),
{
    let mut twice = num.copy();
    twice.mul_power_of_two(1074);
    twice.mul_add(2, 0);
    let mut low: u64 = 0;
    let mut high: u64 = INFINITE + 1;
    while high - low > 1
        invariant
            den@ > 0,
            twice@ == 2 * (num@ * one()),
            low < high <= INFINITE + 1,
            low > 0 ==> reaches(num@, den@, low as nat),
            high <= INFINITE ==> !reaches(num@, den@, high as nat),
        decreases high - low,
    {
        let middle: u64 = low + (high - low) / 2;
        if test_reaches(&twice, den, middle, Ghost(num@)) {
            low = middle;
        } else {
            high = middle;
        }
    }
    low
}

// ----- whole numbers ----------------------------------------------------------

/// The magnitude of encoding `i`, if it is a whole number.
pub open spec fn integer_of(i: nat) -> Option<nat> {
    if i < INFINITE && grid(i) % one() == 0 {
        Some(grid(i) / one())
    } else {
        None
    }
}

/// The least number that no signed 64-bit integer holds: two to the power 63.
pub const TOO_GREAT: u64 = 9223372036854775808;

/// `m * 2^d * 2^s` is a multiple of `2^(d + s)` exactly if `2^d` is dropped.
proof fn lemma_shifted(m: nat, d: nat, s: nat)
    ensures
        (m * power(2, s)) % power(2, d + s) == 0 <==> m % power(2, d) == 0,
        m % power(2, d) == 0 ==> (m * power(2, s)) / power(2, d + s) == m / power(2, d),
{
    let (p, q) = (power(2, d), power(2, s));
    lemma_power_adds(2, d, s);
    lemma_power_positive(2, d);
    lemma_power_positive(2, s);
    vstd::arithmetic::mul::lemma_mul_is_commutative(m as int, q as int);
    vstd::arithmetic::mul::lemma_mul_is_commutative(p as int, q as int);
    vstd::arithmetic::div_mod::lemma_truncate_middle(m as int, q as int, p as int);
    assert((q * m) % (q * p) == q * (m % p));
    let r = m % p;
    assert(q * r == 0 <==> r == 0) by (nonlinear_arith)
        requires
            q > 0,
    ;
    if r == 0 {
        let k = m / p;
        vstd::arithmetic::div_mod::lemma_fundamental_div_mod(m as int, p as int);
        assert(q * m == (q * p) * k) by (nonlinear_arith)
            requires
                m == p * k,
        ;
        assert((q * p) > 0) by (nonlinear_arith)
            requires
                q > 0,
                p > 0,
        ;
        vstd::arithmetic::div_mod::lemma_div_multiples_vanish(k as int, (q * p) as int);
    }
}

/// The magnitude of encoding `i` if it is a whole number, at most
/// [`TOO_GREAT`].
pub fn whole_magnitude(i: u64) -> (r: Option<u64>)
    requires
        i < SIGN,
    ensures
        r == (match integer_of(i as nat) {
            Some(n) => Some(
                if n < TOO_GREAT {
                    n as u64
                } else {
                    TOO_GREAT
                },
            ),
            None => None,
        }),
{
    if i == 0 {
        proof {
            lemma_power_positive(2, 1074);
            assert(grid(0) == 0);
            assert(0nat % one() == 0 && 0nat / one() == 0) by (nonlinear_arith)
                requires
                    one() > 0,
            ;
        }
        return Some(0);
    }
    if i >= INFINITE {
        return None;
    }
    let e: u64 = i / BINADE;
    let (m, s) = decode(i);
    let ghost g = grid(i as nat);
    if e < 1023 {
        proof {
            lemma_grid_monotone(0, i as nat);
            lemma_power_monotone(2, s as nat, 1021);
            lemma_powers_of_two();
            lemma_power_adds(2, 53, 1021);
            assert(power(2, 53) == 2 * BINADE);
            let (a, b) = (power(2, s as nat), power(2, 1021));
            lemma_power_positive(2, s as nat);
            assert(m * a < power(2, 53) * b) by (nonlinear_arith)
                requires
                    m < power(2, 53),
                    a <= b,
                    a > 0,
            ;
            vstd::arithmetic::div_mod::lemma_small_mod(g, one());
        }
        return None;
    }
    if e <= 1075 {
        let d: u64 = 1075 - e;
        let p: u64 = two_to(d);
        proof {
            lemma_shifted(m as nat, d as nat, s as nat);
            assert(d + s == 1074);
        }
        if m % p == 0 {
            Some(m / p)
        } else {
            None
        }
    } else {
        let d: u64 = e - 1075;
        proof {
            lemma_power_adds(2, d as nat, 1074);
            lemma_power_positive(2, 1074);
            let p = power(2, d as nat);
            assert(m * (p * one()) == (m * p) * one()) by (nonlinear_arith);
            vstd::arithmetic::div_mod::lemma_mod_multiples_basic((m * p) as int, one() as int);
            vstd::arithmetic::div_mod::lemma_div_multiples_vanish((m * p) as int, one() as int);
            vstd::arithmetic::mul::lemma_mul_is_commutative((m * p) as int, one() as int);
        }
        if d <= 10 {
            let p: u64 = two_to(d);
            proof {
                lemma_power_monotone(2, d as nat, 10);
                assert(power(2, 10) == 1024) by {
                    reveal_with_fuel(power, 11);
                }
                assert(m * p < 9223372036854775808 * 1) by (nonlinear_arith)
                    requires
                        m < 9007199254740992,
                        p <= 1024,
                        p > 0,
                ;
            }
            Some(m * p)
        } else {
            proof {
                lemma_power_monotone(2, 11, d as nat);
                assert(power(2, 11) == 2048) by {
                    reveal_with_fuel(power, 12);
                }
                let p = power(2, d as nat);
                assert(m * p >= 4503599627370496 * 2048) by (nonlinear_arith)
                    requires
                        m >= 4503599627370496,
                        p >= 2048,
                ;
            }
            Some(TOO_GREAT)
        }
    }
}

impl Binary64 {
    /// The value as an unsigned 32-bit integer, if it is one.
    pub open spec fn as_u32(self) -> Option<u32> {
        match integer_of(self.magnitude()) {
            Some(n) => if n <= u32::MAX && (n == 0 || !self.negative()) {
                Some(n as u32)
            } else {
                None
            },
            None => None,
        }
    }

    /// Whether the value lies between 0 and 100, both included.
    pub open spec fn is_percentage(self) -> bool {
        &&& self.magnitude() <= INFINITE
        &&& grid(self.magnitude()) <= 100 * one()
        &&& !self.negative() || self.magnitude() == 0
    }

    /// The value as an unsigned 32-bit integer, if it is one.
    pub fn to_u32(self) -> (r: Option<u32>)
        ensures
            r == self.as_u32(),
    {
        match whole_magnitude(self.bits % SIGN) {
            Some(n) => if n <= 4294967295 && (n == 0 || self.bits < SIGN) {
                Some(n as u32)
            } else {
                None
            },
            None => None,
        }
    }

    /// Whether the value lies between 0 and 100, both included.
    pub fn in_percentage_range(self) -> (r: bool)
        ensures
            r == self.is_percentage(),
    {
        let i: u64 = self.bits % SIGN;
        proof {
            let h: nat = 4636737291354636288;
            assert(h / BINADE as nat == 1029 && h % BINADE as nat == 2533274790395904);
            lemma_powers_of_two();
            lemma_power_adds(2, 46, 1028);
            let p = power(2, 1028);
            assert(7036874417766400 * p == 100 * (70368744177664 * p)) by (nonlinear_arith);
            assert(grid(h) == 100 * one());
            if i <= h {
                lemma_grid_monotone(i as nat, h);
            } else {
                lemma_grid_monotone(h, i as nat);
            }
        }
        i <= 4636737291354636288 && (self.bits < SIGN || i == 0)
    }
}

/// Equality of numbers: zeros of either sign are equal, and what encodes no
/// number equals nothing.
impl PartialEq for Binary64 {
    fn eq(&self, other: &Self) -> (r: bool) {
        if self.bits % SIGN == 0 && other.bits % SIGN == 0 {
            true
        } else {
            self.bits == other.bits && self.bits % SIGN <= INFINITE
        }
    }
}

impl vstd::std_specs::cmp::PartialEqSpecImpl for Binary64 {
    open spec fn obeys_eq_spec() -> bool {
        true
    }

    open spec fn eq_spec(&self, other: &Self) -> bool {
        if self.magnitude() == 0 && other.magnitude() == 0 {
            true
        } else {
            self.bits == other.bits && self.magnitude() <= INFINITE
        }
    }
}

/// Numbers are equal where both are numbers of one value: of one magnitude, and of
/// one sign unless they are zero.
pub proof fn law_equal_numbers(a: Binary64, b: Binary64)
    ensures
        vstd::std_specs::cmp::PartialEqSpec::eq_spec(&a, &b) <==> {
            &&& a.magnitude() <= INFINITE
            &&& b.magnitude() <= INFINITE
            &&& grid(a.magnitude()) == grid(b.magnitude())
            &&& a.negative() == b.negative() || grid(a.magnitude()) == 0
        },
{
    let (i, j) = (a.magnitude(), b.magnitude());
    assert(grid(0) == 0);
    if i < j {
        lemma_grid_monotone(i, j);
    } else if j < i {
        lemma_grid_monotone(j, i);
    }
    if i > 0 {
        lemma_grid_monotone(0, i);
    }
}

} // verus!
