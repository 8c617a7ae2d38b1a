//! Natural numbers of any size.

use vstd::prelude::*;

verus! {

/// `b` to the power `e`.
pub open spec fn power(b: nat, e: nat) -> nat
    decreases e,
{
    if e == 0 {
        1
    } else {
        b * power(b, (e - 1) as nat)
    }
}

/// Powers of a positive base are positive.
pub proof fn lemma_power_positive(b: nat, e: nat)
    requires
        b > 0,
    ensures
        power(b, e) > 0,
    decreases e,
{
    if e > 0 {
        lemma_power_positive(b, (e - 1) as nat);
        assert(b * power(b, (e - 1) as nat) > 0) by (nonlinear_arith)
            requires
                b > 0,
                power(b, (e - 1) as nat) > 0,
        ;
    }
}

/// Exponents add.
pub proof fn lemma_power_adds(b: nat, d: nat, e: nat)
    ensures
        power(b, d + e) == power(b, d) * power(b, e),
    decreases d,
{
    if d == 0 {
        assert(power(b, 0) * power(b, e) == power(b, e)) by (nonlinear_arith)
            requires
                power(b, 0) == 1,
        ;
    } else {
        lemma_power_adds(b, (d - 1) as nat, e);
        assert((d - 1) as nat + e == (d + e - 1) as nat);
        assert(b * (power(b, (d - 1) as nat) * power(b, e)) == (b * power(b, (d - 1) as nat))
            * power(b, e)) by (nonlinear_arith);
    }
}

/// Powers of a positive base do not decrease with the exponent.
pub proof fn lemma_power_monotone(b: nat, d: nat, e: nat)
    requires
        b > 0,
        d <= e,
    ensures
        power(b, d) <= power(b, e),
    decreases e,
{
    if d < e {
        lemma_power_monotone(b, d, (e - 1) as nat);
        assert(power(b, (e - 1) as nat) <= b * power(b, (e - 1) as nat)) by (nonlinear_arith)
            requires
                b > 0,
        ;
    }
}

/// A greater base has powers at least as great.
pub proof fn lemma_power_base_monotone(a: nat, b: nat, e: nat)
    requires
        a <= b,
    ensures
        power(a, e) <= power(b, e),
    decreases e,
{
    if e > 0 {
        lemma_power_base_monotone(a, b, (e - 1) as nat);
        assert(a * power(a, (e - 1) as nat) <= b * power(b, (e - 1) as nat)) by (nonlinear_arith)
            requires
                a <= b,
                power(a, (e - 1) as nat) <= power(b, (e - 1) as nat),
        ;
    }
}

/// Powers of eight are powers of two.
pub proof fn lemma_power_of_eight(e: nat)
    ensures
        power(8, e) == power(2, 3 * e),
    decreases e,
{
    if e > 0 {
        lemma_power_of_eight((e - 1) as nat);
        let p = power(2, (3 * e - 3) as nat);
        assert(power(2, (3 * e - 2) as nat) == 2 * p);
        assert(power(2, (3 * e - 1) as nat) == 2 * power(2, (3 * e - 2) as nat));
        assert(power(2, 3 * e) == 2 * power(2, (3 * e - 1) as nat));
    }
}

/// Ten to the power `e` is a multiple of two to the power `e`.
pub proof fn lemma_power_of_ten(e: nat)
    ensures
        power(10, e) == power(2, e) * power(5, e),
    decreases e,
{
    if e > 0 {
        lemma_power_of_ten((e - 1) as nat);
        let (a, b) = (power(2, (e - 1) as nat), power(5, (e - 1) as nat));
        assert(10 * (a * b) == (2 * a) * (5 * b)) by (nonlinear_arith);
    } else {
        assert(power(2, 0) * power(5, 0) == 1) by (nonlinear_arith)
            requires
                power(2, 0) == 1,
                power(5, 0) == 1,
        ;
    }
}

/// The value of two to the power 32.
pub proof fn lemma_two_to_32()
    ensures
        power(2, 32) == 4294967296,
{
    assert(power(2, 8) == 256) by {
        reveal_with_fuel(power, 9);
    }
    lemma_power_adds(2, 8, 8);
    assert(power(2, 8) * power(2, 8) == 65536) by (nonlinear_arith)
        requires
            power(2, 8) == 256,
    ;
    lemma_power_adds(2, 16, 16);
    assert(power(2, 16) * power(2, 16) == 4294967296) by (nonlinear_arith)
        requires
            power(2, 16) == 65536,
    ;
}

/// The values of some greater powers of two.
pub proof fn lemma_powers_of_two()
    ensures
        power(2, 46) == 70368744177664,
        power(2, 52) == 4503599627370496,
        power(2, 62) == 4611686018427387904,
        power(2, 63) == 9223372036854775808,
{
    lemma_two_to_32();
    assert(power(2, 14) == 16384 && power(2, 20) == 1048576 && power(2, 30) == 1073741824) by {
        reveal_with_fuel(power, 31);
    }
    lemma_power_adds(2, 32, 14);
    lemma_power_adds(2, 32, 20);
    lemma_power_adds(2, 32, 30);
    let p = power(2, 32);
    assert(p * 16384 == 70368744177664 && p * 1048576 == 4503599627370496 && p * 1073741824
        == 4611686018427387904) by (nonlinear_arith)
        requires
            p == 4294967296,
    ;
    assert(power(2, 63) == 2 * power(2, 62));
}

/// The number that limbs count in.
pub open spec fn radix() -> nat {
    4294967296
}

/// The limb at place `k`, zero above the last one.
pub open spec fn limb(limbs: Seq<u32>, k: int) -> nat {
    if 0 <= k < limbs.len() {
        limbs[k] as nat
    } else {
        0
    }
}

/// The value of the `n` lowest limbs.
pub open spec fn low_value(limbs: Seq<u32>, n: nat) -> nat
    decreases n,
{
    if n == 0 {
        0
    } else {
        low_value(limbs, (n - 1) as nat) + limb(limbs, n - 1) * power(radix(), (n - 1) as nat)
    }
}

/// The limbs up to the highest that is not zero.
pub open spec fn without_top_zeros(limbs: Seq<u32>) -> Seq<u32>
    decreases limbs.len(),
{
    if limbs.len() > 0 && limbs.last() == 0 {
        without_top_zeros(limbs.drop_last())
    } else {
        limbs
    }
}

proof fn lemma_low_value_bound(limbs: Seq<u32>, n: nat)
    ensures
        low_value(limbs, n) < power(radix(), n),
    decreases n,
{
    if n > 0 {
        lemma_low_value_bound(limbs, (n - 1) as nat);
        let l = limb(limbs, n - 1);
        let p = power(radix(), (n - 1) as nat);
        assert(l * p <= (radix() - 1) * p) by (nonlinear_arith)
            requires
                l <= radix() - 1,
        ;
        assert((radix() - 1) * p + p == radix() * p) by (nonlinear_arith);
    }
}

proof fn lemma_low_value_padding(limbs: Seq<u32>, n: nat)
    requires
        n >= limbs.len(),
    ensures
        low_value(limbs, n) == low_value(limbs, limbs.len()),
    decreases n,
{
    if n > limbs.len() {
        lemma_low_value_padding(limbs, (n - 1) as nat);
        assert(0 * power(radix(), (n - 1) as nat) == 0) by (nonlinear_arith);
    }
}

proof fn lemma_low_value_agree(a: Seq<u32>, b: Seq<u32>, n: nat)
    requires
        forall|k: int| 0 <= k < n ==> limb(a, k) == limb(b, k),
    ensures
        low_value(a, n) == low_value(b, n),
    decreases n,
{
    if n > 0 {
        lemma_low_value_agree(a, b, (n - 1) as nat);
    }
}

proof fn lemma_low_value_push(limbs: Seq<u32>, x: u32)
    ensures
        low_value(limbs.push(x), limbs.len() + 1) == low_value(limbs, limbs.len()) + x * power(
            radix(),
            limbs.len(),
        ),
{
    lemma_low_value_agree(limbs.push(x), limbs, limbs.len());
}

/// Equal limbs above place `i` and a smaller limb there make a smaller number.
proof fn lemma_low_value_order(a: Seq<u32>, b: Seq<u32>, i: nat, n: nat)
    requires
        i < n,
        limb(a, i as int) < limb(b, i as int),
        forall|k: int| i < k < n ==> limb(a, k) == limb(b, k),
    ensures
        low_value(a, n) < low_value(b, n),
    decreases n,
{
    if n == i + 1 {
        lemma_low_value_bound(a, i);
        let (x, y, p) = (limb(a, i as int), limb(b, i as int), power(radix(), i));
        assert(x * p + p <= y * p) by (nonlinear_arith)
            requires
                x + 1 <= y,
        ;
    } else {
        lemma_low_value_order(a, b, i, (n - 1) as nat);
    }
}

/// A natural number, by its 32-bit limbs from the lowest up.
pub struct Natural {
    limbs: Vec<u32>,
}

impl View for Natural {
    type V = nat;

    closed spec fn view(&self) -> nat {
        low_value(self.limbs@, self.limbs@.len())
    }
}

impl Natural {
    /// The number `x`.
    pub fn new(x: u64) -> (r: Self)
        ensures
            r@ == x,
    {
        let mut r = Natural { limbs: Vec::new() };
        r.mul_add(1, x);
        r
    }

    /// A copy.
    pub fn copy(&self) -> (r: Self)
        ensures
            r@ == self@,
    {
        Natural { limbs: self.limbs.clone() }
    }

    /// Multiplies by `factor`, then adds `term`.
    pub fn mul_add(&mut self, factor: u64, term: u64)
        ensures
            final(self)@ == old(self)@ * factor + term,
    {
        let mut carry: u64 = term;
        let mut i: usize = 0;
        let mut out: Vec<u32> = Vec::new();
        let ghost old_limbs = self.limbs@;
        assert(low_value(old_limbs, 0) * factor == 0) by (nonlinear_arith)
            requires
                low_value(old_limbs, 0) == 0,
        ;
        assert(carry * power(radix(), 0) == carry) by (nonlinear_arith)
            requires
                power(radix(), 0) == 1,
        ;
        while i < self.limbs.len()
            invariant
                self.limbs@ == old_limbs,
                i <= old_limbs.len(),
                out@.len() == i,
                low_value(out@, i as nat) + carry * power(radix(), i as nat) == low_value(
                    old_limbs,
                    i as nat,
                ) * factor + term,
            decreases old_limbs.len() - i,
        {
            let x: u32 = self.limbs[i];
            assert(x * factor <= 4294967295 * 18446744073709551615) by (nonlinear_arith)
                requires
                    x <= 4294967295,
                    factor <= 18446744073709551615,
            ;
            let t: u128 = (x as u128) * (factor as u128) + (carry as u128);
            let low: u32 = (t % 4294967296) as u32;
            let next: u64 = (t / 4294967296) as u64;
            proof {
                let p = power(radix(), i as nat);
                lemma_low_value_push(out@, low);
                assert(t == low + next * 4294967296);
                assert((low + next * 4294967296) * p == low * p + next * (4294967296 * p))
                    by (nonlinear_arith);
                assert((x * factor + carry) * p == (x * p) * factor + carry * p)
                    by (nonlinear_arith);
                let l = low_value(old_limbs, i as nat);
                assert((l + x * p) * factor == l * factor + (x * p) * factor) by (nonlinear_arith);
            }
            out.push(low);
            carry = next;
            i += 1;
        }
        proof {
            let p = power(radix(), i as nat);
            let (c0, c1) = (carry % 4294967296, carry / 4294967296);
            lemma_low_value_push(out@, c0 as u32);
            lemma_low_value_push(out@.push(c0 as u32), c1 as u32);
            assert((c0 + c1 * 4294967296) * p == c0 * p + c1 * (4294967296 * p))
                by (nonlinear_arith);
        }
        out.push((carry % 4294967296) as u32);
        out.push((carry / 4294967296) as u32);
        self.limbs = out;
        self.trim();
    }

    /// Drops zero limbs at the top.
    fn trim(&mut self)
        ensures
            final(self)@ == old(self)@,
            final(self).limbs@ == without_top_zeros(old(self).limbs@),
    {
        while self.limbs.len() > 0 && self.limbs[self.limbs.len() - 1] == 0
            invariant
                self@ == old(self)@,
                without_top_zeros(self.limbs@) == without_top_zeros(old(self).limbs@),
            decreases self.limbs@.len(),
        {
            let ghost before = self.limbs@;
            self.limbs.pop();
            proof {
                assert(self.limbs@ =~= before.drop_last());
                let n = self.limbs@.len();
                lemma_low_value_agree(before, self.limbs@, n);
                assert(0 * power(radix(), n) == 0) by (nonlinear_arith);
            }
        }
    }

    /// Multiplies by two to the power `k`.
    pub fn mul_power_of_two(&mut self, k: u64)
        ensures
            final(self)@ == old(self)@ * power(2, k as nat),
    {
        let mut left: u64 = k;
        let ghost v = self@;
        assert(v * power(2, 0) == v) by (nonlinear_arith)
            requires
                power(2, 0) == 1,
        ;
        while left >= 32
            invariant
                left <= k,
                self@ == v * power(2, (k - left) as nat),
            decreases left,
        {
            self.mul_add(4294967296, 0);
            proof {
                lemma_two_to_32();
                lemma_power_adds(2, (k - left) as nat, 32);
                assert((k - left) as nat + 32 == (k - (left - 32)) as nat);
                assert((v * power(2, (k - left) as nat)) * 4294967296 == v * (power(
                    2,
                    (k - left) as nat,
                ) * 4294967296)) by (nonlinear_arith);
            }
            left -= 32;
        }
        while left > 0
            invariant
                left <= k,
                self@ == v * power(2, (k - left) as nat),
            decreases left,
        {
            self.mul_add(2, 0);
            proof {
                assert(power(2, (k - (left - 1)) as nat) == 2 * power(2, (k - left) as nat));
                assert((v * power(2, (k - left) as nat)) * 2 == v * (2 * power(
                    2,
                    (k - left) as nat,
                ))) by (nonlinear_arith);
            }
            left -= 1;
        }
    }

    /// Multiplies by ten to the power `k`.
    pub fn mul_power_of_ten(&mut self, k: u128)
        ensures
            final(self)@ == old(self)@ * power(10, k as nat),
    {
        let mut left: u128 = k;
        let ghost v = self@;
        assert(v * power(10, 0) == v) by (nonlinear_arith)
            requires
                power(10, 0) == 1,
        ;
        while left > 0
            invariant
                left <= k,
                self@ == v * power(10, (k - left) as nat),
            decreases left,
        {
            self.mul_add(10, 0);
            proof {
                assert(power(10, (k - (left - 1)) as nat) == 10 * power(10, (k - left) as nat));
                assert((v * power(10, (k - left) as nat)) * 10 == v * (10 * power(
                    10,
                    (k - left) as nat,
                ))) by (nonlinear_arith);
            }
            left -= 1;
        }
    }

    /// The limb at place `k`, zero above the last one.
    fn limb_at(&self, k: usize) -> (x: u32)
        ensures
            x == limb(self.limbs@, k as int),
    {
        if k < self.limbs.len() {
            self.limbs[k]
        } else {
            0
        }
    }

    /// Whether the number is less than, equal to or greater than `other`: a
    /// negative, zero or positive result.
    pub fn against(&self, other: &Natural) -> (r: i8)
        ensures
            r < 0 <==> self@ < other@,
            r == 0 <==> self@ == other@,
            r > 0 <==> self@ > other@,
    {
        let n: usize = if self.limbs.len() >= other.limbs.len() {
            self.limbs.len()
        } else {
            other.limbs.len()
        };
        proof {
            lemma_low_value_padding(self.limbs@, n as nat);
            lemma_low_value_padding(other.limbs@, n as nat);
        }
        let mut i: usize = n;
        while i > 0
            invariant
                i <= n,
                self@ == low_value(self.limbs@, n as nat),
                other@ == low_value(other.limbs@, n as nat),
                forall|k: int| i <= k < n ==> limb(self.limbs@, k) == limb(other.limbs@, k),
            decreases i,
        {
            let x: u32 = self.limb_at(i - 1);
            let y: u32 = other.limb_at(i - 1);
            if x < y {
                proof {
                    lemma_low_value_order(self.limbs@, other.limbs@, (i - 1) as nat, n as nat);
                }
                return -1;
            }
            if x > y {
                proof {
                    lemma_low_value_order(other.limbs@, self.limbs@, (i - 1) as nat, n as nat);
                }
                return 1;
            }
            i -= 1;
        }
        proof {
            lemma_low_value_agree(self.limbs@, other.limbs@, n as nat);
        }
        0
    }
}

} // verus!
