//! Natural numbers of any size, as far as bucket boundaries need them:
//! products of machine integers, and their order.

use vstd::prelude::*;
use vstd::arithmetic::power::{pow, lemma_pow0, lemma_pow_positive};
use crate::root::lemma_pow_unfold;

verus! {

/// The weight of one limb: limbs are base `2^32` digits, lowest first.
pub open spec fn limb_base() -> int {
    0x1_0000_0000
}

/// Multipliers stay below this bound so that a limb times a multiplier plus
/// a carry fits in 128 bits.
pub open spec fn multiplier_limit() -> int {
    0x1_0000_0000_0000_0000_0000_0000
}

/// The limb at position `j`, zero beyond the stored limbs.
pub open spec fn limb_at(limbs: Seq<u32>, j: int) -> int {
    if 0 <= j < limbs.len() {
        limbs[j] as int
    } else {
        0
    }
}

/// The number that the lowest `n` limbs stand for.
pub open spec fn low_value(limbs: Seq<u32>, n: nat) -> int
    decreases n,
{
    if n == 0 {
        0
    } else {
        low_value(limbs, (n - 1) as nat) + limb_at(limbs, n - 1) * pow(limb_base(), (n - 1) as nat)
    }
}

/// The lowest `n` limbs stand for a number below `2^(32 n)`.
pub proof fn lemma_low_value_bounds(limbs: Seq<u32>, n: nat)
    ensures
        0 <= low_value(limbs, n) < pow(limb_base(), n),
    decreases n,
{
    if n == 0 {
        lemma_pow0(limb_base());
    } else {
        let m = (n - 1) as nat;
        lemma_low_value_bounds(limbs, m);
        lemma_pow_unfold(limb_base(), m);
        let w = pow(limb_base(), m);
        let d = limb_at(limbs, n - 1);
        assert(0 <= d * w && d * w + w <= limb_base() * w) by (nonlinear_arith)
            requires
                0 <= d <= limb_base() - 1,
                0 <= w,
        ;
    }
}

/// Limbs that agree below `n` stand for the same number there.
pub proof fn lemma_low_value_agrees(a: Seq<u32>, b: Seq<u32>, n: nat)
    requires
        forall|j: int| 0 <= j < n ==> limb_at(a, j) == limb_at(b, j),
    ensures
        low_value(a, n) == low_value(b, n),
    decreases n,
{
    if n > 0 {
        lemma_low_value_agrees(a, b, (n - 1) as nat);
    }
}

/// Positions beyond the stored limbs add nothing.
pub proof fn lemma_low_value_padding(limbs: Seq<u32>, n: nat)
    requires
        limbs.len() <= n,
    ensures
        low_value(limbs, n) == low_value(limbs, limbs.len()),
    decreases n,
{
    if n > limbs.len() {
        lemma_low_value_padding(limbs, (n - 1) as nat);
        assert(limb_at(limbs, n - 1) * pow(limb_base(), (n - 1) as nat) == 0) by (nonlinear_arith)
            requires
                limb_at(limbs, n - 1) == 0,
        ;
    }
}

/// A natural number held as base `2^32` limbs, lowest first.
#[derive(Debug)]
pub struct Natural {
    limbs: Vec<u32>,
}

impl Natural {
    /// The number held.
    pub closed spec fn value(&self) -> int {
        low_value(self.limbs@, self.limbs@.len())
    }

    /// The number one.
    pub fn one() -> (r: Natural)
        ensures
            r.value() == 1,
    {
        let mut limbs: Vec<u32> = Vec::new();
        limbs.push(1);
        proof {
            lemma_pow0(limb_base());
            assert(low_value(limbs@, 1) == low_value(limbs@, 0) + limb_at(limbs@, 0) * pow(
                limb_base(),
                0,
            ));
        }
        Natural { limbs }
    }

    /// The limb at position `j`, zero beyond the stored limbs.
    fn limb(&self, j: usize) -> (d: u32)
        ensures
            d == limb_at(self.limbs@, j as int),
    {
        if j < self.limbs.len() {
            self.limbs[j]
        } else {
            0
        }
    }

    /// The product of this number and `m`.
    pub fn times(&self, m: u128) -> (r: Natural)
        requires
            m < multiplier_limit(),
        ensures
            r.value() == self.value() * m,
    {
        let mut product = Natural { limbs: self.limbs.clone() };
        assert(product.limbs@ =~= self.limbs@);
        product.scale(m);
        product
    }

    /// Multiplies this number by `m`, in place.
    pub fn scale(&mut self, m: u128)
        requires
            m < multiplier_limit(),
        ensures
            final(self).value() == old(self).value() * m,
    {
        let ghost start = self.limbs@;
        let n: usize = self.limbs.len();
        let mut carry: u128 = 0;
        let mut i: usize = 0;
        proof {
            lemma_pow0(limb_base());
            assert(0 * m == 0 && 0 * pow(limb_base(), 0) == 0) by (nonlinear_arith);
        }
        while i < n
            invariant
                i <= n,
                self.limbs@.len() == n,
                start.len() == n,
                carry < multiplier_limit(),
                m < multiplier_limit(),
                forall|j: int| i <= j < n ==> self.limbs@[j] == start[j],
                low_value(self.limbs@, i as nat) + carry * pow(limb_base(), i as nat) == low_value(
                    start,
                    i as nat,
                ) * m,
            decreases n - i,
        {
            let limb: u32 = self.limbs[i];
            assert(limb * m + carry <= 0xffff_ffff_ffff_ffff_ffff_ffff_0000_0000) by (nonlinear_arith)
                requires
                    0 <= limb <= 0xffff_ffff,
                    0 <= m <= 0xffff_ffff_ffff_ffff_ffff_ffff,
                    0 <= carry <= 0xffff_ffff_ffff_ffff_ffff_ffff,
            ;
            let t: u128 = (limb as u128) * m + carry;
            let digit: u32 = (t % 0x1_0000_0000) as u32;
            let ghost before = self.limbs@;
            let ghost carried = carry;
            self.limbs[i] = digit;
            carry = t / 0x1_0000_0000;
            proof {
                let w = pow(limb_base(), i as nat);
                lemma_pow_unfold(limb_base(), i as nat);
                lemma_low_value_agrees(before, self.limbs@, i as nat);
                assert(limb_at(self.limbs@, i as int) == digit);
                assert(limb_at(start, i as int) == limb);
                let lo = low_value(before, i as nat);
                let lx = low_value(start, i as nat);
                assert(lo + digit * w + carry * (limb_base() * w) == (lx + limb * w) * m)
                    by (nonlinear_arith)
                    requires
                        lo + carried * w == lx * m,
                        digit + limb_base() * carry == limb * m + carried,
                ;
            }
            i += 1;
        }
        while carry > 0
            invariant
                low_value(self.limbs@, self.limbs@.len()) + carry * pow(
                    limb_base(),
                    self.limbs@.len(),
                ) == low_value(start, start.len()) * m,
            decreases carry,
        {
            let digit: u32 = (carry % 0x1_0000_0000) as u32;
            let ghost before = self.limbs@;
            let ghost carried = carry;
            self.limbs.push(digit);
            carry = carry / 0x1_0000_0000;
            proof {
                let n = before.len();
                let w = pow(limb_base(), n);
                lemma_pow_unfold(limb_base(), n);
                lemma_low_value_agrees(before, self.limbs@, n);
                assert(limb_at(self.limbs@, n as int) == digit);
                let lo = low_value(before, n);
                assert(lo + digit * w + carry * (limb_base() * w) == lo + carried * w)
                    by (nonlinear_arith)
                    requires
                        digit + limb_base() * carry == carried,
                ;
            }
        }
        proof {
            assert(carry * pow(limb_base(), self.limbs@.len()) == 0) by (nonlinear_arith)
                requires
                    carry == 0,
            ;
        }
    }

    /// The product of this number and the `e`-th power of `base`.
    pub fn times_power(self, base: u128, e: usize) -> (r: Natural)
        requires
            base < multiplier_limit(),
        ensures
            r.value() == self.value() * pow(base as int, e as nat),
    {
        let ghost start = self.value();
        let mut acc = self;
        let mut j: usize = 0;
        proof {
            lemma_pow0(base as int);
        }
        while j < e
            invariant
                j <= e,
                base < multiplier_limit(),
                acc.value() == start * pow(base as int, j as nat),
            decreases e - j,
        {
            let ghost held = acc.value();
            acc.scale(base);
            proof {
                lemma_pow_unfold(base as int, j as nat);
                let w = pow(base as int, j as nat);
                assert(held * base == start * (base * w)) by (nonlinear_arith)
                    requires
                        held == start * w,
                ;
            }
            j += 1;
        }
        acc
    }

    /// Whether this number is smaller than `other`.
    pub fn less_than(&self, other: &Natural) -> (r: bool)
        ensures
            r == (self.value() < other.value()),
    {
        let n: usize = if self.limbs.len() > other.limbs.len() {
            self.limbs.len()
        } else {
            other.limbs.len()
        };
        proof {
            lemma_low_value_padding(self.limbs@, n as nat);
            lemma_low_value_padding(other.limbs@, n as nat);
        }
        let mut i: usize = n;
        while i > 0
            invariant
                i <= n,
                self.value() == low_value(self.limbs@, n as nat),
                other.value() == low_value(other.limbs@, n as nat),
                low_value(self.limbs@, n as nat) - low_value(self.limbs@, i as nat) == low_value(
                    other.limbs@,
                    n as nat,
                ) - low_value(other.limbs@, i as nat),
            decreases i,
        {
            let x: u32 = self.limb(i - 1);
            let y: u32 = other.limb(i - 1);
            proof {
                let w = pow(limb_base(), (i - 1) as nat);
                lemma_pow_positive(limb_base(), (i - 1) as nat);
                lemma_low_value_bounds(self.limbs@, (i - 1) as nat);
                lemma_low_value_bounds(other.limbs@, (i - 1) as nat);
                if x < y {
                    assert(x * w + w <= y * w) by (nonlinear_arith)
                        requires
                            x + 1 <= y,
                            0 <= w,
                    ;
                }
                if y < x {
                    assert(y * w + w <= x * w) by (nonlinear_arith)
                        requires
                            y + 1 <= x,
                            0 <= w,
                    ;
                }
            }
            if x < y {
                return true;
            }
            if y < x {
                return false;
            }
            i -= 1;
        }
        false
    }
}

} // verus!
