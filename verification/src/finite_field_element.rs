//! A residue class modulo the prime 17, with the field operations and the
//! algebraic laws (associativity, distributivity, identity, inverses) proved
//! over them.

use vstd::prelude::*;
use vstd::arithmetic::power::{pow, lemma_pow0};
use vstd::arithmetic::div_mod::{
    lemma_add_mod_noop, lemma_mul_mod_noop_general, lemma_small_mod,
};
use vstd::arithmetic::mul::lemma_mul_is_distributive_add;
use crate::number_theory::{lemma_pow_mod_even, lemma_pow_mod_odd, lemma_flt_17,
    lemma_fermat_inverse};

verus! {

/// Field modulus.
const P: i32 = 17;

#[derive(Debug, Default, Clone, Copy, PartialEq, Eq, Structural)]
pub struct FieldElement {
    value: i32,
}

/// Canonical residue of `v` modulo 17, in `[0, 16]`.
pub open spec fn reduce(v: int) -> int {
    v % 17
}

/// Sum in the field.
pub open spec fn fadd(a: int, b: int) -> int {
    (a + b) % 17
}

/// Difference in the field.
pub open spec fn fsub(a: int, b: int) -> int {
    (a - b) % 17
}

/// Product in the field.
pub open spec fn fmul(a: int, b: int) -> int {
    (a * b) % 17
}

/// The multiplicative inverse computed by Fermat's little theorem,
/// `a^(P-2) mod P`.
pub open spec fn finv(a: int) -> int {
    pow(a, 15) % 17
}

impl FieldElement {
    /// The residue this element stands for.
    pub closed spec fn v(self) -> int {
        self.value as int
    }

    /// The element is canonically reduced.
    pub closed spec fn wf(self) -> bool {
        0 <= self.value < 17
    }

    /// Constructor ensuring we stay inside the field `[0, P-1]`: any integer,
    /// negative ones included, is reduced to its canonical residue.
    pub fn new(val: i32) -> (r: Self)
        ensures
            r.wf(),
            r.v() == reduce(val as int),
    {
        let res: u32 = if val >= 0 {
            (val as u32) % (P as u32)
        } else {
            let m = ((-(val as i64)) as u64 % (P as u64)) as u32;
            proof {
                crate::number_theory::lemma_mod_of_negative(val as int, P as int);
            }
            if m == 0 {
                0
            } else {
                (P as u32) - m
            }
        };
        FieldElement { value: res as i32 }
    }

    /// Multiplicative inverse via Fermat's little theorem: `a^(P-2) mod P`.
    /// On the zero element the exponentiation yields 0, which is not an
    /// inverse of anything; every nonzero element gets its true inverse.
    pub fn inverse(&self) -> (r: Self)
        requires
            self.wf(),
        ensures
            r.wf(),
            r.v() == finv(self.v()),
            self.v() != 0 ==> fmul(self.v(), r.v()) == 1,
    {
        let ghost goal: int = pow(self.value as int, 15) % 17;
        let mut base: u32 = self.value as u32;
        let mut exp: u32 = (P as u32) - 2;
        let mut res: u32 = 1;

        while exp > 0
            invariant
                base < 17,
                res < 17,
                (res * pow(base as int, exp as nat)) % 17 == goal,
            decreases exp,
        {
            proof {
                crate::number_theory::lemma_mul_bound(res as int, base as int, 17);
                crate::number_theory::lemma_mul_bound(base as int, base as int, 17);
                if exp % 2 == 1 {
                    lemma_pow_mod_odd(res as int, base as int, exp as nat, 17);
                } else {
                    lemma_pow_mod_even(res as int, base as int, exp as nat, 17);
                }
            }
            if exp % 2 == 1 {
                res = (res * base) % (P as u32);
            }
            base = (base * base) % (P as u32);
            exp = exp / 2;
        }
        proof {
            lemma_pow0(base as int);
            lemma_small_mod(res as nat, 17);
            if self.value != 0 {
                lemma_flt_17(self.v());
                lemma_fermat_inverse(self.v(), 17);
                vstd::arithmetic::mul::lemma_mul_is_commutative(finv(self.v()), self.v());
            }
        }
        FieldElement::new(res as i32)
    }

    /// Field addition; the result is always canonically reduced.
    pub fn add(self, other: Self) -> (r: Self)
        requires
            self.wf(),
            other.wf(),
        ensures
            r.wf(),
            r.v() == fadd(self.v(), other.v()),
    {
        FieldElement::new(self.value + other.value)
    }

    /// Field subtraction.
    pub fn sub(self, other: Self) -> (r: Self)
        requires
            self.wf(),
            other.wf(),
        ensures
            r.wf(),
            r.v() == fsub(self.v(), other.v()),
    {
        FieldElement::new(self.value - other.value)
    }

    /// Field multiplication.
    pub fn mul(self, other: Self) -> (r: Self)
        requires
            self.wf(),
            other.wf(),
        ensures
            r.wf(),
            r.v() == fmul(self.v(), other.v()),
    {
        proof {
            crate::number_theory::lemma_mul_bound(self.v(), other.v(), 17);
        }
        FieldElement::new(self.value * other.value)
    }
}

/// Law: addition is associative, `(a + b) + c == a + (b + c)`, for all
/// residues in `[0, P-1]`.
pub proof fn lemma_add_associative(a: int, b: int, c: int)
    requires
        0 <= a < 17,
        0 <= b < 17,
        0 <= c < 17,
    ensures
        fadd(fadd(a, b), c) == fadd(a, fadd(b, c)),
{
    lemma_add_mod_noop(a + b, c, 17);
    lemma_add_mod_noop(a, b + c, 17);
    lemma_small_mod(a as nat, 17);
    lemma_small_mod(b as nat, 17);
    lemma_small_mod(c as nat, 17);
}

/// Law: multiplication distributes over addition,
/// `a * (b + c) == a * b + a * c`, for all residues in `[0, P-1]`.
pub proof fn lemma_mul_distributive(a: int, b: int, c: int)
    requires
        0 <= a < 17,
        0 <= b < 17,
        0 <= c < 17,
    ensures
        fmul(a, fadd(b, c)) == fadd(fmul(a, b), fmul(a, c)),
{
    lemma_mul_mod_noop_general(a, b + c, 17);
    lemma_mul_is_distributive_add(a, b, c);
    lemma_add_mod_noop(a * b, a * c, 17);
    lemma_small_mod(a as nat, 17);
}

/// Law: zero is the additive identity, `a + 0 == a`, for all residues in
/// `[0, P-1]`.
pub proof fn lemma_add_identity(a: int)
    requires
        0 <= a < 17,
    ensures
        fadd(a, 0) == a,
{
    lemma_small_mod(a as nat, 17);
}

/// Law: every nonzero residue times its Fermat inverse is 1,
/// `a * a.inverse() == 1`, for all `a` in `[1, P-1]`.
pub proof fn lemma_mul_inverse(a: int)
    requires
        1 <= a < 17,
    ensures
        fmul(a, finv(a)) == 1,
{
    lemma_flt_17(a);
    lemma_fermat_inverse(a, 17);
    vstd::arithmetic::mul::lemma_mul_is_commutative(finv(a), a);
}

} // verus!
