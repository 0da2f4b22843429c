//! Feldman's verifiable secret sharing: commitments are powers of a fixed
//! generator, `C = g^a_0, g^a_1, ...`, and a share `y = P(i)` is checked
//! against them by comparing `g^y` with the product of `(C_j)^(i^j)`.

use vstd::prelude::*;
use vstd::arithmetic::power::{pow, lemma_pow0, lemma_pow1, lemma_pow_adds, lemma_pow_increases,
    lemma0_pow};
use vstd::arithmetic::div_mod::lemma_small_mod;
use vstd::arithmetic::mul::lemma_mul_is_commutative;
use crate::number_theory::{lemma_pow_mod_even, lemma_pow_mod_odd, lemma_mul_bound};

verus! {

/// Order of the mock group (in reality this is a massive number).
pub const MODULUS: u128 = 1009;

/// The fixed generator of the mock group.
pub const GENERATOR: u128 = 5;

/// A group element, `g^x`.
#[derive(Debug, Clone, Copy, PartialEq, Eq, Structural)]
pub struct GroupElement(pub u128);

/// A scalar: the private data in the exponent.
#[derive(Debug, Clone, Copy, PartialEq, Eq, Structural)]
pub struct Scalar(pub u128);

/// The right-hand side of the share check: the product of the first `k`
/// commitments, each raised to the matching power of the index.
pub open spec fn rhs_prefix(cs: Seq<GroupElement>, x: int, k: int) -> int
    decreases k,
{
    if k <= 0 {
        1
    } else {
        (rhs_prefix(cs, x, k - 1) * (pow(cs[k - 1].0 as int, pow(x, (k - 1) as nat) as nat)
            % 1009)) % 1009
    }
}

impl GroupElement {
    /// Simulating `g^scalar` by square-and-multiply in the mock group.
    pub fn generator_pow(s: Scalar) -> (r: Self)
        ensures
            r.0 == pow(GENERATOR as int, s.0 as nat) % 1009,
            r.0 < 1009,
    {
        // g = 5
        let mut base: u128 = GENERATOR;
        let mut exp = s.0;
        let mut res: u128 = 1;
        while exp > 0
            invariant
                base < 1009,
                res < 1009,
                (res * pow(base as int, exp as nat)) % 1009 == pow(GENERATOR as int, s.0 as nat)
                    % 1009,
            decreases exp,
        {
            proof {
                lemma_mul_bound(res as int, base as int, 1009);
                lemma_mul_bound(base as int, base as int, 1009);
                if exp % 2 == 1 {
                    lemma_pow_mod_odd(res as int, base as int, exp as nat, 1009);
                } else {
                    lemma_pow_mod_even(res as int, base as int, exp as nat, 1009);
                }
            }
            if exp % 2 == 1 {
                res = (res * base) % MODULUS;
            }
            base = (base * base) % MODULUS;
            exp /= 2;
        }
        proof {
            lemma_pow0(base as int);
            lemma_small_mod(res as nat, 1009nat);
        }
        GroupElement(res)
    }

    /// Group operation: point addition corresponds to multiplication in
    /// modular groups.
    pub fn combine(&self, other: Self) -> (r: Self)
        requires
            self.0 < 1009,
            other.0 < 1009,
        ensures
            r.0 == ((self.0 as int) * (other.0 as int)) % 1009,
            r.0 < 1009,
    {
        proof {
            lemma_mul_bound(self.0 as int, other.0 as int, 1009);
        }
        GroupElement((self.0 * other.0) % MODULUS)
    }

    /// Scalar multiplication: `(g^a)^b = g^(a*b)`.
    pub fn scalar_mul(&self, scalar: u128) -> (r: Self)
        requires
            self.0 < 1009,
        ensures
            r.0 == pow(self.0 as int, scalar as nat) % 1009,
            r.0 < 1009,
    {
        let mut base = self.0;
        let mut exp = scalar;
        let mut res: u128 = 1;
        while exp > 0
            invariant
                base < 1009,
                res < 1009,
                (res * pow(base as int, exp as nat)) % 1009 == pow(self.0 as int, scalar as nat)
                    % 1009,
            decreases exp,
        {
            proof {
                lemma_mul_bound(res as int, base as int, 1009);
                lemma_mul_bound(base as int, base as int, 1009);
                if exp % 2 == 1 {
                    lemma_pow_mod_odd(res as int, base as int, exp as nat, 1009);
                } else {
                    lemma_pow_mod_even(res as int, base as int, exp as nat, 1009);
                }
            }
            if exp % 2 == 1 {
                res = (res * base) % MODULUS;
            }
            base = (base * base) % MODULUS;
            exp /= 2;
        }
        proof {
            lemma_pow0(base as int);
            lemma_small_mod(res as nat, 1009nat);
        }
        GroupElement(res)
    }
}

/// Raise an index to a power by repeated multiplication.
fn index_pow(base: u128, exp: usize) -> (r: u128)
    requires
        pow(base as int, exp as nat) <= u128::MAX,
    ensures
        r == pow(base as int, exp as nat),
{
    let mut result: u128 = 1;
    let mut i: usize = 0;
    proof {
        lemma_pow0(base as int);
    }
    while i < exp
        invariant
            i <= exp,
            pow(base as int, exp as nat) <= u128::MAX,
            result == pow(base as int, i as nat),
        decreases exp - i,
    {
        proof {
            lemma_pow1(base as int);
            lemma_pow_adds(base as int, i as nat, 1);
            lemma_mul_is_commutative(pow(base as int, i as nat), base as int);
            if base == 0 {
                lemma0_pow((i + 1) as nat);
            } else {
                lemma_pow_increases(base as nat, (i + 1) as nat, exp as nat);
            }
        }
        result = result * base;
        i += 1;
    }
    result
}

/// Verifies a share against public commitments.
///
/// * `index` (i): the x-coordinate of the node (public)
/// * `share` (y): the private share value received (private)
/// * `commitments` (C): the list of `g^a_0, g^a_1, ...` (public)
///
/// The check compares `g^y` with `C_0 * (C_1)^i * (C_2)^(i^2) * ...`.
pub fn verify_share(index: u128, share: Scalar, commitments: &[GroupElement]) -> (ok: bool)
    requires
        forall|j: int| 0 <= j < commitments@.len() ==> (#[trigger] commitments@[j]).0 < 1009,
        forall|j: nat|
            j < commitments@.len() ==> #[trigger] pow(index as int, j) <= u128::MAX,
    ensures
        ok == (pow(GENERATOR as int, share.0 as nat) % 1009 == rhs_prefix(
            commitments@,
            index as int,
            commitments@.len() as int,
        )),
{
    // 1. Calculate LHS: g^y
    let lhs = GroupElement::generator_pow(share);

    // 2. Calculate RHS: product of (C_j)^(i^j)
    let mut rhs = GroupElement(1);  // Identity element

    let mut j: usize = 0;
    while j < commitments.len()
        invariant
            j <= commitments@.len(),
            forall|jj: int| 0 <= jj < commitments@.len() ==> (#[trigger] commitments@[jj]).0 < 1009,
            forall|jj: nat|
                jj < commitments@.len() ==> #[trigger] pow(index as int, jj) <= u128::MAX,
            rhs.0 == rhs_prefix(commitments@, index as int, j as int),
            rhs.0 < 1009,
        decreases commitments@.len() - j,
    {
        let commitment = commitments[j];
        // Calculate power: i^j
        proof {
            assert(pow(index as int, j as nat) <= u128::MAX);
        }
        let i_pow_j = index_pow(index, j);

        // Calculate term: (C_j)^(i^j)
        let term = commitment.scalar_mul(i_pow_j);

        // Combine into running product
        rhs = rhs.combine(term);
        j += 1;
    }

    // 3. Check for equality
    lhs.0 == rhs.0
}

} // verus!
