//! Lagrange interpolation over the prime field of 251: reconstructs the
//! value of the hidden polynomial at a target point from a list of shares
//! `(x, y)` with pairwise distinct x-coordinates, in quadratic time.

use vstd::prelude::*;
use vstd::math::abs;
use vstd::arithmetic::div_mod::{lemma_small_mod, lemma_fundamental_div_mod, lemma_mod_bound,
    lemma_mod_multiples_vanish, lemma_mod_multiples_basic, lemma_mul_mod_noop_left,
    lemma_mul_mod_noop_right, lemma_fundamental_div_mod_converse_mod};
use vstd::arithmetic::mul::{lemma_mul_is_commutative, lemma_mul_is_associative};
use crate::number_theory::{gcd, mul_spec, lemma_eea_congruence, lemma_eea_bounds,
    lemma_gcd_step, lemma_is_prime_251, lemma_small_nondivides, lemma_prime_coprime,
    lemma_mod_of_negative};

verus! {

/// The field modulus, a small prime for demonstration (the finite field
/// GF(251)).
pub const PRIME: i128 = 251;

/// Residue of `i128::MIN` modulo 251, the one value whose magnitude does not
/// fit in `i128`.
const MIN_RESIDUE: i128 = 4;

#[derive(Debug, Clone, Copy, PartialEq, Eq, Structural)]
pub struct FieldElement(pub i128);

/// Canonical residue of `v` modulo 251.
pub open spec fn reduce(v: int) -> int {
    v % 251
}

/// Sum in the field.
pub open spec fn fadd(a: int, b: int) -> int {
    (a + b) % 251
}

/// Difference in the field.
pub open spec fn fsub(a: int, b: int) -> int {
    (a - b) % 251
}

/// Product in the field.
pub open spec fn fmul(a: int, b: int) -> int {
    (a * b) % 251
}

/// The multiplicative inverse of `a` in the field: the unique residue whose
/// product with `a` is 1. (For `a = 0 (mod 251)` no residue qualifies and
/// the value is arbitrary; the executable inverses reject 0.)
pub open spec fn finv(a: int) -> int {
    choose|t: int| 0 <= t < 251 && #[trigger] mul_spec(a, t) % 251 == 1
}

/// Two canonical inverses of the same residue are equal.
proof fn lemma_inverse_unique(a: int, t1: int, t2: int)
    requires
        0 <= t1 < 251,
        0 <= t2 < 251,
        (a * t1) % 251 == 1,
        (a * t2) % 251 == 1,
    ensures
        t1 == t2,
{
    let p = 251int;
    assert((t1 * (a * t2)) % p == ((t1 * a) % p * t2) % p) by {
        lemma_mul_is_associative(t1, a, t2);
        lemma_mul_mod_noop_left(t1 * a, t2, p);
    }
    assert(((t1 * a) % p * t2) % p == t2) by {
        lemma_mul_is_commutative(t1, a);
        assert(1 * t2 == t2);
        lemma_small_mod(t2 as nat, p as nat);
    }
    assert((t1 * (a * t2)) % p == t1) by {
        lemma_mul_mod_noop_right(t1, a * t2, p);
        assert(t1 * 1 == t1);
        lemma_small_mod(t1 as nat, p as nat);
    }
}

/// The value computed by an executable inverse is the field inverse.
proof fn lemma_is_finv(a: int, t: int)
    requires
        0 <= t < 251,
        (a * t) % 251 == 1,
    ensures
        finv(a) == t,
{
    assert(mul_spec(a, t) % 251 == 1);
    let tc = finv(a);
    assert(0 <= tc < 251 && mul_spec(a, tc) % 251 == 1) by {
        assert(exists|x: int| 0 <= x < 251 && #[trigger] mul_spec(a, x) % 251 == 1);
    }
    lemma_inverse_unique(a, t, tc);
}

impl FieldElement {
    /// The residue this element stands for.
    pub open spec fn v(self) -> int {
        self.0 as int
    }

    /// The element is canonically reduced.
    pub open spec fn wf(self) -> bool {
        0 <= self.0 < 251
    }

    /// Constructor handling negative numbers correctly: any integer is
    /// reduced into the canonical range `[0, P-1]`.
    pub fn new(num: i128) -> (r: Self)
        ensures
            r.wf(),
            r.v() == reduce(num as int),
    {
        if num == i128::MIN {
            proof {
                lemma_mod_of_negative(num as int, 251int);
            }
            FieldElement(MIN_RESIDUE)
        } else {
            let rem: u128 = if num >= 0 {
                (num as u128) % (PRIME as u128)
            } else {
                let m = ((-num) as u128) % (PRIME as u128);
                proof {
                    lemma_mod_of_negative(num as int, 251int);
                }
                if m == 0 {
                    0
                } else {
                    (PRIME as u128) - m
                }
            };
            FieldElement(rem as i128)
        }
    }

    /// Extended Euclidean algorithm for the modular inverse of a nonzero
    /// residue.
    pub fn inverse(&self) -> (r: Self)
        requires
            self.wf(),
            self.v() != 0,
        ensures
            r.wf(),
            fmul(self.v(), r.v()) == 1,
            r.v() == finv(self.v()),
    {
        // r is remainder, t is the coefficient
        let (mut t, mut new_t): (i128, i128) = (0, 1);
        let (mut r, mut new_r): (i128, i128) = (PRIME, self.0);

        proof {
            lemma_is_prime_251();
            lemma_small_nondivides(251, self.v());
            lemma_prime_coprime(251, self.v());
            lemma_small_mod(0nat, 251nat);
            lemma_small_mod(self.0 as nat, 251nat);
            lemma_mod_multiples_basic(1, 251int);
        }
        while new_r != 0
            invariant
                0 <= new_r <= 251,
                0 <= r <= 251,
                gcd(r as nat, new_r as nat) == 1,
                ((t as int) * (self.v())) % 251 == (r as int) % 251,
                ((new_t as int) * (self.v())) % 251 == (new_r as int) % 251,
                (t as int) * (new_t as int) <= 0,
                abs(t as int) * (new_r as int) + abs(new_t as int) * (r as int) <= 251,
                abs(t as int) <= 251,
                abs(new_t as int) <= 251,
            decreases new_r,
        {
            proof {
                vstd::arithmetic::div_mod::lemma_div_nonincreasing(r as int, new_r as int);
                vstd::arithmetic::div_mod::lemma_div_pos_is_pos(r as int, new_r as int);
            }
            let quotient = ((r as u128) / (new_r as u128)) as i128;
            proof {
                assert(quotient as int == (r as int) / (new_r as int));
                lemma_fundamental_div_mod(r as int, new_r as int);
                lemma_mod_bound(r as int, new_r as int);
                lemma_eea_congruence(t as int, new_t as int, r as int, new_r as int,
                    quotient as int, self.v(), 251int);
                lemma_eea_bounds(t as int, new_t as int, r as int, new_r as int,
                    quotient as int, 251int);
                lemma_gcd_step(r as int, new_r as int, quotient as int);
            }
            let next_t = t - quotient * new_t;
            t = new_t;
            new_t = next_t;
            let next_r = r - quotient * new_r;
            r = new_r;
            new_r = next_r;
        }

        // The gcd with the prime modulus is 1, so t is the inverse.
        proof {
            assert(gcd(r as nat, 0nat) == r as nat);
            assert(r == 1);
            lemma_small_mod(1nat, 251nat);
            if t == 251 {
                lemma_mul_is_commutative(251int, self.v());
                lemma_mod_multiples_basic(self.v(), 251int);
                assert(false);
            }
        }
        let coeff: i128 = if t < 0 {
            proof {
                assert(((t + 251) as int) * self.v() == self.v() * 251 + (t as int) * self.v())
                    by (nonlinear_arith);
                lemma_mod_multiples_vanish(self.v(), (t as int) * self.v(), 251int);
            }
            t + PRIME
        } else {
            t
        };
        proof {
            lemma_mul_is_commutative(coeff as int, self.v());
            lemma_is_finv(self.v(), coeff as int);
        }
        FieldElement::new(coeff)
    }

    /// The same extended-Euclidean inverse, with the coefficient pair rolled
    /// by explicit rebinding.
    pub fn eea_inv(&self) -> (r: Self)
        requires
            self.wf(),
            self.v() != 0,
        ensures
            r.wf(),
            fmul(self.v(), r.v()) == 1,
            r.v() == finv(self.v()),
    {
        let (mut old_t, mut new_t): (i128, i128) = (0, 1);
        let (mut old_r, mut new_r): (i128, i128) = (PRIME, self.0);

        proof {
            lemma_is_prime_251();
            lemma_small_nondivides(251, self.v());
            lemma_prime_coprime(251, self.v());
            lemma_small_mod(0nat, 251nat);
            lemma_small_mod(self.0 as nat, 251nat);
            lemma_mod_multiples_basic(1, 251int);
        }
        while new_r != 0
            invariant
                0 <= new_r <= 251,
                0 <= old_r <= 251,
                gcd(old_r as nat, new_r as nat) == 1,
                ((old_t as int) * (self.v())) % 251 == (old_r as int) % 251,
                ((new_t as int) * (self.v())) % 251 == (new_r as int) % 251,
                (old_t as int) * (new_t as int) <= 0,
                abs(old_t as int) * (new_r as int) + abs(new_t as int) * (old_r as int) <= 251,
                abs(old_t as int) <= 251,
                abs(new_t as int) <= 251,
            decreases new_r,
        {
            proof {
                vstd::arithmetic::div_mod::lemma_div_nonincreasing(old_r as int, new_r as int);
                vstd::arithmetic::div_mod::lemma_div_pos_is_pos(old_r as int, new_r as int);
            }
            let q = ((old_r as u128) / (new_r as u128)) as i128;
            proof {
                assert(q as int == (old_r as int) / (new_r as int));
                lemma_fundamental_div_mod(old_r as int, new_r as int);
                lemma_mod_bound(old_r as int, new_r as int);
                lemma_eea_congruence(old_t as int, new_t as int, old_r as int, new_r as int,
                    q as int, self.v(), 251int);
                lemma_eea_bounds(old_t as int, new_t as int, old_r as int, new_r as int,
                    q as int, 251int);
                lemma_gcd_step(old_r as int, new_r as int, q as int);
            }
            let next_t = old_t - q * new_t;
            old_t = new_t;
            new_t = next_t;
            let next_r = old_r - q * new_r;
            old_r = new_r;
            new_r = next_r;
        }

        proof {
            assert(gcd(old_r as nat, 0nat) == old_r as nat);
            assert(old_r == 1);
            lemma_small_mod(1nat, 251nat);
            if old_t == 251 {
                lemma_mul_is_commutative(251int, self.v());
                lemma_mod_multiples_basic(self.v(), 251int);
                assert(false);
            }
        }
        let coeff: i128 = if old_t < 0 {
            proof {
                assert(((old_t + 251) as int) * self.v() == self.v() * 251 + (old_t as int)
                    * self.v()) by (nonlinear_arith);
                lemma_mod_multiples_vanish(self.v(), (old_t as int) * self.v(), 251int);
            }
            old_t + PRIME
        } else {
            old_t
        };
        proof {
            lemma_mul_is_commutative(coeff as int, self.v());
            lemma_is_finv(self.v(), coeff as int);
        }
        FieldElement::new(coeff)
    }

    /// Field addition.
    pub fn add(self, other: Self) -> (r: Self)
        requires
            self.wf(),
            other.wf(),
        ensures
            r.wf(),
            r.v() == fadd(self.v(), other.v()),
    {
        FieldElement::new(self.0 + other.0)
    }

    /// Field subtraction.
    pub fn sub(self, other: Self) -> (r: Self)
        requires
            self.wf(),
            other.wf(),
        ensures
            r.wf(),
            r.v() == fsub(self.v(), other.v()),
    {
        FieldElement::new(self.0 - other.0)
    }

    /// Field multiplication.
    pub fn mul(self, other: Self) -> (r: Self)
        requires
            self.wf(),
            other.wf(),
        ensures
            r.wf(),
            r.v() == fmul(self.v(), other.v()),
    {
        proof {
            crate::number_theory::lemma_mul_bound(self.v(), other.v(), 251);
        }
        FieldElement::new(self.0 * other.0)
    }

    /// Field division: multiplication by the inverse.
    pub fn div(self, other: Self) -> (r: Self)
        requires
            self.wf(),
            other.wf(),
            other.v() != 0,
        ensures
            r.wf(),
            r.v() == fmul(self.v(), finv(other.v())),
    {
        self.mul(other.inverse())
    }
}

/// The running product of basis factors for the `j`-th Lagrange basis
/// polynomial, over the first `k` support points (skipping `j` itself):
/// each factor is `(x_target - x_i) / (x_j - x_i)`.
pub open spec fn basis_prefix(xt: int, pts: Seq<(FieldElement, FieldElement)>, j: int, k: int) -> int
    decreases k,
{
    if k <= 0 {
        1
    } else {
        let prev = basis_prefix(xt, pts, j, k - 1);
        if k - 1 == j {
            prev
        } else {
            fmul(prev, fmul(fsub(xt, pts[k - 1].0.v()), finv(fsub(pts[j].0.v(), pts[k - 1].0.v()))))
        }
    }
}

/// The partial interpolation sum over the first `k` support points:
/// `sum of y_j * L_j(x_target)`.
pub open spec fn interp_prefix(xt: int, pts: Seq<(FieldElement, FieldElement)>, k: int) -> int
    decreases k,
{
    if k <= 0 {
        0
    } else {
        fadd(
            interp_prefix(xt, pts, k - 1),
            fmul(pts[k - 1].1.v(), basis_prefix(xt, pts, k - 1, pts.len() as int)),
        )
    }
}

/// The full Lagrange interpolation value at `xt`.
pub open spec fn spec_lagrange(xt: int, pts: Seq<(FieldElement, FieldElement)>) -> int {
    interp_prefix(xt, pts, pts.len() as int)
}

/// The difference of two distinct canonical residues is a nonzero residue.
proof fn lemma_distinct_difference(a: int, b: int)
    requires
        0 <= a < 251,
        0 <= b < 251,
        a != b,
    ensures
        fsub(a, b) != 0,
{
    if a > b {
        lemma_small_mod((a - b) as nat, 251nat);
    } else {
        lemma_fundamental_div_mod_converse_mod(a - b, 251, -1, a - b + 251);
    }
}

/// Lagrange interpolation at `x_target` over support points with pairwise
/// distinct x-coordinates. Quadratic time.
pub fn lagrange_interpolate(
    x_target: FieldElement,
    points: &[(FieldElement, FieldElement)],
) -> (res: FieldElement)
    requires
        x_target.wf(),
        forall|i: int|
            0 <= i < points@.len() ==> (#[trigger] points@[i]).0.wf() && points@[i].1.wf(),
        forall|i: int, j: int|
            0 <= i < points@.len() && 0 <= j < points@.len() && i != j ==> (
            #[trigger] points@[i]).0.v() != (#[trigger] points@[j]).0.v(),
    ensures
        res.wf(),
        res.v() == spec_lagrange(x_target.v(), points@),
{
    let k = points.len();
    let mut result = FieldElement::new(0);

    let mut j: usize = 0;
    while j < k
        invariant
            x_target.wf(),
            k == points@.len(),
            j <= k,
            forall|i: int|
                0 <= i < points@.len() ==> (#[trigger] points@[i]).0.wf() && points@[i].1.wf(),
            forall|i: int, jj: int|
                0 <= i < points@.len() && 0 <= jj < points@.len() && i != jj ==> (
                #[trigger] points@[i]).0.v() != (#[trigger] points@[jj]).0.v(),
            result.wf(),
            result.v() == interp_prefix(x_target.v(), points@, j as int),
        decreases k - j,
    {
        let (x_j, y_j) = points[j];

        // Calculate basis polynomial L_j(x)
        let mut l_j = FieldElement::new(1);
        let mut i: usize = 0;
        while i < k
            invariant
                x_target.wf(),
                k == points@.len(),
                j < k,
                i <= k,
                (x_j, y_j) == points@[j as int],
                forall|ii: int|
                    0 <= ii < points@.len() ==> (#[trigger] points@[ii]).0.wf()
                        && points@[ii].1.wf(),
                forall|ii: int, jj: int|
                    0 <= ii < points@.len() && 0 <= jj < points@.len() && ii != jj ==> (
                    #[trigger] points@[ii]).0.v() != (#[trigger] points@[jj]).0.v(),
                l_j.wf(),
                l_j.v() == basis_prefix(x_target.v(), points@, j as int, i as int),
            decreases k - i,
        {
            if i != j {
                let (x_i, _) = points[i];
                // L_j(x) = product of (x_target - x_i) / (x_j - x_i)
                let numerator = x_target.sub(x_i);
                let denominator = x_j.sub(x_i);
                proof {
                    lemma_distinct_difference(x_j.v(), x_i.v());
                }
                l_j = l_j.mul(numerator.div(denominator));
            }
            i += 1;
        }

        // P(x) = sum of y_j * L_j(x)
        result = result.add(y_j.mul(l_j));
        j += 1;
    }
    result
}

} // verus!
