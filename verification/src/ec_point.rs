//! Affine short-Weierstrass curve arithmetic over the prime field of 17, for
//! the curve `y^2 = x^3 + 1`: the tagged point type with its point at
//! infinity, and the chord-and-tangent addition with its full geometric case
//! analysis (identity, vertical chord, vertical tangent, doubling, chord).

use vstd::prelude::*;
use vstd::arithmetic::power::{pow, lemma_pow0};
use vstd::arithmetic::div_mod::{lemma_small_mod, lemma_fundamental_div_mod_converse_mod};
use vstd::arithmetic::mul::lemma_mul_is_commutative;
use crate::number_theory::{lemma_pow_mod_even, lemma_pow_mod_odd, lemma_mul_bound,
    lemma_mod_of_negative, lemma_flt_17, lemma_fermat_inverse};

verus! {

/// Field modulus.
pub const P: i64 = 17;

/// Curve coefficient `a` in `y^2 = x^3 + a*x + b`.
pub const A: i64 = 0;

/// Curve coefficient `b`.
pub const B: i64 = 1;

#[derive(Debug, Clone, Copy, PartialEq, Eq, Structural)]
pub struct FieldElement {
    pub value: i64,
}

/// Canonical residue of `v` modulo 17.
pub open spec fn reduce(v: int) -> int {
    v % 17
}

/// Sum in the field.
pub open spec fn fadd(a: int, b: int) -> int {
    (a + b) % 17
}

/// Difference in the field.
pub open spec fn fsub(a: int, b: int) -> int {
    (a - b) % 17
}

/// Product in the field.
pub open spec fn fmul(a: int, b: int) -> int {
    (a * b) % 17
}

/// The Fermat inverse `a^(P-2) mod P`.
pub open spec fn finv(a: int) -> int {
    pow(a, 15) % 17
}

/// The field element standing for the residue `v`.
pub open spec fn fe(v: int) -> FieldElement {
    FieldElement { value: v as i64 }
}

/// `(x, y)` satisfies the curve equation `y^2 = x^3 + a*x + b` mod `P`.
pub open spec fn on_curve(x: int, y: int) -> bool {
    fmul(y, y) == fadd(fadd(fmul(fmul(x, x), x), fmul(A as int, x)), B as int)
}

impl FieldElement {
    /// The residue this element stands for.
    pub open spec fn v(self) -> int {
        self.value as int
    }

    /// The element is canonically reduced.
    pub open spec fn wf(self) -> bool {
        0 <= self.value < 17
    }

    /// Constructor reducing any integer, negative ones included, into the
    /// canonical range `[0, P-1]`.
    pub fn new(value: i64) -> (r: Self)
        ensures
            r.wf(),
            r.v() == reduce(value as int),
    {
        let res: u64 = if value >= 0 {
            (value as u64) % (P as u64)
        } else {
            let m = ((-(value as i128)) as u128 % (P as u128)) as u64;
            proof {
                lemma_mod_of_negative(value as int, 17int);
            }
            if m == 0 {
                0
            } else {
                (P as u64) - m
            }
        };
        FieldElement { value: res as i64 }
    }

    /// Multiplicative inverse via Fermat's little theorem, `a^(P-2) mod P`;
    /// the zero element has none and is rejected.
    pub fn inverse(&self) -> (r: Self)
        requires
            self.wf(),
            self.v() != 0,
        ensures
            r.wf(),
            r.v() == finv(self.v()),
            fmul(self.v(), r.v()) == 1,
    {
        let ghost goal: int = pow(self.value as int, 15) % 17;
        let mut base: u64 = self.value as u64;
        let mut exp: u64 = (P as u64) - 2;
        let mut res: u64 = 1;

        while exp > 0
            invariant
                base < 17,
                res < 17,
                (res * pow(base as int, exp as nat)) % 17 == goal,
            decreases exp,
        {
            proof {
                lemma_mul_bound(res as int, base as int, 17);
                lemma_mul_bound(base as int, base as int, 17);
                if exp % 2 == 1 {
                    lemma_pow_mod_odd(res as int, base as int, exp as nat, 17);
                } else {
                    lemma_pow_mod_even(res as int, base as int, exp as nat, 17);
                }
            }
            if exp % 2 == 1 {
                res = (res * base) % (P as u64);
            }
            base = (base * base) % (P as u64);
            exp = exp / 2;
        }
        proof {
            lemma_pow0(base as int);
            lemma_small_mod(res as nat, 17);
            lemma_flt_17(self.v());
            lemma_fermat_inverse(self.v(), 17);
            lemma_mul_is_commutative(finv(self.v()), self.v());
        }
        FieldElement { value: res as i64 }
    }

    /// Field addition.
    pub fn add(self, other: Self) -> (r: Self)
        requires
            self.wf(),
            other.wf(),
        ensures
            r.wf(),
            r.v() == fadd(self.v(), other.v()),
    {
        FieldElement::new(self.value + other.value)
    }

    /// Field subtraction.
    pub fn sub(self, other: Self) -> (r: Self)
        requires
            self.wf(),
            other.wf(),
        ensures
            r.wf(),
            r.v() == fsub(self.v(), other.v()),
    {
        FieldElement::new(self.value - other.value)
    }

    /// Field multiplication.
    pub fn mul(self, other: Self) -> (r: Self)
        requires
            self.wf(),
            other.wf(),
        ensures
            r.wf(),
            r.v() == fmul(self.v(), other.v()),
    {
        proof {
            lemma_mul_bound(self.v(), other.v(), 17);
        }
        FieldElement::new(self.value * other.value)
    }

    /// Field division: multiplication by the inverse of the divisor.
    pub fn div(self, other: Self) -> (r: Self)
        requires
            self.wf(),
            other.wf(),
            other.v() != 0,
        ensures
            r.wf(),
            r.v() == fmul(self.v(), finv(other.v())),
    {
        self.mul(other.inverse())
    }
}

/// A point of the curve group: finite `(x, y)` or the point at infinity,
/// which is the group identity.
#[derive(Debug, Clone, Copy, PartialEq, Eq, Structural)]
pub enum ECPoint {
    Infinity,
    Point { x: FieldElement, y: FieldElement },
}

/// The group law in the affine chord-and-tangent form, mirroring the
/// reduction order of the executable code.
pub open spec fn spec_ec_add(p: ECPoint, q: ECPoint) -> ECPoint {
    match (p, q) {
        (ECPoint::Infinity, _) => q,
        (_, ECPoint::Infinity) => p,
        (ECPoint::Point { x: x1, y: y1 }, ECPoint::Point { x: x2, y: y2 }) => {
            if x1 == x2 {
                if y1 != y2 {
                    // vertical chord through P and -P
                    ECPoint::Infinity
                } else if y1.v() == 0 {
                    // vertical tangent at a point of order 2
                    ECPoint::Infinity
                } else {
                    // tangent: s = (3*x1^2 + a) / (2*y1)
                    let s = fmul(
                        fadd(fmul(fmul(3, x1.v()), x1.v()), reduce(A as int)),
                        finv(fmul(2, y1.v())),
                    );
                    let x3 = fsub(fmul(s, s), fmul(2, x1.v()));
                    let y3 = fsub(fmul(s, fsub(x1.v(), x3)), y1.v());
                    ECPoint::Point { x: fe(x3), y: fe(y3) }
                }
            } else {
                // chord: s = (y2 - y1) / (x2 - x1)
                let s = fmul(fsub(y2.v(), y1.v()), finv(fsub(x2.v(), x1.v())));
                let x3 = fsub(fsub(fmul(s, s), x1.v()), x2.v());
                let y3 = fsub(fmul(s, fsub(x1.v(), x3)), y1.v());
                ECPoint::Point { x: fe(x3), y: fe(y3) }
            }
        },
    }
}

impl ECPoint {
    /// Coordinates are canonically reduced.
    pub open spec fn wf(self) -> bool {
        match self {
            ECPoint::Infinity => true,
            ECPoint::Point { x, y } => x.wf() && y.wf(),
        }
    }

    /// Build the finite point with the given (arbitrary, reduced on entry)
    /// integer coordinates.
    pub fn new(x: i64, y: i64) -> (r: Self)
        ensures
            r.wf(),
            r == (ECPoint::Point { x: fe(reduce(x as int)), y: fe(reduce(y as int)) }),
    {
        ECPoint::Point {
            x: FieldElement::new(x),
            y: FieldElement::new(y),
        }
    }

    /// The group law: the identity is neutral; opposite points and vertical
    /// tangents give the identity; an equal pair is doubled by the tangent
    /// slope; distinct x-coordinates use the chord slope.
    pub fn add(self, other: Self) -> (r: Self)
        requires
            self.wf(),
            other.wf(),
        ensures
            r.wf(),
            r == spec_ec_add(self, other),
    {
        match (self, other) {
            (ECPoint::Infinity, _) => other,
            (_, ECPoint::Infinity) => self,
            (ECPoint::Point { x: x1, y: y1 }, ECPoint::Point { x: x2, y: y2 }) => {
                if x1 == x2 {
                    if y1 != y2 {
                        return ECPoint::Infinity;
                    }
                    if y1.value == 0 {
                        return ECPoint::Infinity;
                    }
                    proof {
                        lemma_double_denominator_nonzero(y1.v());
                    }
                    let s = FieldElement::new(3).mul(x1).mul(x1).add(FieldElement::new(A)).div(
                        FieldElement::new(2).mul(y1),
                    );
                    let x3 = s.mul(s).sub(FieldElement::new(2).mul(x1));
                    let y3 = s.mul(x1.sub(x3)).sub(y1);
                    return ECPoint::Point { x: x3, y: y3 };
                } else {
                    proof {
                        lemma_chord_denominator_nonzero(x1.v(), x2.v());
                    }
                    let s = y2.sub(y1).div(x2.sub(x1));
                    let x3 = s.mul(s).sub(x1).sub(x2);
                    let y3 = s.mul(x1.sub(x3)).sub(y1);
                    return ECPoint::Point { x: x3, y: y3 };
                }
            },
        }
    }
}

/// Twice a nonzero residue mod 17 is nonzero: the tangent denominator of the
/// doubling case never vanishes on an odd-order field.
proof fn lemma_double_denominator_nonzero(y: int)
    requires
        1 <= y < 17,
    ensures
        fmul(2, y) != 0,
{
    if 2 * y < 17 {
        lemma_small_mod((2 * y) as nat, 17);
    } else {
        lemma_fundamental_div_mod_converse_mod(2 * y, 17, 1, 2 * y - 17);
    }
}

/// The difference of two distinct residues mod 17 is nonzero: the chord
/// denominator never vanishes.
proof fn lemma_chord_denominator_nonzero(x1: int, x2: int)
    requires
        0 <= x1 < 17,
        0 <= x2 < 17,
        x1 != x2,
    ensures
        fsub(x2, x1) != 0,
{
    if x2 > x1 {
        lemma_small_mod((x2 - x1) as nat, 17);
    } else {
        lemma_fundamental_div_mod_converse_mod(x2 - x1, 17, -1, x2 - x1 + 17);
    }
}

/// Law: the identity is neutral, `P.add(Infinity) == P` and
/// `Infinity.add(P) == P`, for every point.
pub proof fn lemma_ec_add_identity(p: ECPoint)
    ensures
        spec_ec_add(p, ECPoint::Infinity) == p,
        spec_ec_add(ECPoint::Infinity, p) == p,
{
}

/// Law: every finite point on the curve plus its reflection
/// `(x, -y mod P)` is the identity.
pub proof fn lemma_ec_add_inverse(x: FieldElement, y: FieldElement)
    requires
        x.wf(),
        y.wf(),
        on_curve(x.v(), y.v()),
    ensures
        spec_ec_add(
            ECPoint::Point { x, y },
            ECPoint::Point { x, y: fe(reduce(-y.v())) },
        ) == ECPoint::Infinity,
{
    let ny = reduce(-y.v());
    if y.v() == 0 {
        assert(ny == 0) by {
            lemma_small_mod(0nat, 17);
        }
        assert(fe(ny) == y);
    } else {
        lemma_mod_of_negative(-y.v(), 17);
        assert(ny == 17 - y.v()) by {
            lemma_small_mod(y.v() as nat, 17);
        }
        assert(fe(ny) != y);
    }
}

} // verus!
