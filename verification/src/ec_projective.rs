//! Short-Weierstrass curve arithmetic over the prime field of 211, for the
//! curve `y^2 = x^3 + 4`: affine and projective point representations, the
//! conversions between them, projective doubling, addition and double-and-add
//! scalar multiplication, with the group-law corner cases (identity, vertical
//! chords, the literal-triple doubling shortcut) pinned down in the contracts.

use vstd::prelude::*;
use vstd::arithmetic::power::{pow, lemma_pow0, lemma_pow_adds, lemma_pow1, lemma1_pow,
    lemma_pow_distributes, lemma_pow_mod_noop};
use vstd::arithmetic::div_mod::{lemma_small_mod, lemma_mul_mod_noop_left,
    lemma_mul_mod_noop_right, lemma_mul_mod_noop_general};
use vstd::arithmetic::mul::lemma_mul_is_commutative;
use crate::number_theory::{lemma_pow_mod_even, lemma_pow_mod_odd, lemma_mul_bound,
    lemma_mod_of_negative, lemma_flt_211, lemma_fermat_inverse, lemma_is_prime_211,
    lemma_multiple_nonzero};

verus! {

/// Field modulus.
pub const P: i128 = 211;

/// Curve coefficient `a` in `y^2 = x^3 + a*x + b`.
pub const A: i128 = 0;

/// Curve coefficient `b`.
pub const B: i128 = 4;

/// Residue of `i128::MIN` modulo 211, needed to reduce the one value whose
/// magnitude does not fit in `i128`.
const MIN_RESIDUE: i128 = 46;

#[derive(Debug, Clone, Copy, PartialEq, Eq, Structural)]
pub struct FieldElement {
    pub value: i128,
}

/// Canonical residue of `v` modulo 211.
pub open spec fn reduce(v: int) -> int {
    v % 211
}

/// Sum in the field.
pub open spec fn fadd(a: int, b: int) -> int {
    (a + b) % 211
}

/// Difference in the field.
pub open spec fn fsub(a: int, b: int) -> int {
    (a - b) % 211
}

/// Product in the field.
pub open spec fn fmul(a: int, b: int) -> int {
    (a * b) % 211
}

/// The Fermat inverse `a^(P-2) mod P`.
pub open spec fn finv(a: int) -> int {
    pow(a, 209) % 211
}

/// The field element standing for the residue `v`.
pub open spec fn fe(v: int) -> FieldElement {
    FieldElement { value: v as i128 }
}

impl FieldElement {
    /// The residue this element stands for.
    pub open spec fn v(self) -> int {
        self.value as int
    }

    /// The element is canonically reduced.
    pub open spec fn wf(self) -> bool {
        0 <= self.value < 211
    }

    /// Constructor reducing any integer, negative ones included, into the
    /// canonical range `[0, P-1]`.
    pub fn new(value: i128) -> (r: Self)
        ensures
            r.wf(),
            r.v() == reduce(value as int),
    {
        if value == i128::MIN {
            proof {
                lemma_mod_of_negative(value as int, 211int);
            }
            FieldElement { value: MIN_RESIDUE }
        } else {
            let res: u128 = if value >= 0 {
                (value as u128) % (P as u128)
            } else {
                let m = ((-value) as u128) % (P as u128);
                proof {
                    lemma_mod_of_negative(value as int, 211int);
                }
                if m == 0 {
                    0
                } else {
                    (P as u128) - m
                }
            };
            FieldElement { value: res as i128 }
        }
    }

    /// Multiplicative inverse via Fermat's little theorem, `a^(P-2) mod P`;
    /// the zero element has none and is rejected.
    pub fn inverse(&self) -> (r: Self)
        requires
            self.wf(),
            self.v() != 0,
        ensures
            r.wf(),
            r.v() == finv(self.v()),
            fmul(self.v(), r.v()) == 1,
    {
        let ghost goal: int = pow(self.value as int, 209) % 211;
        let mut base: u128 = self.value as u128;
        let mut exp: u128 = (P as u128) - 2;
        let mut res: u128 = 1;

        while exp > 0
            invariant
                base < 211,
                res < 211,
                (res * pow(base as int, exp as nat)) % 211 == goal,
            decreases exp,
        {
            proof {
                lemma_mul_bound(res as int, base as int, 211);
                lemma_mul_bound(base as int, base as int, 211);
                if exp % 2 == 1 {
                    lemma_pow_mod_odd(res as int, base as int, exp as nat, 211);
                } else {
                    lemma_pow_mod_even(res as int, base as int, exp as nat, 211);
                }
            }
            if exp % 2 == 1 {
                res = (res * base) % (P as u128);
            }
            base = (base * base) % (P as u128);
            exp = exp / 2;
        }
        proof {
            lemma_pow0(base as int);
            lemma_small_mod(res as nat, 211);
            lemma_flt_211(self.v());
            lemma_fermat_inverse(self.v(), 211);
            lemma_mul_is_commutative(finv(self.v()), self.v());
        }
        FieldElement { value: res as i128 }
    }

    /// Whether this is the zero residue; used to spot vanishing coordinate
    /// differences in the projective addition.
    pub fn is_zero(&self) -> (r: bool)
        ensures
            r == (self.v() == 0),
    {
        self.value == 0
    }

    /// Field addition.
    pub fn add(self, other: Self) -> (r: Self)
        requires
            self.wf(),
            other.wf(),
        ensures
            r.wf(),
            r.v() == fadd(self.v(), other.v()),
    {
        FieldElement::new(self.value + other.value)
    }

    /// Field subtraction.
    pub fn sub(self, other: Self) -> (r: Self)
        requires
            self.wf(),
            other.wf(),
        ensures
            r.wf(),
            r.v() == fsub(self.v(), other.v()),
    {
        FieldElement::new(self.value - other.value)
    }

    /// Field multiplication.
    pub fn mul(self, other: Self) -> (r: Self)
        requires
            self.wf(),
            other.wf(),
        ensures
            r.wf(),
            r.v() == fmul(self.v(), other.v()),
    {
        proof {
            lemma_mul_bound(self.v(), other.v(), 211);
        }
        FieldElement::new(self.value * other.value)
    }

    /// Field division: multiplication by the inverse of the divisor.
    pub fn div(self, other: Self) -> (r: Self)
        requires
            self.wf(),
            other.wf(),
            other.v() != 0,
        ensures
            r.wf(),
            r.v() == fmul(self.v(), finv(other.v())),
    {
        self.mul(other.inverse())
    }
}

/// Affine point: `(x, y)` or the point at infinity.
#[derive(Debug, Clone, Copy, PartialEq, Eq, Structural)]
pub enum AffinePoint {
    Infinity,
    Point { x: FieldElement, y: FieldElement },
}

impl AffinePoint {
    /// Coordinates are canonically reduced.
    pub open spec fn wf(self) -> bool {
        match self {
            AffinePoint::Infinity => true,
            AffinePoint::Point { x, y } => x.wf() && y.wf(),
        }
    }
}

/// Projective point `(X : Y : Z)`, standing for the affine point
/// `(X/Z, Y/Z)` when `Z != 0` and for the identity when `Z == 0`.
#[derive(Debug, Clone, Copy, PartialEq, Eq, Structural)]
pub struct ProjectivePoint {
    pub x: FieldElement,
    pub y: FieldElement,
    pub z: FieldElement,
}

/// The canonical representative of the identity, `(0 : 1 : 0)`.
pub open spec fn spec_infinity() -> ProjectivePoint {
    ProjectivePoint { x: FieldElement { value: 0 }, y: FieldElement { value: 1 }, z: FieldElement { value: 0 } }
}

/// Projective doubling by the `a = 0` short-Weierstrass formulas, mirroring
/// the reduction order of the executable code.
pub open spec fn spec_double(p: ProjectivePoint) -> ProjectivePoint {
    if p.z.v() == 0 {
        spec_infinity()
    } else {
        let x = p.x.v();
        let y = p.y.v();
        let z = p.z.v();
        let w = fadd(fmul(fmul(3, x), x), reduce(A as int));
        let s = fmul(y, z);
        let bb = fmul(fmul(x, y), s);
        let h = fsub(fmul(w, w), fmul(8, bb));
        let x3 = fmul(fmul(2, h), s);
        let y3 = fsub(fmul(w, fsub(fmul(4, bb), h)), fmul(fmul(fmul(fmul(8, y), y), s), s));
        let z3 = fmul(fmul(fmul(8, s), s), s);
        ProjectivePoint { x: fe(x3), y: fe(y3), z: fe(z3) }
    }
}

/// Projective chord-and-tangent addition: identity cases, the literal
/// stored-triple shortcut to doubling, the equal-x cases, then the general
/// formula, mirroring the executable reduction order.
pub open spec fn spec_add(p: ProjectivePoint, q: ProjectivePoint) -> ProjectivePoint {
    if p.z.v() == 0 {
        q
    } else if q.z.v() == 0 {
        p
    } else if p == q {
        spec_double(p)
    } else {
        let u = fsub(fmul(q.y.v(), p.z.v()), fmul(p.y.v(), q.z.v()));
        let v = fsub(fmul(q.x.v(), p.z.v()), fmul(p.x.v(), q.z.v()));
        if v == 0 {
            if u == 0 {
                spec_double(p)
            } else {
                spec_infinity()
            }
        } else {
            let v2 = fmul(v, v);
            let v3 = fmul(v2, v);
            let z1z2 = fmul(p.z.v(), q.z.v());
            let a = fsub(
                fsub(fmul(fmul(u, u), z1z2), v3),
                fmul(fmul(fmul(2, v2), p.x.v()), q.z.v()),
            );
            let x3 = fmul(v, a);
            let y3 = fsub(
                fmul(u, fsub(fmul(fmul(v2, p.x.v()), q.z.v()), a)),
                fmul(fmul(v3, p.y.v()), q.z.v()),
            );
            let z3 = fmul(v3, z1z2);
            ProjectivePoint { x: fe(x3), y: fe(y3), z: fe(z3) }
        }
    }
}

/// The double-and-add accumulator: the value after consuming the bits of `k`
/// least-significant first.
pub open spec fn spec_dbl_add(acc: ProjectivePoint, pt: ProjectivePoint, k: nat) -> ProjectivePoint
    decreases k,
{
    if k == 0 {
        acc
    } else {
        spec_dbl_add(
            if k % 2 == 1 {
                spec_add(acc, pt)
            } else {
                acc
            },
            spec_double(pt),
            k / 2,
        )
    }
}

/// Scalar multiplication: identity for the identity point or a zero scalar,
/// else double-and-add from the canonical identity.
pub open spec fn spec_scalar_mul(p: ProjectivePoint, k: nat) -> ProjectivePoint {
    if p.z.v() == 0 || k == 0 {
        spec_infinity()
    } else {
        spec_dbl_add(spec_infinity(), p, k)
    }
}

/// The affine point a projective triple stands for: the identity if the
/// reduced `Z` is zero, else `(X/Z, Y/Z)` through the Fermat inverse.
pub open spec fn spec_to_affine(p: ProjectivePoint) -> AffinePoint {
    let x = reduce(p.x.v());
    let y = reduce(p.y.v());
    let z = reduce(p.z.v());
    if z == 0 {
        AffinePoint::Infinity
    } else {
        AffinePoint::Point { x: fe(fmul(x, finv(z))), y: fe(fmul(y, finv(z))) }
    }
}

/// The projective triple standing for an affine point: `(x : y : 1)`, and
/// `(0 : 1 : 0)` for the identity.
pub open spec fn spec_from_affine(p: AffinePoint) -> ProjectivePoint {
    match p {
        AffinePoint::Infinity => spec_infinity(),
        AffinePoint::Point { x, y } => ProjectivePoint { x, y, z: FieldElement { value: 1 } },
    }
}

impl ProjectivePoint {
    /// All coordinates canonically reduced.
    pub open spec fn wf(self) -> bool {
        self.x.wf() && self.y.wf() && self.z.wf()
    }

    /// The canonical identity representative `(0 : 1 : 0)`.
    pub fn infinity() -> (r: Self)
        ensures
            r == spec_infinity(),
            r.wf(),
    {
        Self {
            x: FieldElement::new(0),
            y: FieldElement::new(1),
            z: FieldElement::new(0),
        }
    }

    /// A triple stands for the identity exactly when `Z == 0`.
    pub fn is_infinity(&self) -> (r: bool)
        ensures
            r == (self.z.v() == 0),
    {
        self.z.value == 0
    }

    /// Point doubling by the projective `a = 0` formulas; the identity
    /// doubles to the identity.
    pub fn double(&self) -> (r: Self)
        requires
            self.wf(),
        ensures
            r.wf(),
            r == spec_double(*self),
    {
        if self.is_infinity() {
            return Self::infinity();
        }
        let w = FieldElement::new(3).mul(self.x).mul(self.x).add(FieldElement::new(A));
        let s = self.y.mul(self.z);
        let b = self.x.mul(self.y).mul(s);
        let h = w.mul(w).sub(FieldElement::new(8).mul(b));
        let x3 = FieldElement::new(2).mul(h).mul(s);
        let y3 = w.mul(FieldElement::new(4).mul(b).sub(h)).sub(
            FieldElement::new(8).mul(self.y).mul(self.y).mul(s).mul(s),
        );
        let z3 = FieldElement::new(8).mul(s).mul(s).mul(s);
        ProjectivePoint { x: x3, y: y3, z: z3 }
    }

    /// Point addition. The identity is neutral on either side; a pair that is
    /// literally the same stored triple is doubled (two different triples for
    /// the same affine point fall through to the general formula); equal
    /// reduced x-coordinates give a doubling or, for a vertical chord, the
    /// identity; otherwise the general chord formula applies.
    pub fn add(&self, other: &Self) -> (r: Self)
        requires
            self.wf(),
            other.wf(),
        ensures
            r.wf(),
            r == spec_add(*self, *other),
    {
        if self.is_infinity() {
            return *other;
        }
        if other.is_infinity() {
            return *self;
        }
        if self == other {
            return self.double();
        }
        // change in y
        let u = other.y.mul(self.z).sub(self.y.mul(other.z));
        // change in x
        let v = other.x.mul(self.z).sub(self.x.mul(other.z));
        if v.is_zero() {
            if u.is_zero() {
                return self.double();
            } else {
                // a vertical chord meets the curve again at infinity
                return Self::infinity();
            }
        }
        let v2 = v.mul(v);
        let v3 = v2.mul(v);
        let z1z2 = self.z.mul(other.z);
        let a = u.mul(u).mul(z1z2).sub(v3).sub(
            FieldElement::new(2).mul(v2).mul(self.x).mul(other.z),
        );
        let x3 = v.mul(a);
        let y3 = u.mul(v2.mul(self.x).mul(other.z).sub(a)).sub(v3.mul(self.y).mul(other.z));
        let z3 = v3.mul(z1z2);
        ProjectivePoint { x: x3, y: y3, z: z3 }
    }

    /// Double-and-add scalar multiplication over the bits of the scalar,
    /// least significant first.
    pub fn scalar_mul(&self, scalar: u64) -> (r: Self)
        requires
            self.wf(),
        ensures
            r.wf(),
            r == spec_scalar_mul(*self, scalar as nat),
    {
        if self.is_infinity() || scalar == 0 {
            return Self::infinity();
        }
        let ghost k0: nat = scalar as nat;
        let mut result = Self::infinity();
        let mut point = *self;
        let mut scalar = scalar;
        while scalar > 0
            invariant
                result.wf(),
                point.wf(),
                spec_dbl_add(result, point, scalar as nat) == spec_scalar_mul(*self, k0),
            decreases scalar,
        {
            if scalar % 2 == 1 {
                result = result.add(&point);
            }
            point = point.double();
            scalar = scalar / 2;
        }
        result
    }
}

impl From<AffinePoint> for ProjectivePoint {
    /// Lift an affine point into projective coordinates:
    /// `(x, y) -> (x : y : 1)`, infinity to `(0 : 1 : 0)`.
    fn from(p: AffinePoint) -> (r: Self) {
        match p {
            AffinePoint::Infinity => Self::infinity(),
            AffinePoint::Point { x, y } => Self { x, y, z: FieldElement::new(1) },
        }
    }
}

impl vstd::std_specs::convert::FromSpecImpl<AffinePoint> for ProjectivePoint {
    open spec fn obeys_from_spec() -> bool {
        true
    }

    open spec fn from_spec(p: AffinePoint) -> Self {
        spec_from_affine(p)
    }
}

impl From<ProjectivePoint> for AffinePoint {
    /// Canonicalize a projective triple back to affine coordinates:
    /// `(X : Y : Z) -> (X/Z, Y/Z)` for `Z != 0`, and infinity for `Z == 0`.
    fn from(p: ProjectivePoint) -> (r: Self) {
        let x = FieldElement::new(p.x.value);
        let y = FieldElement::new(p.y.value);
        let z = FieldElement::new(p.z.value);
        if z.is_zero() {
            AffinePoint::Infinity
        } else {
            let z_inv = z.inverse();
            AffinePoint::Point { x: x.mul(z_inv), y: y.mul(z_inv) }
        }
    }
}

impl vstd::std_specs::convert::FromSpecImpl<ProjectivePoint> for AffinePoint {
    open spec fn obeys_from_spec() -> bool {
        true
    }

    open spec fn from_spec(p: ProjectivePoint) -> Self {
        spec_to_affine(p)
    }
}

/// Law: the identity is neutral for point addition: `P.add(Infinity) == P`
/// and `Infinity.add(P) == P`, for every finite point and for the canonical
/// identity itself.
pub proof fn lemma_add_identity(p: ProjectivePoint)
    requires
        p.z.v() != 0 || p == spec_infinity(),
    ensures
        spec_add(p, spec_infinity()) == p,
        spec_add(spec_infinity(), p) == p,
{
}

/// Law: multiplying by the scalar 2 is doubling, `scalar_mul(P, 2) ==
/// double(P)`, as stored triples and hence also after affine conversion.
pub proof fn lemma_scalar_mul_two(p: ProjectivePoint)
    ensures
        spec_scalar_mul(p, 2) == spec_double(p),
{
    if p.z.v() == 0 {
    } else {
        let d = spec_double(p);
        assert(spec_dbl_add(spec_infinity(), p, 2) == spec_dbl_add(spec_infinity(), d, 1));
        assert(spec_dbl_add(spec_infinity(), d, 1) == spec_dbl_add(
            spec_add(spec_infinity(), d),
            spec_double(d),
            0,
        ));
        assert(spec_add(spec_infinity(), d) == d);
    }
}

/// Law: converting an affine point to projective coordinates and back is the
/// identity on finite points.
pub proof fn lemma_affine_round_trip(x: FieldElement, y: FieldElement)
    requires
        x.wf(),
        y.wf(),
    ensures
        spec_to_affine(spec_from_affine(AffinePoint::Point { x, y })) == (AffinePoint::Point {
            x,
            y,
        }),
{
    let p = spec_from_affine(AffinePoint::Point { x, y });
    lemma_small_mod(x.v() as nat, 211);
    lemma_small_mod(y.v() as nat, 211);
    lemma_small_mod(1nat, 211);
    assert(finv(1) == 1) by {
        lemma1_pow(209);
        lemma_small_mod(1nat, 211);
    }
    assert(fmul(x.v(), 1) == x.v()) by {
        lemma_small_mod(x.v() as nat, 211);
    }
    assert(fmul(y.v(), 1) == y.v()) by {
        lemma_small_mod(y.v() as nat, 211);
    }
    assert(fe(x.v()) == x);
    assert(fe(y.v()) == y);
}

/// Law: scaling a projective triple by a nonzero residue does not change the
/// affine point it stands for.
pub proof fn lemma_scaled_triple(p: ProjectivePoint, k: int)
    requires
        p.wf(),
        1 <= k < 211,
    ensures
        spec_to_affine(
            ProjectivePoint {
                x: fe(fmul(k, p.x.v())),
                y: fe(fmul(k, p.y.v())),
                z: fe(fmul(k, p.z.v())),
            },
        ) == (spec_to_affine(p)),
{
    lemma_is_prime_211();
    let x = p.x.v();
    let y = p.y.v();
    let z = p.z.v();
    lemma_small_mod(x as nat, 211);
    lemma_small_mod(y as nat, 211);
    lemma_small_mod(z as nat, 211);
    lemma_small_mod((fmul(k, x)) as nat, 211);
    lemma_small_mod((fmul(k, y)) as nat, 211);
    lemma_small_mod((fmul(k, z)) as nat, 211);
    if z == 0 {
        assert(fmul(k, 0) == 0) by {
            assert(k * 0 == 0) by (nonlinear_arith);
        }
    } else {
        lemma_multiple_nonzero(k, 211, z);
        lemma_scaled_coordinate(k, x, z);
        lemma_scaled_coordinate(k, y, z);
    }
}

/// One coordinate of the scaled-triple law: `(k*c) * ((k*z)^(P-2)) ==
/// c * z^(P-2)` mod `P`, for a nonzero scale `k`.
proof fn lemma_scaled_coordinate(k: int, c: int, z: int)
    requires
        1 <= k < 211,
        0 <= c < 211,
        1 <= z < 211,
    ensures
        fmul(fmul(k, c), finv(fmul(k, z))) == fmul(c, finv(z)),
{
    let p = 211int;
    // Strip the inner reductions from both factors.
    assert(fmul(fmul(k, c), finv(fmul(k, z))) == ((k * c) * pow(k * z, 209)) % p) by {
        lemma_pow_mod_noop(k * z, 209, p);
        lemma_mul_mod_noop_general(k * c, pow(fmul(k, z), 209), p);
        lemma_mul_mod_noop_general(k * c, pow(k * z, 209), p);
    }
    // (k*c) * (k*z)^209 == c * (k^210 * z^209)
    assert((k * c) * pow(k * z, 209) == c * (pow(k, 210) * pow(z, 209))) by {
        lemma_pow_distributes(k, z, 209);
        lemma_pow1(k);
        lemma_pow_adds(k, 1, 209);
        let pk = pow(k, 209);
        let pz = pow(z, 209);
        assert(k * pk == pow(k, 210));
        assert((k * c) * (pk * pz) == c * ((k * pk) * pz)) by (nonlinear_arith);
    }
    // Reduce k^210 to 1 by Fermat's little theorem.
    assert((c * (pow(k, 210) * pow(z, 209))) % p == (c * pow(z, 209)) % p) by {
        lemma_flt_211(k);
        lemma_mul_mod_noop_right(c, pow(k, 210) * pow(z, 209), p);
        lemma_mul_mod_noop_general(pow(k, 210), pow(z, 209), p);
        lemma_mul_mod_noop_general(1, pow(z, 209) % p, p);
        assert((pow(k, 210) * pow(z, 209)) % p == ((pow(k, 210) % p) * (pow(z, 209) % p)) % p);
        assert(((1) * (pow(z, 209) % p)) % p == (pow(z, 209) % p) % p);
        lemma_mul_mod_noop_right(c, pow(z, 209) % p, p);
        lemma_mul_mod_noop_right(c, pow(z, 209), p);
    }
    assert(fmul(c, finv(z)) == (c * pow(z, 209)) % p) by {
        lemma_mul_mod_noop_right(c, pow(z, 209), p);
    }
}

/// Negation mod 211 appears as multiplication by 210: swapping the operands
/// of a reduced difference multiplies it by `-1`.
proof fn lemma_neg_sub(a: int, b: int)
    ensures
        fsub(b, a) == fmul(210, fsub(a, b)),
{
    lemma_mul_mod_noop_right(210, a - b, 211);
    assert(210 * (a - b) == 211 * (a - b) + (b - a)) by (nonlinear_arith);
    vstd::arithmetic::div_mod::lemma_mod_multiples_vanish(a - b, b - a, 211);
}

/// A factor of 210 pulls out of a reduced product on the left.
proof fn lemma_neg_mul_left(s: int, t: int)
    ensures
        fmul(fmul(210, s), t) == fmul(210, fmul(s, t)),
{
    lemma_mul_mod_noop_general(210 * s, t, 211);
    assert((210 * s) * t == 210 * (s * t)) by (nonlinear_arith);
    lemma_mul_mod_noop_general(210, s * t, 211);
    lemma_small_mod(210nat, 211nat);
}

/// A factor of 210 pulls out of a reduced product on the right.
proof fn lemma_neg_mul_right(s: int, t: int)
    ensures
        fmul(s, fmul(210, t)) == fmul(210, fmul(s, t)),
{
    lemma_mul_mod_noop_general(s, 210 * t, 211);
    assert(s * (210 * t) == 210 * (s * t)) by (nonlinear_arith);
    lemma_mul_mod_noop_general(210, s * t, 211);
    lemma_small_mod(210nat, 211nat);
}

/// Two factors of 210 cancel: `(-s) * (-t) = s * t` in the field.
proof fn lemma_neg_neg_mul(s: int, t: int)
    ensures
        fmul(fmul(210, s), fmul(210, t)) == fmul(s, t),
{
    lemma_mul_mod_noop_general(210 * s, 210 * t, 211);
    assert((210 * s) * (210 * t) == 211 * (209 * (s * t)) + s * t) by (nonlinear_arith);
    vstd::arithmetic::div_mod::lemma_mod_multiples_vanish(209 * (s * t), s * t, 211);
}

/// Negating a reduced difference of reduced products distributes:
/// `(-A) - (-B) = -(A - B)` in the field.
proof fn lemma_neg_sub_pair(a: int, b: int)
    ensures
        fsub(fmul(210, a), fmul(210, b)) == fmul(210, fsub(a, b)),
{
    vstd::arithmetic::div_mod::lemma_sub_mod_noop(210 * a, 210 * b, 211);
    assert(210 * a - 210 * b == 210 * (a - b)) by (nonlinear_arith);
    lemma_mul_mod_noop_right(210, a - b, 211);
}

/// Multiplication by 210 is injective at 0: only the zero residue negates
/// to zero.
proof fn lemma_neg_zero(t: int)
    requires
        0 <= t < 211,
        fmul(210, t) == 0,
    ensures
        t == 0,
{
    lemma_neg_sub(t, 0);
    lemma_small_mod(0nat, 211nat);
    assert(fsub(0, t) == fmul(210, fsub(t, 0)));
    assert(fsub(t, 0) == t) by {
        lemma_small_mod(t as nat, 211nat);
    }
    if t != 0 {
        vstd::arithmetic::div_mod::lemma_fundamental_div_mod_converse_mod(-t, 211, -1, 211 - t);
    }
}

/// Multiplying a canonical residue by 1 leaves it alone.
proof fn lemma_fmul_one(x: int)
    requires
        0 <= x < 211,
    ensures
        fmul(x, 1) == x,
{
    lemma_small_mod(x as nat, 211nat);
}

/// A canonical residue congruent to another equals it; a vanishing reduced
/// difference of canonical residues means equality.
proof fn lemma_canonical_diff_zero(a: int, b: int)
    requires
        0 <= a < 211,
        0 <= b < 211,
        fsub(a, b) == 0,
    ensures
        a == b,
{
    if a > b {
        lemma_small_mod((a - b) as nat, 211nat);
    } else if a < b {
        vstd::arithmetic::div_mod::lemma_fundamental_div_mod_converse_mod(
            a - b,
            211,
            -1,
            a - b + 211,
        );
    }
}

/// Two expressions whose difference is a multiple of 211 reduce alike.
proof fn lemma_cong_mod(x: int, y: int)
    requires
        (x - y) % 211 == 0,
    ensures
        x % 211 == y % 211,
{
    crate::number_theory::lemma_divides_mod_zero(211, x - y);
    crate::number_theory::lemma_mod_eq_divides(x, y, 211);
}

/// Law: point addition is commutative after conversion to affine
/// coordinates, for points lifted from affine form (unit `Z`). The swapped
/// sum is the `(-1)`-scaled triple of the original sum, so both stand for
/// the same affine point.
#[verifier::spinoff_prover]
pub proof fn lemma_add_commutative(p: ProjectivePoint, q: ProjectivePoint)
    requires
        p.wf(),
        q.wf(),
        p.z.v() == 1,
        q.z.v() == 1,
    ensures
        spec_to_affine(spec_add(p, q)) == spec_to_affine(spec_add(q, p)),
{
    if p == q {
        assert(spec_add(p, q) == spec_add(q, p));
    } else if fsub(q.x.v(), p.x.v()) == 0 {
        lemma_vertical_swap(p, q);
    } else {
        lemma_swap_is_scaled(p, q);
        lemma_scaled_triple(spec_add(p, q), 210);
    }
}

/// With equal reduced x-coordinates but distinct points, both operand
/// orders hit the vertical-chord case and give the canonical identity.
#[verifier::rlimit(100)]
#[verifier::spinoff_prover]
proof fn lemma_vertical_swap(p: ProjectivePoint, q: ProjectivePoint)
    requires
        p.wf(),
        q.wf(),
        p.z.v() == 1,
        q.z.v() == 1,
        p != q,
        fsub(q.x.v(), p.x.v()) == 0,
    ensures
        spec_add(p, q) == spec_infinity(),
        spec_add(q, p) == spec_infinity(),
{
    let x1 = p.x.v();
    let y1 = p.y.v();
    let x2 = q.x.v();
    let y2 = q.y.v();
    lemma_fmul_one(y2);
    lemma_fmul_one(y1);
    lemma_fmul_one(x2);
    lemma_fmul_one(x1);
    let u = fsub(y2, y1);
    let v = fsub(x2, x1);
    lemma_neg_sub(y1, y2);
    lemma_neg_sub(x1, x2);
    lemma_canonical_diff_zero(x2, x1);
    assert(u != 0) by {
        if u == 0 {
            lemma_canonical_diff_zero(y2, y1);
            assert(p.x == q.x && p.y == q.y && p.z == q.z);
        }
    }
    assert(fmul(210, 0) == 0) by {
        lemma_small_mod(0nat, 211nat);
    }
    assert(fsub(y1, y2) != 0) by {
        if fsub(y1, y2) == 0 {
            lemma_neg_zero(u);
        }
    }
}

/// The y-difference `u` of the chord through two points.
pub open spec fn chord_u(p: ProjectivePoint, q: ProjectivePoint) -> int {
    fsub(q.y.v(), p.y.v())
}

/// The x-difference `v` of the chord through two points.
pub open spec fn chord_v(p: ProjectivePoint, q: ProjectivePoint) -> int {
    fsub(q.x.v(), p.x.v())
}

/// The chord coefficient `a = u^2 - v^3 - 2*v^2*x1` for unit-`Z` points.
pub open spec fn chord_a(p: ProjectivePoint, q: ProjectivePoint) -> int {
    let u = chord_u(p, q);
    let v = chord_v(p, q);
    let v2 = fmul(v, v);
    let v3 = fmul(v2, v);
    fsub(fsub(fmul(u, u), v3), fmul(fmul(2, v2), p.x.v()))
}

/// The x-component `v * a` of the chord sum for unit-`Z` points.
pub open spec fn chord_x3(p: ProjectivePoint, q: ProjectivePoint) -> int {
    fmul(chord_v(p, q), chord_a(p, q))
}

/// The y-component `u*(v^2*x1 - a) - v^3*y1` of the chord sum.
pub open spec fn chord_y3(p: ProjectivePoint, q: ProjectivePoint) -> int {
    let u = chord_u(p, q);
    let v = chord_v(p, q);
    let v2 = fmul(v, v);
    let v3 = fmul(v2, v);
    fsub(fmul(u, fsub(fmul(v2, p.x.v()), chord_a(p, q))), fmul(v3, p.y.v()))
}

/// The z-component `v^3` of the chord sum for unit-`Z` points.
pub open spec fn chord_z3(p: ProjectivePoint, q: ProjectivePoint) -> int {
    let v = chord_v(p, q);
    fmul(fmul(v, v), v)
}

/// For distinct unit-`Z` points with distinct reduced x-coordinates, the
/// projective addition lands in the general chord case and computes exactly
/// the `chord_*` components.
#[verifier::rlimit(100)]
#[verifier::spinoff_prover]
proof fn lemma_add_unit_z(p: ProjectivePoint, q: ProjectivePoint)
    requires
        p.wf(),
        q.wf(),
        p.z.v() == 1,
        q.z.v() == 1,
        p != q,
        chord_v(p, q) != 0,
    ensures
        spec_add(p, q) == (ProjectivePoint {
            x: fe(chord_x3(p, q)),
            y: fe(chord_y3(p, q)),
            z: fe(chord_z3(p, q)),
        }),
{
    let x1 = p.x.v();
    let y1 = p.y.v();
    let x2 = q.x.v();
    let y2 = q.y.v();
    lemma_fmul_one(y2);
    lemma_fmul_one(y1);
    lemma_fmul_one(x2);
    lemma_fmul_one(x1);
    let u = chord_u(p, q);
    let v = chord_v(p, q);
    let v2 = fmul(v, v);
    let v3 = fmul(v2, v);
    assert(fmul(1, 1) == 1) by {
        lemma_small_mod(1nat, 211nat);
    }
    lemma_fmul_one(fmul(u, u));
    lemma_fmul_one(fmul(fmul(2, v2), x1));
    lemma_fmul_one(fmul(v2, x1));
    lemma_fmul_one(fmul(v3, y1));
    lemma_fmul_one(v3);
}

/// With distinct reduced x-coordinates, the swapped sum is literally the
/// `(-1)`-scaled triple of the sum.
#[verifier::rlimit(100)]
#[verifier::spinoff_prover]
proof fn lemma_swap_is_scaled(p: ProjectivePoint, q: ProjectivePoint)
    requires
        p.wf(),
        q.wf(),
        p.z.v() == 1,
        q.z.v() == 1,
        p != q,
        fsub(q.x.v(), p.x.v()) != 0,
    ensures
        spec_add(p, q).wf(),
        spec_add(q, p) == (ProjectivePoint {
            x: fe(fmul(210, spec_add(p, q).x.v())),
            y: fe(fmul(210, spec_add(p, q).y.v())),
            z: fe(fmul(210, spec_add(p, q).z.v())),
        }),
{
    let x1 = p.x.v();
    let y1 = p.y.v();
    let x2 = q.x.v();
    let y2 = q.y.v();
    let u = chord_u(p, q);
    let v = chord_v(p, q);
    let nu = chord_u(q, p);
    let nv = chord_v(q, p);
    lemma_neg_sub(y1, y2);
    lemma_neg_sub(x1, x2);
    assert(nu == fmul(210, u));
    assert(nv == fmul(210, v));
    assert(nv != 0) by {
        if nv == 0 {
            lemma_neg_zero(v);
        }
    }
    lemma_add_unit_z(p, q);
    lemma_add_unit_z(q, p);

    let v2 = fmul(v, v);
    let v3 = fmul(v2, v);
    let uu = fmul(u, u);
    assert(fmul(nv, nv) == v2) by {
        lemma_neg_neg_mul(v, v);
    }
    assert(fmul(nu, nu) == uu) by {
        lemma_neg_neg_mul(u, u);
    }
    let nv3 = fmul(v2, nv);
    assert(nv3 == fmul(210, v3)) by {
        lemma_neg_mul_right(v2, v);
    }
    assert(chord_z3(q, p) == fmul(210, chord_z3(p, q)));

    // the chord coefficient agrees in both orders
    let c1 = fmul(fmul(2, v2), x1);
    let c2 = fmul(fmul(2, v2), x2);
    let a = chord_a(p, q);
    assert(chord_a(q, p) == a) by {
        lemma_chord_coefficient_swap(u, v, x1, x2, uu, v2, v3, nv3, c1, c2);
    }

    // x: the swapped abscissa is the 210-multiple
    assert(chord_x3(q, p) == fmul(210, chord_x3(p, q))) by {
        lemma_neg_mul_left(v, a);
    }

    // y: likewise, through the ordinate-swap identity
    let e1 = fmul(v2, x1);
    let e2 = fmul(v2, x2);
    let f1 = fmul(v3, y1);
    let f2 = fmul(v3, y2);
    let h1 = fmul(u, fsub(e1, a));
    let h2 = fmul(u, fsub(e2, a));
    assert(fmul(nv3, y2) == fmul(210, f2)) by {
        lemma_neg_mul_left(v3, y2);
    }
    assert(fmul(nu, fsub(e2, a)) == fmul(210, h2)) by {
        lemma_neg_mul_left(u, fsub(e2, a));
    }
    assert(chord_y3(q, p) == fmul(210, fsub(h2, f2))) by {
        lemma_neg_sub_pair(h2, f2);
    }
    assert(fsub(h2, f2) == chord_y3(p, q)) by {
        lemma_chord_ordinate_swap(u, v, x1, x2, y1, y2, v2, v3, a, e1, e2, f1, f2, h1, h2);
    }

    let r = spec_add(p, q);
    assert(r.x.v() == chord_x3(p, q) && r.y.v() == chord_y3(p, q) && r.z.v() == chord_z3(p, q));
    assert(spec_add(q, p) == (ProjectivePoint {
        x: fe(fmul(210, r.x.v())),
        y: fe(fmul(210, r.y.v())),
        z: fe(fmul(210, r.z.v())),
    }));
    assert(r.wf());
}

/// The chord coefficient `u^2*z1z2 - v^3 - 2*v^2*x` agrees between the two
/// operand orders: the sign of `v^3` and the swap of `x1` for `x2` cancel,
/// because `v = x2 - x1` in the field.
#[verifier::rlimit(80)]
#[verifier::spinoff_prover]
proof fn lemma_chord_coefficient_swap(
    u: int,
    v: int,
    x1: int,
    x2: int,
    uu: int,
    v2: int,
    v3: int,
    nv3: int,
    c1: int,
    c2: int,
)
    requires
        v == fsub(x2, x1),
        uu == fmul(u, u),
        v2 == fmul(v, v),
        v3 == fmul(v2, v),
        nv3 == fmul(210, v3),
        c1 == fmul(fmul(2, v2), x1),
        c2 == fmul(fmul(2, v2), x2),
    ensures
        fsub(fsub(uu, nv3), c2) == fsub(fsub(uu, v3), c1),
{
    let m = 211int;
    // bring both sides to a single reduction
    assert(fsub(fsub(uu, v3), c1) == (uu - v3 - (2 * v2) * x1) % m) by {
        vstd::arithmetic::div_mod::lemma_sub_mod_noop_right(uu - v3, (2 * v2) * x1, m);
        lemma_mul_mod_noop_left(2 * v2, x1, m);
        vstd::arithmetic::div_mod::lemma_sub_mod_noop_right(uu, v3, m);
        vstd::arithmetic::div_mod::lemma_sub_mod_noop(uu - v3, (2 * v2) * x1, m);
        vstd::arithmetic::div_mod::lemma_sub_mod_noop_right((uu - v3) % m, (2 * v2) * x1, m);
        lemma_small_mod(uu as nat, m as nat);
        lemma_small_mod(v3 as nat, m as nat);
    }
    assert(fsub(fsub(uu, nv3), c2) == (uu + v3 - (2 * v2) * x2) % m) by {
        vstd::arithmetic::div_mod::lemma_sub_mod_noop_right(uu - nv3, (2 * v2) * x2, m);
        lemma_mul_mod_noop_left(2 * v2, x2, m);
        vstd::arithmetic::div_mod::lemma_sub_mod_noop_right(uu, nv3, m);
        vstd::arithmetic::div_mod::lemma_sub_mod_noop(uu - nv3, (2 * v2) * x2, m);
        vstd::arithmetic::div_mod::lemma_sub_mod_noop_right((uu - nv3) % m, (2 * v2) * x2, m);
        lemma_small_mod(uu as nat, m as nat);
        lemma_small_mod(nv3 as nat, m as nat);
        // - (210*v3 % m) = v3 - 211*v3 up to multiples of 211
        lemma_mul_mod_noop_right(210, v3, m);
        assert(uu - 210 * v3 == 211 * (-v3) + (uu + v3)) by (nonlinear_arith);
        vstd::arithmetic::div_mod::lemma_mod_multiples_vanish(-v3, uu + v3, m);
    }
    // the difference of the cores is a multiple of 211
    assert(((2 * v2) * x2 - (2 * v2) * x1 - 2 * v3) % m == 0) by {
        assert((2 * v2) * x2 - (2 * v2) * x1 == 2 * (v2 * (x2 - x1))) by (nonlinear_arith);
        lemma_mul_mod_noop_right(v2, x2 - x1, m);
        assert(fmul(v2, x2 - x1) == fmul(v2, v)) by {
            lemma_mul_mod_noop_right(v2, v, m);
            lemma_small_mod(v as nat, m as nat);
        }
        lemma_mul_mod_noop_right(2, v2 * (x2 - x1), m);
        lemma_mul_mod_noop_right(2, v2 * v, m);
        assert((2 * (v2 * (x2 - x1))) % m == (2 * (v2 * v)) % m);
        assert((2 * (v2 * v)) % m == (2 * v3) % m) by {
            lemma_mul_mod_noop_right(2, v2 * v, m);
            lemma_small_mod(v3 as nat, m as nat);
            lemma_mul_mod_noop_right(2, v3, m);
        }
        vstd::arithmetic::div_mod::lemma_sub_mod_noop(
            2 * (v2 * (x2 - x1)),
            2 * v3,
            m,
        );
        assert(((2 * (v2 * (x2 - x1))) % m - (2 * v3) % m) % m == 0) by {
            lemma_small_mod(0nat, m as nat);
        }
    }
    assert((uu + v3 - (2 * v2) * x2) - (uu - v3 - (2 * v2) * x1) == -((2 * v2) * x2 - (2 * v2)
        * x1 - 2 * v3) + 0) by (nonlinear_arith);
    assert(((uu + v3 - (2 * v2) * x2) - (uu - v3 - (2 * v2) * x1)) % m == 0) by {
        let d = (2 * v2) * x2 - (2 * v2) * x1 - 2 * v3;
        crate::number_theory::lemma_divides_mod_zero(m, d);
        let k = choose|k: int| d == #[trigger] crate::number_theory::mul_spec(m, k);
        assert(-d == crate::number_theory::mul_spec(m, -k)) by {
            assert(d == m * k);
            assert(-d == m * (-k)) by (nonlinear_arith)
                requires
                    d == m * k,
            ;
        }
        crate::number_theory::lemma_divides_mod_zero(m, -d);
    }
    lemma_cong_mod(uu + v3 - (2 * v2) * x2, uu - v3 - (2 * v2) * x1);
}

/// The ordinate `u*(v^2*x - a) - v^3*y` of the swapped order equals the
/// original: the substitutions `v = x2 - x1` and `u = y2 - y1` cancel the
/// cross terms.
#[verifier::rlimit(80)]
#[verifier::spinoff_prover]
proof fn lemma_chord_ordinate_swap(
    u: int,
    v: int,
    x1: int,
    x2: int,
    y1: int,
    y2: int,
    v2: int,
    v3: int,
    a: int,
    e1: int,
    e2: int,
    f1: int,
    f2: int,
    h1: int,
    h2: int,
)
    requires
        u == fsub(y2, y1),
        v == fsub(x2, x1),
        v2 == fmul(v, v),
        v3 == fmul(v2, v),
        e1 == fmul(v2, x1),
        e2 == fmul(v2, x2),
        f1 == fmul(v3, y1),
        f2 == fmul(v3, y2),
        h1 == fmul(u, fsub(e1, a)),
        h2 == fmul(u, fsub(e2, a)),
    ensures
        fsub(h2, f2) == fsub(h1, f1),
{
    let m = 211int;
    // single-reduction forms of both sides
    assert(fsub(h1, f1) == (u * (e1 - a) - v3 * y1) % m) by {
        lemma_mul_mod_noop_right(u, e1 - a, m);
        vstd::arithmetic::div_mod::lemma_sub_mod_noop(u * (e1 - a), v3 * y1, m);
        lemma_small_mod(f1 as nat, m as nat);
        vstd::arithmetic::div_mod::lemma_sub_mod_noop_right((u * (e1 - a)) % m, v3 * y1, m);
    }
    assert(fsub(h2, f2) == (u * (e2 - a) - v3 * y2) % m) by {
        lemma_mul_mod_noop_right(u, e2 - a, m);
        vstd::arithmetic::div_mod::lemma_sub_mod_noop(u * (e2 - a), v3 * y2, m);
        lemma_small_mod(f2 as nat, m as nat);
        vstd::arithmetic::div_mod::lemma_sub_mod_noop_right((u * (e2 - a)) % m, v3 * y2, m);
    }
    // the difference reduces to u*(e2 - e1) - v3*(y2 - y1), which vanishes
    assert((u * (e2 - e1)) % m == (u * (v2 * (x2 - x1))) % m) by {
        lemma_mul_mod_noop_right(u, e2 - e1, m);
        vstd::arithmetic::div_mod::lemma_sub_mod_noop(v2 * x2, v2 * x1, m);
        assert(v2 * x2 - v2 * x1 == v2 * (x2 - x1)) by (nonlinear_arith);
        lemma_mul_mod_noop_right(u, v2 * (x2 - x1), m);
        assert((e2 - e1) % m == (v2 * (x2 - x1)) % m);
    }
    assert((u * (v2 * (x2 - x1))) % m == (u * v3) % m) by {
        lemma_mul_mod_noop_right(v2, x2 - x1, m);
        lemma_mul_mod_noop_right(v2, v, m);
        lemma_small_mod(v as nat, m as nat);
        lemma_mul_mod_noop_right(u, v2 * (x2 - x1), m);
        lemma_mul_mod_noop_right(u, v2 * v, m);
        lemma_mul_mod_noop_right(u, v3, m);
        lemma_small_mod(v3 as nat, m as nat);
    }
    assert((v3 * (y2 - y1)) % m == (v3 * u) % m) by {
        lemma_mul_mod_noop_right(v3, y2 - y1, m);
        lemma_mul_mod_noop_right(v3, u, m);
        lemma_small_mod(u as nat, m as nat);
    }
    let d = (u * (e2 - a) - v3 * y2) - (u * (e1 - a) - v3 * y1);
    assert((u * (e2 - a) - v3 * y2) - (u * (e1 - a) - v3 * y1) == u * (e2 - e1) - v3 * (y2
        - y1)) by (nonlinear_arith);
    assert(d % m == 0) by {
        vstd::arithmetic::div_mod::lemma_sub_mod_noop(u * (e2 - e1), v3 * (y2 - y1), m);
        assert((u * (e2 - e1)) % m == (v3 * (y2 - y1)) % m) by {
            assert((u * v3) % m == (v3 * u) % m) by {
                lemma_mul_is_commutative(u, v3);
            }
        }
        lemma_small_mod(0nat, m as nat);
    }
    lemma_cong_mod(u * (e2 - a) - v3 * y2, u * (e1 - a) - v3 * y1);
}

} // verus!
