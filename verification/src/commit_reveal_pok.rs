//! Commit-reveal proof of knowledge: a Schnorr-style proof over a mock
//! group (wrapping arithmetic stands in for curve operations), with a
//! hash-based commitment phase that forces each participant to fix a key
//! before seeing anyone else's.

use std::collections::hash_map::DefaultHasher;
use std::hash::Hasher;
use vstd::prelude::*;
use vstd::std_specs::hash::DefaultHasherAdditionalSpecFns;
use vstd::bytes::{u64_to_le_bytes, spec_u64_to_le_bytes};
use vstd::wrapping::u64_specs;

verus! {

/// Simulates a public key (a point); the group law is mocked with wrapping
/// arithmetic.
#[derive(Debug, Clone, Copy, PartialEq, Eq, Structural)]
pub struct GroupElement(pub u64);

/// Simulates a private key.
#[derive(Debug, Clone, Copy, PartialEq, Eq, Structural)]
pub struct Scalar(pub u64);

/// The fixed nonce the mock prover draws (a production prover uses a fresh
/// random nonce).
pub const MOCK_NONCE: u64 = 12345;

/// The fixed blinding salt of the mock commitment phase.
pub const MOCK_SALT: u64 = 999;

/// The mock generator multiple: `G * s` is simulated as `s * 5` wrapping.
pub open spec fn spec_generator_mul(s: u64) -> u64 {
    u64_specs::wrapping_mul(s, 5)
}

/// The Fiat-Shamir challenge: the standard hasher run over the little-endian
/// bytes of the two group elements, reduced to a small mock modulus.
pub open spec fn spec_challenge(p: u64, r: u64) -> u64 {
    (DefaultHasher::spec_finish(
        seq![spec_u64_to_le_bytes(p), spec_u64_to_le_bytes(r)],
    ) % 1000) as u64
}

/// The commitment hash: the hasher run over a public key and a salt.
pub open spec fn spec_commitment(pk: u64, salt: u64) -> u64 {
    DefaultHasher::spec_finish(seq![spec_u64_to_le_bytes(pk), spec_u64_to_le_bytes(salt)])
}

impl GroupElement {
    /// Simulates `G * scalar` (mock generator logic).
    pub fn generator_mul(s: Scalar) -> (r: Self)
        ensures
            r.0 == spec_generator_mul(s.0),
    {
        GroupElement(s.0.wrapping_mul(5))
    }

    /// Simulates point addition.
    pub fn add(self, other: Self) -> (r: Self)
        ensures
            r.0 == u64_specs::wrapping_add(self.0, other.0),
    {
        GroupElement(self.0.wrapping_add(other.0))
    }
}

/// A Schnorr proof of knowledge: "I know x for P = xG".
#[derive(Debug, Clone, Copy, PartialEq, Eq, Structural)]
pub struct SchnorrProof {
    /// R = k*G
    pub commitment: GroupElement,
    /// s = k + e*x
    pub response: Scalar,
}

impl SchnorrProof {
    /// Prover: commit to the fixed nonce, derive the Fiat-Shamir challenge,
    /// and answer with `s = k + e*x`.
    pub fn prove(secret_x: Scalar, public_p: GroupElement) -> (pr: Self)
        ensures
            pr.commitment.0 == spec_generator_mul(MOCK_NONCE),
            pr.response.0 == u64_specs::wrapping_add(
                MOCK_NONCE,
                u64_specs::wrapping_mul(
                    spec_challenge(public_p.0, spec_generator_mul(MOCK_NONCE)),
                    secret_x.0,
                ),
            ),
    {
        // 1. Use the fixed nonce k
        let k = Scalar(MOCK_NONCE);
        let r_commitment = GroupElement::generator_mul(k);

        // 2. Calculate challenge e = Hash(P, R): the Fiat-Shamir heuristic
        let challenge = Self::hash_challenge(public_p, r_commitment);

        // 3. Calculate response s = k + (e * x)
        let s_val = k.0.wrapping_add(challenge.0.wrapping_mul(secret_x.0));

        SchnorrProof { commitment: r_commitment, response: Scalar(s_val) }
    }

    /// Verifier: does `sG == R + eP`?
    pub fn verify(&self, public_p: GroupElement) -> (ok: bool)
        ensures
            ok == (spec_generator_mul(self.response.0) == u64_specs::wrapping_add(
                self.commitment.0,
                u64_specs::wrapping_mul(public_p.0, spec_challenge(public_p.0, self.commitment.0)),
            )),
    {
        let challenge = Self::hash_challenge(public_p, self.commitment);

        // LHS: s * G
        let lhs = GroupElement::generator_mul(self.response);

        // RHS: R + (e * P)
        let e_times_p = GroupElement(public_p.0.wrapping_mul(challenge.0));
        let rhs = self.commitment.add(e_times_p);

        lhs.0 == rhs.0
    }

    /// The Fiat-Shamir challenge: hash the two group elements and reduce to
    /// the small mock modulus.
    pub fn hash_challenge(p: GroupElement, r: GroupElement) -> (c: Scalar)
        ensures
            c.0 == spec_challenge(p.0, r.0),
    {
        let mut hasher = DefaultHasher::new();
        let pb = u64_to_le_bytes(p.0);
        hasher.write(pb.as_slice());
        let rb = u64_to_le_bytes(r.0);
        hasher.write(rb.as_slice());
        proof {
            assert(hasher@ =~= seq![spec_u64_to_le_bytes(p.0), spec_u64_to_le_bytes(r.0)]);
        }
        Scalar(hasher.finish() % 1000)
    }
}

/// A participant of the commit-reveal protocol.
pub struct Participant {
    pub id: String,
    pub secret: Scalar,
    pub public_key: GroupElement,
    /// Blinding factor for the commit.
    pub salt: u64,
}

impl Participant {
    /// Set up a participant: the public key is the generator multiple of
    /// the secret, and the salt is the fixed mock blinding value.
    pub fn new(id: &str, secret_val: u64) -> (p: Self)
        ensures
            p.id@ == id@,
            p.secret.0 == secret_val,
            p.public_key.0 == spec_generator_mul(secret_val),
            p.salt == MOCK_SALT,
    {
        let secret = Scalar(secret_val);
        Participant {
            id: id.to_owned(),
            secret,
            public_key: GroupElement::generator_mul(secret),
            salt: MOCK_SALT,
        }
    }

    /// Phase 1: publish `Hash(public key || salt)`.
    pub fn generate_commitment(&self) -> (c: u64)
        ensures
            c == spec_commitment(self.public_key.0, self.salt),
    {
        let mut hasher = DefaultHasher::new();
        let kb = u64_to_le_bytes(self.public_key.0);
        hasher.write(kb.as_slice());
        let sb = u64_to_le_bytes(self.salt);
        hasher.write(sb.as_slice());
        proof {
            assert(hasher@ =~= seq![
                spec_u64_to_le_bytes(self.public_key.0),
                spec_u64_to_le_bytes(self.salt),
            ]);
        }
        hasher.finish()
    }

    /// Phase 2: open the commitment, with a proof of knowledge of the
    /// secret.
    pub fn open_commitment(&self) -> (r: (GroupElement, u64, SchnorrProof))
        ensures
            r.0 == self.public_key,
            r.1 == self.salt,
            r.2.commitment.0 == spec_generator_mul(MOCK_NONCE),
            r.2.response.0 == u64_specs::wrapping_add(
                MOCK_NONCE,
                u64_specs::wrapping_mul(
                    spec_challenge(self.public_key.0, spec_generator_mul(MOCK_NONCE)),
                    self.secret.0,
                ),
            ),
    {
        let pok = SchnorrProof::prove(self.secret, self.public_key);
        (self.public_key, self.salt, pok)
    }
}

/// An honest prover always convinces the verifier: the wrapping arithmetic
/// of the mock group is arithmetic mod 2^64, under which
/// `(k + e*x) * 5 == k*5 + (x*5)*e`.
pub proof fn lemma_schnorr_honest(x: u64, k: u64, e: u64)
    ensures
        u64_specs::wrapping_mul(u64_specs::wrapping_add(k, u64_specs::wrapping_mul(e, x)), 5)
            == u64_specs::wrapping_add(
            u64_specs::wrapping_mul(k, 5),
            u64_specs::wrapping_mul(u64_specs::wrapping_mul(x, 5), e),
        ),
{
    let m = 0x1_0000_0000_0000_0000int;
    let ex = (e as int) * (x as int);
    lemma_wrapping_mul_is_mod(e, x);
    let s = u64_specs::wrapping_add(k, u64_specs::wrapping_mul(e, x));
    lemma_wrapping_add_is_mod(k, u64_specs::wrapping_mul(e, x));
    lemma_wrapping_mul_is_mod(s, 5);
    // the left side reduces to ((k + e*x) * 5) % m
    assert((s as int) % m == (k + ex) % m) by {
        vstd::arithmetic::div_mod::lemma_mod_twice(k + ex % m, m);
        vstd::arithmetic::div_mod::lemma_add_mod_noop_right(k as int, ex, m);
    }
    assert(((s as int) * 5) % m == ((k + ex) * 5) % m) by {
        vstd::arithmetic::div_mod::lemma_mul_mod_noop_left(s as int, 5int, m);
        vstd::arithmetic::div_mod::lemma_mul_mod_noop_left(k + ex, 5int, m);
        vstd::arithmetic::div_mod::lemma_small_mod(s as nat, m as nat);
    }
    // the right side reduces to (k*5 + (x*5)*e) % m
    lemma_wrapping_mul_is_mod(k, 5);
    lemma_wrapping_mul_is_mod(x, 5);
    let x5 = u64_specs::wrapping_mul(x, 5);
    lemma_wrapping_mul_is_mod(x5, e);
    lemma_wrapping_add_is_mod(u64_specs::wrapping_mul(k, 5), u64_specs::wrapping_mul(x5, e));
    let k5 = ((k as int) * 5) % m;
    let rhs_val = (k5 + (((x5 as int) * (e as int)) % m)) % m;
    assert(rhs_val == (k * 5 + ((x as int) * 5) * e) % m) by {
        vstd::arithmetic::div_mod::lemma_add_mod_noop((k as int) * 5, (x5 as int) * (e as int), m);
        vstd::arithmetic::div_mod::lemma_mul_mod_noop_left((x as int) * 5, e as int, m);
        vstd::arithmetic::div_mod::lemma_add_mod_noop((k as int) * 5, ((x as int) * 5) * (
        e as int), m);
        vstd::arithmetic::div_mod::lemma_mod_twice((k as int) * 5, m);
        vstd::arithmetic::div_mod::lemma_mod_twice(((x as int) * 5) * (e as int), m);
    }
    // and the two cores agree as plain integers
    assert((k + (e as int) * (x as int)) * 5 == k * 5 + ((x as int) * 5) * (e as int))
        by (nonlinear_arith);
}

/// `wrapping_mul` is multiplication mod 2^64.
proof fn lemma_wrapping_mul_is_mod(x: u64, y: u64)
    ensures
        u64_specs::wrapping_mul(x, y) == ((x as int) * (y as int)) % 0x1_0000_0000_0000_0000int,
{
    let m = 0x1_0000_0000_0000_0000int;
    assert(0 <= (x as int) * (y as int)) by (nonlinear_arith);
    let p = (x as int) * (y as int);
    vstd::arithmetic::div_mod::lemma_fundamental_div_mod(p, m);
    vstd::arithmetic::div_mod::lemma_mod_bound(p, m);
}

/// `wrapping_add` is addition mod 2^64.
proof fn lemma_wrapping_add_is_mod(x: u64, y: u64)
    ensures
        u64_specs::wrapping_add(x, y) == ((x as int) + (y as int)) % 0x1_0000_0000_0000_0000int,
{
    let m = 0x1_0000_0000_0000_0000int;
    if x + y > u64::MAX {
        vstd::arithmetic::div_mod::lemma_fundamental_div_mod_converse_mod(
            x + y,
            m,
            1,
            x + y - m,
        );
    } else {
        vstd::arithmetic::div_mod::lemma_small_mod((x + y) as nat, m as nat);
    }
}

} // verus!
