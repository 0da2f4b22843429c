//! A toy additively homomorphic scheme built on the monoid structure of the
//! two sides: plaintexts add, ciphertexts multiply. Encryption raises a
//! public base to the message; decryption takes the discrete logarithm back,
//! rounded to the nearest exponent; the server combines ciphertexts by the
//! monoid operation alone.

use vstd::prelude::*;
use vstd::arithmetic::power::{pow, lemma_pow0, lemma_pow1, lemma_pow_adds};
use vstd::arithmetic::power2::{pow2, lemma_pow2_strictly_increases, lemma2_to64};

verus! {

/// An encrypted value. Simplified for the demonstration.
#[derive(Debug, Clone, Copy, PartialEq, Eq, Structural)]
pub struct Ciphertext(pub u64);

/// The toy Paillier-like system: the public key is just the fixed base that
/// messages become exponents of.
pub struct ToyHomomorphicSystem {
    pub public_key: u64,
}

/// The largest exponent `e` with `b^e <= v`, for a base of at least 2.
pub open spec fn floor_log(b: nat, v: nat) -> nat
    recommends
        b >= 2,
        v >= 1,
    decreases v,
    when b >= 2
    via floor_log_decreases
{
    if v < b {
        0
    } else {
        1 + floor_log(b, v / b)
    }
}

#[via_fn]
proof fn floor_log_decreases(b: nat, v: nat) {
    if b >= 2 && v >= b {
        vstd::arithmetic::div_mod::lemma_div_decreases(v as int, b as int);
    }
}

/// The exponent nearest to the logarithm of `v` in base `b`: the floor,
/// bumped by one when `v` lies above the geometric midpoint `b^(e + 1/2)`,
/// which is decided by comparing `v^2` against `b^(2e+1)`.
pub open spec fn round_log(b: nat, v: nat) -> nat {
    if v == 0 {
        0
    } else {
        let e = floor_log(b, v);
        if v * v >= pow(b as int, 2 * e + 1) {
            e + 1
        } else {
            e
        }
    }
}

/// The product of all the ciphertext payloads in a sequence, folded from the
/// left.
pub open spec fn prod_all(s: Seq<Ciphertext>) -> int
    decreases s.len(),
{
    if s.len() == 0 {
        1
    } else {
        prod_all(s.drop_last()) * s.last().0
    }
}

impl ToyHomomorphicSystem {
    /// The fixed demonstration system with base 10.
    pub fn new() -> (r: Self)
        ensures
            r.public_key == 10,
    {
        Self { public_key: 10 }  // Simplified base
    }

    /// Encrypt: raise the public base to the message.
    pub fn encrypt(&self, m: u32) -> (r: Ciphertext)
        requires
            pow(self.public_key as int, m as nat) <= u64::MAX,
        ensures
            r.0 == pow(self.public_key as int, m as nat),
    {
        let b = self.public_key;
        proof {
            lemma_pow1(b as int);
        }
        let mut result: u64 = 1;
        let mut i: u32 = 0;
        proof {
            lemma_pow0(b as int);
        }
        while i < m
            invariant
                i <= m,
                pow(b as int, m as nat) <= u64::MAX,
                result == pow(b as int, i as nat),
            decreases m - i,
        {
            proof {
                lemma_pow1(b as int);
                lemma_pow_adds(b as int, i as nat, 1);
                vstd::arithmetic::mul::lemma_mul_is_commutative(pow(b as int, i as nat), b as int);
                if b == 0 {
                    vstd::arithmetic::power::lemma0_pow((i + 1) as nat);
                } else {
                    vstd::arithmetic::power::lemma_pow_increases(b as nat, (i + 1) as nat, m as nat);
                }
            }
            result = result * b;
            i += 1;
        }
        Ciphertext(result)
    }

    /// Decrypt: recover the exponent by an integer discrete logarithm,
    /// rounded to the nearest exponent as a floating-point logarithm would
    /// round.
    pub fn decrypt(&self, c: Ciphertext) -> (r: u32)
        requires
            self.public_key >= 2,
        ensures
            r == round_log(self.public_key as nat, c.0 as nat),
    {
        let b = self.public_key;
        if c.0 == 0 {
            return 0;
        }
        let mut e: u32 = 0;
        let mut v: u64 = c.0;
        let mut plo: u64 = 1;
        proof {
            lemma_pow0(b as int);
            lemma2_to64();
        }
        while v >= b
            invariant
                b >= 2,
                v >= 1,
                c.0 >= 1,
                plo == pow(b as int, e as nat),
                pow(b as int, e as nat) <= c.0,
                pow2(e as nat) <= pow(b as int, e as nat),
                plo >= 1,
                e <= 63,
                floor_log(b as nat, c.0 as nat) == e + floor_log(b as nat, v as nat),
                v as int == (c.0 as int) / pow(b as int, e as nat),
            decreases v,
        {
            proof {
                lemma_decrypt_step(b as int, c.0 as int, v as int, e as nat);
                if e + 1 >= 64 {
                    lemma2_to64();
                    if e + 1 > 64 {
                        lemma_pow2_strictly_increases(64, (e + 1) as nat);
                    }
                    assert(pow2((e + 1) as nat) >= 0x1_0000_0000_0000_0000);
                    assert(false);
                }
            }
            v = v / b;
            e = e + 1;
            plo = plo * b;
        }
        // v is now the leading digit; compare c^2 against b^(2e+1) through
        // the exact quotient to decide the rounding direction.
        proof {
            assert((c.0 as int) * (c.0 as int) <= u128::MAX && (plo as int) * (plo as int)
                <= u128::MAX && (plo as int) * (plo as int) >= 1) by (nonlinear_arith)
                requires
                    1 <= plo as int <= u64::MAX,
                    1 <= c.0 as int <= u64::MAX,
            ;
        }
        let q = ((c.0 as u128) * (c.0 as u128)) / ((plo as u128) * (plo as u128));
        proof {
            lemma_round_decision(b as int, c.0 as int, plo as int, e as nat);
        }
        if q >= b as u128 {
            e + 1
        } else {
            e
        }
    }
}

/// One division step of the discrete logarithm keeps all its invariants.
proof fn lemma_decrypt_step(b: int, c0: int, v: int, e: nat)
    requires
        b >= 2,
        v >= b,
        pow(b, e) <= c0,
        pow2(e) <= pow(b, e),
        v == c0 / pow(b, e),
    ensures
        pow(b, (e + 1) as nat) == pow(b, e) * b,
        pow(b, (e + 1) as nat) >= 1,
        pow(b, (e + 1) as nat) <= c0,
        pow2((e + 1) as nat) <= pow(b, (e + 1) as nat),
        v / b == c0 / pow(b, (e + 1) as nat),
        v / b >= 1,
{
    lemma_pow1(b);
    lemma_pow_adds(b, e, 1);
    vstd::arithmetic::power::lemma_pow_positive(b, e);
    vstd::arithmetic::power::lemma_pow_positive(b, (e + 1) as nat);
    let pe = pow(b, e);
    // v >= b means c0 holds at least b^(e+1)
    vstd::arithmetic::div_mod::lemma_fundamental_div_mod(c0, pe);
    assert(c0 >= v * pe) by (nonlinear_arith)
        requires
            c0 == pe * v + c0 % pe,
            c0 % pe >= 0,
            pe >= 1,
    ;
    assert(v * pe >= b * pe) by (nonlinear_arith)
        requires
            v >= b,
            pe >= 1,
    ;
    assert(pe * b == b * pe) by (nonlinear_arith);
    vstd::arithmetic::power2::lemma_pow2_unfold((e + 1) as nat);
    assert(2 * pow2(e) <= b * pe) by (nonlinear_arith)
        requires
            pow2(e) <= pe,
            b >= 2,
            pe >= 1,
            pow2(e) >= 0,
    ;
    vstd::arithmetic::div_mod::lemma_div_denominator(c0, pe, b);
    vstd::arithmetic::div_mod::lemma_div_pos_is_pos(v, b);
    assert(v / b >= 1) by {
        vstd::arithmetic::div_mod::lemma_div_is_ordered(b, v, b);
        vstd::arithmetic::div_mod::lemma_div_by_self(b);
    }
}

/// The quotient comparison decides the rounding exactly as the squared
/// comparison in `round_log` does.
proof fn lemma_round_decision(b: int, c0: int, plo: int, e: nat)
    requires
        b >= 2,
        c0 >= 1,
        plo == pow(b, e),
        e == floor_log(b as nat, c0 as nat),
    ensures
        plo >= 1,
        0 <= (c0 * c0) / (plo * plo),
        ((c0 * c0) / (plo * plo) >= b) <==> (c0 * c0 >= pow(b, 2 * e + 1)),
        pow(b, 2 * e + 1) == (plo * plo) * b,
{
    vstd::arithmetic::power::lemma_pow_positive(b, e);
    assert(pow(b, 2 * e + 1) == (plo * plo) * b) by {
        lemma_pow1(b);
        lemma_pow_adds(b, e, e);
        lemma_pow_adds(b, e + e, 1);
    }
    assert(plo >= 1);
    assert(plo * plo >= 1) by (nonlinear_arith)
        requires
            plo >= 1,
    ;
    let pp = plo * plo;
    vstd::arithmetic::div_mod::lemma_div_pos_is_pos(c0 * c0, pp);
    assert(c0 * c0 >= 0) by (nonlinear_arith);
    if (c0 * c0) / pp >= b {
        vstd::arithmetic::div_mod::lemma_fundamental_div_mod(c0 * c0, pp);
        assert(c0 * c0 >= pp * b) by (nonlinear_arith)
            requires
                c0 * c0 == pp * ((c0 * c0) / pp) + (c0 * c0) % pp,
                (c0 * c0) % pp >= 0,
                (c0 * c0) / pp >= b,
                pp >= 1,
        ;
        assert(pp * b == (plo * plo) * b);
    }
    if c0 * c0 >= pp * b {
        vstd::arithmetic::div_mod::lemma_div_is_ordered(pp * b, c0 * c0, pp);
        vstd::arithmetic::mul::lemma_mul_is_commutative(pp, b);
        vstd::arithmetic::div_mod::lemma_div_by_multiple(b, pp);
    }
}

/// The monoid operation on ciphertexts: to add plaintexts, multiply
/// ciphertexts.
impl Ciphertext {
    /// Combine two ciphertexts.
    pub fn mul(self, rhs: Self) -> (r: Self)
        requires
            (self.0 as int) * (rhs.0 as int) <= u64::MAX,
        ensures
            r.0 == (self.0 as int) * (rhs.0 as int),
    {
        Ciphertext(self.0 * rhs.0)
    }
}

/// The server function: no private key needed, just the monoid operation
/// folded over the stream, starting from the multiplicative identity.
pub fn server_compute_sum(encrypted_values: Vec<Ciphertext>) -> (r: Ciphertext)
    requires
        forall|k: int|
            0 <= k <= encrypted_values@.len() ==> #[trigger] prod_all(
                encrypted_values@.subrange(0, k),
            ) <= u64::MAX,
    ensures
        r.0 == prod_all(encrypted_values@),
{
    let mut acc = Ciphertext(1);
    let mut i: usize = 0;
    proof {
        assert(encrypted_values@.subrange(0, 0) =~= Seq::<Ciphertext>::empty());
    }
    while i < encrypted_values.len()
        invariant
            i <= encrypted_values@.len(),
            forall|k: int|
                0 <= k <= encrypted_values@.len() ==> #[trigger] prod_all(
                    encrypted_values@.subrange(0, k),
                ) <= u64::MAX,
            acc.0 == prod_all(encrypted_values@.subrange(0, i as int)),
        decreases encrypted_values@.len() - i,
    {
        proof {
            let pre = encrypted_values@.subrange(0, i as int + 1);
            assert(pre.drop_last() =~= encrypted_values@.subrange(0, i as int));
            assert(pre.last() == encrypted_values@[i as int]);
            assert(prod_all(pre) >= 0) by {
                lemma_prod_all_nonneg(pre);
            }
        }
        acc = acc.mul(encrypted_values[i]);
        i += 1;
    }
    proof {
        assert(encrypted_values@.subrange(0, encrypted_values@.len() as int)
            =~= encrypted_values@);
    }
    acc
}

/// Products of payloads are nonnegative.
proof fn lemma_prod_all_nonneg(s: Seq<Ciphertext>)
    ensures
        prod_all(s) >= 0,
    decreases s.len(),
{
    if s.len() > 0 {
        lemma_prod_all_nonneg(s.drop_last());
        assert(prod_all(s.drop_last()) * s.last().0 >= 0) by (nonlinear_arith)
            requires
                prod_all(s.drop_last()) >= 0,
                s.last().0 >= 0,
        ;
    }
}

} // verus!
