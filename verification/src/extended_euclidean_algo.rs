//! Modular inverses by the extended Euclidean algorithm, which works for any
//! modulus coprime to the number, prime or not, together with the modular
//! exponentiation it is usually compared against.

use vstd::prelude::*;
use vstd::math::abs;
use vstd::arithmetic::power::{pow, lemma_pow0, lemma_pow_mod_noop};
use vstd::arithmetic::div_mod::{lemma_small_mod, lemma_fundamental_div_mod,
    lemma_mod_multiples_vanish, lemma_mod_multiples_basic, lemma_mod_bound};
use vstd::arithmetic::mul::lemma_mul_is_commutative;
use crate::number_theory::{gcd, mul_spec, lemma_eea_congruence, lemma_eea_bounds,
    lemma_gcd_step, lemma_gcd_divides, lemma_pow_mod_even, lemma_pow_mod_odd, lemma_mul_fits};

verus! {

/// Largest modulus the exponentiation accepts: squares of residues must fit
/// in an `i128`.
pub const POW_MODULUS_LIMIT: i128 = 0x8000_0000_0000_0000;

/// Largest modulus the inverse's coefficient arithmetic accepts in an
/// `i128`.
pub const INVERSE_LIMIT: i128 = 0x4000_0000_0000_0000_0000_0000_0000_0000;

/// Modular exponentiation by repeated squaring: `base^exp mod modulus`.
fn mod_pow(base: i128, exp: i128, modulus: i128) -> (r: i128)
    requires
        0 <= base,
        0 <= exp,
        1 <= modulus <= POW_MODULUS_LIMIT,
    ensures
        r == pow(base as int, exp as nat) % (modulus as int),
        0 <= r < modulus,
{
    if modulus == 1 {
        proof {
            lemma_mod_bound(pow(base as int, exp as nat), 1int);
        }
        return 0;
    }
    let ghost b0: int = base as int;
    let ghost e0: nat = exp as nat;
    let mut result: u128 = 1;
    let mut base = (base as u128) % (modulus as u128);
    let mut exp = exp as u128;
    proof {
        lemma_pow_mod_noop(b0, e0, modulus as int);
    }
    while exp > 0
        invariant
            2 <= modulus <= POW_MODULUS_LIMIT,
            base < modulus as u128,
            result < modulus as u128,
            (result * pow(base as int, exp as nat)) % (modulus as int) == pow(b0, e0) % (
            modulus as int),
        decreases exp,
    {
        proof {
            lemma_mul_fits(result as int, base as int, modulus as int, 0x8000_0000_0000_0000);
            lemma_mul_fits(base as int, base as int, modulus as int, 0x8000_0000_0000_0000);
            if exp % 2 == 1 {
                lemma_pow_mod_odd(result as int, base as int, exp as nat, modulus as int);
            } else {
                lemma_pow_mod_even(result as int, base as int, exp as nat, modulus as int);
            }
        }
        if exp % 2 == 1 {
            result = (result * base) % (modulus as u128);
        }
        // exp = exp / 2
        exp = exp / 2;
        base = (base * base) % (modulus as u128);
    }
    proof {
        lemma_pow0(base as int);
        lemma_small_mod(result as nat, modulus as nat);
    }
    result as i128
}

/// Extended Euclidean algorithm inverse.
/// Works for any `m` where `gcd(a, m) == 1`; a non-coprime pair is reported
/// as an error rather than inverted.
pub fn inverse_eea(a: i128, m: i128) -> (res: Result<i128, &'static str>)
    requires
        1 <= m < INVERSE_LIMIT,
        0 <= a < m,
    ensures
        res is Ok <==> gcd(m as nat, a as nat) == 1,
        (res matches Ok(t) ==> 0 <= t < m && ((t as int) * (a as int)) % (m as int) == 1int % (
        m as int)),
{
    let (mut t, mut new_t): (i128, i128) = (0, 1);
    let (mut r, mut new_r): (i128, i128) = (m, a);

    proof {
        lemma_small_mod(0nat, m as nat);
        lemma_small_mod(a as nat, m as nat);
        lemma_mod_multiples_basic(1, m as int);
    }
    while new_r != 0
        invariant
            1 <= m < INVERSE_LIMIT,
            0 <= new_r <= m,
            0 <= r <= m,
            gcd(r as nat, new_r as nat) == gcd(m as nat, a as nat),
            ((t as int) * (a as int)) % (m as int) == (r as int) % (m as int),
            ((new_t as int) * (a as int)) % (m as int) == (new_r as int) % (m as int),
            (t as int) * (new_t as int) <= 0,
            abs(t as int) * (new_r as int) + abs(new_t as int) * (r as int) <= m,
            abs(t as int) <= m,
            abs(new_t as int) <= m,
            m == 1 ==> new_r == 0,
            m == 1 ==> t == 0,
        decreases new_r,
    {
        proof {
            vstd::arithmetic::div_mod::lemma_div_nonincreasing(r as int, new_r as int);
            vstd::arithmetic::div_mod::lemma_div_pos_is_pos(r as int, new_r as int);
        }
        let quotient = ((r as u128) / (new_r as u128)) as i128;
        proof {
            assert(quotient as int == (r as int) / (new_r as int));
            lemma_fundamental_div_mod(r as int, new_r as int);
            lemma_mod_bound(r as int, new_r as int);
            assert(0 <= (quotient as int) * (new_r as int) <= r);
            assert(r - (quotient as int) * (new_r as int) < new_r);
            lemma_eea_congruence(t as int, new_t as int, r as int, new_r as int,
                quotient as int, a as int, m as int);
            lemma_eea_bounds(t as int, new_t as int, r as int, new_r as int, quotient as int,
                m as int);
            lemma_gcd_step(r as int, new_r as int, quotient as int);
        }

        // Parallel assignment to update (t, new_t) and (r, new_r)
        let temp_t = t - quotient * new_t;
        t = new_t;
        new_t = temp_t;

        let temp_r = r - quotient * new_r;
        r = new_r;
        new_r = temp_r;
    }

    proof {
        assert(gcd(r as nat, 0nat) == r as nat);
    }
    if r > 1 {
        return Err("a is not invertible modulo m (GCD != 1)");
    }
    proof {
        if r == 0 {
            lemma_gcd_divides(m as nat, a as nat);
            let k = choose|k: int| m as int == #[trigger] mul_spec(0, k);
            assert(m as int == 0 * k);
            assert(0 * k == 0) by (nonlinear_arith);
            assert(false);
        }
        assert(r == 1);
        if t == m && m >= 2 {
            lemma_mul_is_commutative(m as int, a as int);
            lemma_mod_multiples_basic(a as int, m as int);
            lemma_small_mod(1nat, m as nat);
            assert(false);
        }
    }

    // Handle negative result from the subtraction
    let result: i128 = if t < 0 {
        proof {
            assert(((t + m) as int) * (a as int) == (a as int) * (m as int) + (t as int) * (
            a as int)) by (nonlinear_arith);
            lemma_mod_multiples_vanish(a as int, (t as int) * (a as int), m as int);
        }
        t + m
    } else {
        t
    };

    Ok(result)
}

} // verus!
