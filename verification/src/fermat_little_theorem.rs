//! Modular inverses by Fermat's little theorem: `a^(p-2) mod p`, valid when
//! the modulus is prime; the input checks reject obvious non-field inputs.

use vstd::prelude::*;
use vstd::math::abs;
use vstd::arithmetic::power::{pow, lemma_pow0, lemma_pow_mod_noop};
use vstd::arithmetic::div_mod::{lemma_small_mod, lemma_mod_bound};
use crate::number_theory::{lemma_pow_mod_even, lemma_pow_mod_odd, lemma_mul_fits};

verus! {

/// Largest modulus the exponentiation accepts: squares of residues must fit
/// in an `i128`.
pub const MODULUS_LIMIT: i128 = 0x8000_0000_0000_0000;

/// Modular exponentiation by repeated squaring: `base^exp mod modulus`.
fn mod_pow(base: i128, exp: i128, modulus: i128) -> (r: i128)
    requires
        0 <= base,
        0 <= exp,
        1 <= modulus <= MODULUS_LIMIT,
    ensures
        r == pow(base as int, exp as nat) % (modulus as int),
        0 <= r < modulus,
{
    if modulus == 1 {
        proof {
            lemma_mod_bound(pow(base as int, exp as nat), 1int);
        }
        return 0;
    }
    let ghost b0: int = base as int;
    let ghost e0: nat = exp as nat;
    let mut result: u128 = 1;
    let mut base = (base as u128) % (modulus as u128);
    let mut exp = exp as u128;
    proof {
        lemma_pow_mod_noop(b0, e0, modulus as int);
    }
    while exp > 0
        invariant
            2 <= modulus <= MODULUS_LIMIT,
            base < modulus as u128,
            result < modulus as u128,
            (result * pow(base as int, exp as nat)) % (modulus as int) == pow(b0, e0) % (
            modulus as int),
        decreases exp,
    {
        proof {
            lemma_mul_fits(result as int, base as int, modulus as int, 0x8000_0000_0000_0000);
            lemma_mul_fits(base as int, base as int, modulus as int, 0x8000_0000_0000_0000);
            if exp % 2 == 1 {
                lemma_pow_mod_odd(result as int, base as int, exp as nat, modulus as int);
            } else {
                lemma_pow_mod_even(result as int, base as int, exp as nat, modulus as int);
            }
        }
        if exp % 2 == 1 {
            result = (result * base) % (modulus as u128);
        }
        // exp = exp / 2
        exp = exp / 2;
        base = (base * base) % (modulus as u128);
    }
    proof {
        lemma_pow0(base as int);
        lemma_small_mod(result as nat, modulus as nat);
    }
    result as i128
}

/// Fermat's little theorem inverse, `a^(p-2) mod p`.
/// Restriction: the modulus `p` must be prime for the result to be an
/// inverse; the checks here only reject a factor of `p` and out-of-range
/// inputs, exactly as stated in the contract.
pub fn inverse_fermat(a: i128, p: i128) -> (res: Result<i128, &'static str>)
    requires
        a != 0,
        a != i128::MIN,
        0 <= p <= MODULUS_LIMIT,
    ensures
        a != 1 && (p as int) % (abs(a as int) as int) == 0int ==> res is Err,
        !(a != 1 && (p as int) % (abs(a as int) as int) == 0int) && (a <= 0 || a >= p) ==> res
            is Err,
        !(a != 1 && (p as int) % (abs(a as int) as int) == 0int) && 0 < a < p ==> res == Ok::<i128, &'static str>(
            (pow(a as int, (p - 2) as nat) % (p as int)) as i128,
        ),
        (res matches Ok(v) ==> 0 <= v < p),
{
    if a != 1 {
        let factor = if a > 0 {
            (p as u128) % (a as u128) == 0
        } else {
            (p as u128) % ((-a) as u128) == 0
        };
        proof {
            if a < 0 {
                assert(abs(a as int) == (-a) as int);
            }
        }
        if factor {
            return Err("Cannot pass in a factor of the prime modulus field");
        }
    }
    if a <= 0 || a >= p {
        // In a real field, we strictly normalize inputs.
        return Err("Input must be in range [1, p-1]");
    }

    // a^(p-2) mod p
    Ok(mod_pow(a, p - 2, p))
}

} // verus!
