//! Multiplicative inverses in a finite field by the extended Euclidean
//! algorithm: the coefficient-tracking iteration, a trial-division primality
//! test for choosing a valid field modulus, and a brute-force inverse search.

use vstd::prelude::*;
use vstd::math::abs;
use vstd::arithmetic::div_mod::{lemma_small_mod, lemma_fundamental_div_mod,
    lemma_mod_multiples_vanish, lemma_mod_multiples_basic};
use vstd::arithmetic::mul::lemma_mul_is_commutative;
use crate::number_theory::{gcd, divides, is_prime, mul_spec, lemma_eea_congruence,
    lemma_eea_bounds, lemma_gcd_step, lemma_divides_mod_zero, lemma_prime_from_trial,
    lemma_divides_transitive, lemma_coprime_inverse};

verus! {

/// Largest modulus the coefficient arithmetic accepts: quotients times
/// coefficients stay within twice the modulus, which must fit in an `i128`.
pub const FIELD_LIMIT: u128 = 0x4000_0000_0000_0000_0000_0000_0000_0000;

/// Multiplicative inverse of `num` in the field of the prime `p` (any
/// modulus coprime to `num` works), by the extended Euclidean algorithm.
/// The returned coefficient is brought into the canonical range `[0, p-1]`
/// and satisfies `num * r = 1 (mod p)`.
pub fn eea_inv(num: u128, p: u128) -> (r: u128)
    requires
        num != 0,
        num < p,
        p < FIELD_LIMIT,
        gcd(p as nat, num as nat) == 1,
    ensures
        r < p,
        ((num as int) * (r as int)) % (p as int) == 1,
{
    let (mut t, mut new_t): (i128, i128) = (0, 1);
    let (mut r, mut new_r): (u128, u128) = (p, num);

    proof {
        lemma_small_mod(0nat, p as nat);
        lemma_mod_multiples_basic(1, p as int);
        lemma_small_mod(num as nat, p as nat);
    }
    // loop runs until the remainder (new_r) is 0
    while new_r != 0
        invariant
            2 <= p < FIELD_LIMIT,
            1 <= num < p,
            new_r < r,
            r <= p,
            gcd(r as nat, new_r as nat) == 1,
            gcd(p as nat, num as nat) == 1,
            ((t as int) * (num as int)) % (p as int) == (r as int) % (p as int),
            ((new_t as int) * (num as int)) % (p as int) == (new_r as int) % (p as int),
            (t as int) * (new_t as int) <= 0,
            abs(t as int) * (new_r as int) + abs(new_t as int) * (r as int) <= p,
            abs(t as int) <= p,
            abs(new_t as int) <= p,
        decreases new_r,
    {
        let quotient = r / new_r;
        proof {
            lemma_fundamental_div_mod(r as int, new_r as int);
            assert(0 <= (quotient as int) * (new_r as int) <= r);
            lemma_eea_congruence(t as int, new_t as int, r as int, new_r as int,
                quotient as int, num as int, p as int);
            lemma_eea_bounds(t as int, new_t as int, r as int, new_r as int, quotient as int,
                p as int);
            lemma_gcd_step(r as int, new_r as int, quotient as int);
        }

        // Update the coefficients (t) and remainder (r)
        let next_t = t - (quotient as i128) * new_t;
        t = new_t;
        new_t = next_t;
        let next_r = r - quotient * new_r;
        r = new_r;
        new_r = next_r;
    }

    // The final remainder is the gcd, which the precondition pins at 1,
    // so the coefficient t is an inverse of num.
    proof {
        assert(gcd(r as nat, 0nat) == r as nat);
        assert(r == 1);
        lemma_small_mod(1nat, p as nat);
        if t == p as i128 {
            lemma_mul_is_commutative(p as int, num as int);
            lemma_mod_multiples_basic(num as int, p as int);
            assert(false);
        }
    }
    let result: i128 = if t < 0 {
        proof {
            assert(((t + p) as int) * (num as int) == (num as int) * (p as int) + (t as int) * (
            num as int)) by (nonlinear_arith);
            lemma_mod_multiples_vanish(num as int, (t as int) * (num as int), p as int);
        }
        t + (p as i128)
    } else {
        t
    };
    proof {
        lemma_mul_is_commutative(result as int, num as int);
    }

    // The resulting coefficient can be negative; adding p above brought it
    // into the valid range [0, p-1].
    result as u128
}

/// Only allow primes to be used as the finite field modulus: trial division
/// by 2, 3 and the numbers `6k - 1`, `6k + 1` up to the square root.
pub fn only_prime(p: u128) -> (r: bool)
    requires
        p < FIELD_LIMIT,
    ensures
        r == is_prime(p as int),
{
    if p <= 1 {
        return false;
    }
    if p <= 3 {
        proof {
            assert forall|d: int| 2 <= d < p implies !(#[trigger] divides(d, p as int)) by {
                lemma_divides_mod_zero(d, p as int);
            }
        }
        return true;
    }
    if p % 2 == 0 || p % 3 == 0 {
        proof {
            if p % 2 == 0 {
                lemma_divides_mod_zero(2, p as int);
            } else {
                lemma_divides_mod_zero(3, p as int);
            }
        }
        return false;
    }
    let mut i: u128 = 5;
    proof {
        assert forall|d: int| 2 <= d < 5 implies !(#[trigger] divides(d, p as int)) by {
            if d == 2 {
                lemma_divides_mod_zero(2, p as int);
            } else if d == 3 {
                lemma_divides_mod_zero(3, p as int);
            } else if divides(4, p as int) {
                assert(4int == mul_spec(2, 2));
                lemma_divides_transitive(2, 4, p as int);
                lemma_divides_mod_zero(2, p as int);
            }
        }
    }
    while i * i <= p
        invariant
            5 <= p < FIELD_LIMIT,
            p % 2 != 0,
            p % 3 != 0,
            i % 6 == 5,
            5 <= i,
            i <= p + 6,
            (i as int) * (i as int) <= u128::MAX,
            forall|d: int| 2 <= d < i ==> !(#[trigger] divides(d, p as int)),
        decreases p + 6 - i,
    {
        if p % i == 0 || p % (i + 2) == 0 {
            proof {
                assert(i < p && i + 2 < p) by (nonlinear_arith)
                    requires
                        (i as int) * (i as int) <= p,
                        5 <= i,
                ;
                if p % i == 0 {
                    lemma_divides_mod_zero(i as int, p as int);
                } else {
                    lemma_divides_mod_zero((i + 2) as int, p as int);
                }
            }
            return false;
        }
        proof {
            lemma_divides_mod_zero(i as int, p as int);
            lemma_divides_mod_zero((i + 2) as int, p as int);
            lemma_trial_window(i as int, p as int);
            assert((i as int) * (i as int) <= p);
            assert(i <= p && ((i + 6) as int) * ((i + 6) as int) <= u128::MAX)
                by (nonlinear_arith)
                requires
                    (i as int) * (i as int) <= p,
                    p < FIELD_LIMIT,
                    5 <= i,
            ;
        }
        i += 6;
    }
    proof {
        assert((i as int) * (i as int) > p);
        assert forall|d: int| 2 <= d <= i - 1 implies !(#[trigger] divides(d, p as int)) by {
        }
        lemma_prime_from_trial(p as int, i as int - 1);
    }
    return true;
}

/// Checking `i` and `i + 2` suffices to push the no-divisor window from `i`
/// to `i + 6`, once 2 and 3 are excluded: every other number in the window
/// is a multiple of 2 or 3.
proof fn lemma_trial_window(i: int, p: int)
    requires
        i % 6 == 5,
        5 <= i,
        p % 2 != 0,
        p % 3 != 0,
        !divides(i, p),
        !divides(i + 2, p),
        forall|d: int| 2 <= d < i ==> !(#[trigger] divides(d, p)),
    ensures
        forall|d: int| 2 <= d < i + 6 ==> !(#[trigger] divides(d, p)),
{
    lemma_fundamental_div_mod(i, 6);
    let m = i / 6;
    assert forall|d: int| 2 <= d < i + 6 implies !(#[trigger] divides(d, p)) by {
        if d >= i && divides(d, p) {
            if d == i + 1 {
                assert(d == mul_spec(2, 3 * m + 3));
                lemma_divides_transitive(2, d, p);
                lemma_divides_mod_zero(2, p);
            } else if d == i + 3 {
                assert(d == mul_spec(2, 3 * m + 4));
                lemma_divides_transitive(2, d, p);
                lemma_divides_mod_zero(2, p);
            } else if d == i + 4 {
                assert(d == mul_spec(3, 2 * m + 3));
                lemma_divides_transitive(3, d, p);
                lemma_divides_mod_zero(3, p);
            } else if d == i + 5 {
                assert(d == mul_spec(2, 3 * m + 5));
                lemma_divides_transitive(2, d, p);
                lemma_divides_mod_zero(2, p);
            }
        }
    }
}

/// Finding the multiplicative inverse of a number in the finite field `p`
/// by brute force: the least `target` with `num * target = 1 (mod p)`.
pub fn eea_inv2(num: u32, p: u32) -> (r: u32)
    requires
        1 <= num < p,
        p <= 0x10000,
        gcd(p as nat, num as nat) == 1,
    ensures
        r < p,
        ((num as int) * (r as int)) % (p as int) == 1,
{
    proof {
        lemma_coprime_inverse(num as int, p as int);
    }
    let ghost inv0: int = choose|t: int|
        0 <= t < p && #[trigger] mul_spec(num as int, t) % (p as int) == 1;
    let mut target: u32 = 0;
    loop
        invariant_except_break
            1 <= num < p <= 0x10000,
            0 <= target <= inv0 < p,
            mul_spec(num as int, inv0) % (p as int) == 1,
        ensures
            target < p,
            ((num as int) * (target as int)) % (p as int) == 1,
        decreases inv0 - target,
    {
        proof {
            assert((num as int) * (target as int) <= u32::MAX) by (nonlinear_arith)
                requires
                    0 <= (num as int) && (num as int) < 0x10000,
                    0 <= (target as int) && (target as int) < 0x10000,
            ;
        }
        let mul = num * target;
        if mul % p == 1 {
            break;
        }
        proof {
            assert(target != inv0);
        }
        target += 1;
    }
    return target;
}

} // verus!
