//! Nonce-reuse key recovery: two signatures sharing the same `r` leak the
//! nonce as the quotient of the hash difference by the signature difference,
//! and with it the private key. The divisions here are the plain truncated
//! integer divisions of the demonstration, not modular inverses.

use vstd::prelude::*;
use vstd::math::abs;

verus! {

/// Truncated (round-toward-zero) quotient, as machine signed division
/// computes it.
pub open spec fn trunc_div(a: int, b: int) -> int {
    if (a >= 0) == (b >= 0) {
        abs(a) as int / abs(b) as int
    } else {
        -(abs(a) as int / abs(b) as int)
    }
}

/// The nonce recovered from the two signatures:
/// `k = (z1 - z2) / (s1 - s2)`.
pub open spec fn recovered_nonce(z1: u64, z2: u64, s1: u64, s2: u64) -> int {
    trunc_div(z1 - z2, s1 - s2)
}

/// Recover the private key from two signatures that reused a nonce.
///
/// * `z1`, `z2`: hashes of the two messages
/// * `s1`, `s2`: the `s` parts of the two signatures
/// * `r`: the shared `r` (proving the nonce was reused)
/// * `n`: the curve order (unused by the simplified arithmetic)
pub fn recover_private_key(z1: u64, z2: u64, s1: u64, s2: u64, r: u64, n: u64) -> (key: u64)
    requires
        s1 != s2,
        r >= 1,
        0 <= recovered_nonce(z1, z2, s1, s2) <= u64::MAX,
        (s1 as int) * recovered_nonce(z1, z2, s1, s2) <= u64::MAX,
        (s1 as int) * recovered_nonce(z1, z2, s1, s2) >= z1 as int,
    ensures
        key == ((s1 as int) * recovered_nonce(z1, z2, s1, s2) - z1 as int) / (r as int),
{
    // Step 1: Recover the nonce k = (z1 - z2) / (s1 - s2), in plain
    // truncated division (a real attack divides by a modular inverse).
    let z_diff = (z1 as i128) - (z2 as i128);
    let s_diff = (s1 as i128) - (s2 as i128);

    let z_mag = if z_diff >= 0 {
        z_diff as u128
    } else {
        (-z_diff) as u128
    };
    let s_mag = if s_diff >= 0 {
        s_diff as u128
    } else {
        (-s_diff) as u128
    };
    let q_mag = z_mag / s_mag;
    let k: u64 = if (z_diff >= 0) == (s_diff >= 0) {
        proof {
            assert(recovered_nonce(z1, z2, s1, s2) == q_mag);
        }
        q_mag as u64
    } else {
        proof {
            assert(recovered_nonce(z1, z2, s1, s2) == -(q_mag as int));
        }
        0
    };

    // Step 2: Extract the private key: priv = ((s1 * k) - z1) / r
    let priv_key = ((s1 as u128) * (k as u128) - (z1 as u128)) / (r as u128);

    proof {
        vstd::arithmetic::div_mod::lemma_div_nonincreasing(
            (s1 as int) * (k as int) - z1 as int,
            r as int,
        );
        vstd::arithmetic::div_mod::lemma_div_pos_is_pos(
            (s1 as int) * (k as int) - z1 as int,
            r as int,
        );
    }
    priv_key as u64
}

} // verus!
