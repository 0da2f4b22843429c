//! Modular square-root algorithms: the direct formula for primes congruent
//! to 3 mod 4, the Tonelli-Shanks algorithm, and Cipolla's algorithm in a
//! quadratic extension field, together with a brute-force root search. All
//! find an `x` with `x^2 = a (mod p)` when `a` is a quadratic residue.

use vstd::prelude::*;
use vstd::arithmetic::power::{pow, lemma_pow0, lemma_pow1, lemma_pow_adds, lemma_pow_mod_noop};
use vstd::arithmetic::power2::{pow2, lemma_pow2_strictly_increases, lemma2_to64};
use vstd::arithmetic::div_mod::{lemma_small_mod, lemma_mul_mod_noop_general,
    lemma_mul_mod_noop_right, lemma_mod_twice, lemma_mod_bound};
use crate::number_theory::{lemma_pow_mod_even, lemma_pow_mod_odd, is_prime, divides,
    lemma_divides_mod_zero, lemma_divides_bound, lemma_euclid, lemma_prime_divides_pow,
    lemma_small_nondivides};

verus! {

/// Largest modulus this module's exponentiation accepts: squares of residues
/// must fit in a `u128`.
pub const MODULUS_LIMIT: u128 = 0x1_0000_0000_0000_0000;

/// `b^e mod m`.
pub open spec fn pm(b: int, e: nat, m: int) -> int {
    pow(b, e) % m
}

/// The Euler criterion value deciding quadratic residuosity: `a^((p-1)/2)`
/// mod `p`, which is 1 for residues of an odd prime.
pub open spec fn euler_criterion(a: int, p: int) -> int {
    pm(a % p, (((p - 1) / 2)) as nat, p)
}

/// `w` is certified a quadratic non-residue by the Euler criterion.
pub open spec fn is_certified_nonresidue(w: int, p: int) -> bool {
    pm(w, (((p - 1) / 2)) as nat, p) == p - 1
}

/// The product of two residues below a modulus within `MODULUS_LIMIT` fits
/// in a `u128`.
proof fn lemma_residue_product_fits(a: int, b: int, m: int)
    requires
        0 <= a < m,
        0 <= b < m,
        m <= MODULUS_LIMIT,
    ensures
        0 <= a * b <= u128::MAX,
{
    assert(0 <= a * b && a * b <= (m - 1) * (m - 1)) by (nonlinear_arith)
        requires
            0 <= a < m,
            0 <= b < m,
    ;
    assert((m - 1) * (m - 1) <= (MODULUS_LIMIT - 1) * (MODULUS_LIMIT - 1)) by (nonlinear_arith)
        requires
            0 <= m - 1 <= MODULUS_LIMIT - 1,
    ;
}

/// Simple modular exponentiation by repeated squaring.
pub fn mod_pow(base: u128, exp: u128, modulus: u128) -> (r: u128)
    requires
        1 <= modulus <= MODULUS_LIMIT,
    ensures
        r == pm(base as int, exp as nat, modulus as int),
        r < modulus,
{
    let mut base = base;
    let mut exp = exp;
    if modulus == 1 {
        return 0;
    }
    let ghost b0: int = base as int;
    let ghost e0: nat = exp as nat;
    let mut result: u128 = 1;
    base %= modulus;
    proof {
        lemma_pow_mod_noop(b0, e0, modulus as int);
    }
    while exp > 0
        invariant
            1 <= modulus <= MODULUS_LIMIT,
            base < modulus,
            result < modulus,
            (result * pow(base as int, exp as nat)) % (modulus as int) == pm(
                b0,
                e0,
                modulus as int,
            ),
        decreases exp,
    {
        proof {
            lemma_residue_product_fits(result as int, base as int, modulus as int);
            lemma_residue_product_fits(base as int, base as int, modulus as int);
            if exp % 2 == 1 {
                lemma_pow_mod_odd(result as int, base as int, exp as nat, modulus as int);
            } else {
                lemma_pow_mod_even(result as int, base as int, exp as nat, modulus as int);
            }
        }
        if exp % 2 == 1 {
            result = (result * base) % modulus;
        }
        exp = exp / 2;
        base = (base * base) % modulus;
    }
    proof {
        lemma_pow0(base as int);
        lemma_small_mod(result as nat, modulus as nat);
    }
    result
}

/// Direct square root for primes `p = 3 (mod 4)`: `a^((p+1)/4) mod p`, after
/// the Euler criterion has certified `a` a quadratic residue. Other moduli
/// and non-residues get `None`.
pub fn sqrt_mod_p3mod4(a: u128, p: u128) -> (r: Option<u128>)
    requires
        p <= MODULUS_LIMIT,
    ensures
        p % 4 != 3 ==> r is None,
        p % 4 == 3 && euler_criterion(a as int, p as int) != 1 ==> r is None,
        p % 4 == 3 && euler_criterion(a as int, p as int) == 1 ==> r == Some(
            pm((a % p) as int, (((p + 1) / 4)) as nat, p as int) as u128,
        ),
        (r matches Some(v) ==> v < p),
{
    // Check if p = 3 (mod 4)
    if p % 4 != 3 {
        return None;
    }

    // Check if a is a quadratic residue using Euler's criterion
    let euler = mod_pow(a % p, (p - 1) / 2, p);
    if euler != 1 {
        return None;  // Not a quadratic residue
    }

    // Compute r = a^((p+1)/4) mod p
    let r = mod_pow(a % p, (p + 1) / 4, p);
    proof {
        lemma_mod_twice(a as int, p as int);
    }
    Some(r)
}

/// One Tonelli-Shanks update keeps the driving congruence
/// `r^2 = n0 * t (mod p)` intact.
proof fn lemma_ts_step(r: int, b: int, t: int, cp: int, n0: int, p: int)
    requires
        p >= 2,
        (r * r) % p == (n0 * t) % p,
        cp == (b * b) % p,
    ensures
        (((r * b) % p) * ((r * b) % p)) % p == (n0 * ((t * cp) % p)) % p,
{
    lemma_mul_mod_noop_general((r * b), (r * b), p);
    assert((r * b) * (r * b) == (r * r) * (b * b)) by (nonlinear_arith);
    lemma_mul_mod_noop_general(r * r, b * b, p);
    lemma_mul_mod_noop_general(n0 * t, b * b, p);
    assert((n0 * t) * (b * b) == n0 * (t * (b * b))) by (nonlinear_arith);
    lemma_mul_mod_noop_right(n0, t * (b * b), p);
    lemma_mul_mod_noop_right(t, b * b, p);
    lemma_mul_mod_noop_right(n0, t * ((b * b) % p), p);
    lemma_mul_mod_noop_right(t, (b * b) % p, p);
}

/// A residue below a prime that divides a product of residues forces one
/// factor to vanish.
proof fn lemma_residue_product_zero(t: int, c: int, p: int)
    requires
        is_prime(p),
        0 <= t < p,
        0 <= c < p,
        (t * c) % p == 0,
    ensures
        t == 0 || c == 0,
{
    lemma_divides_mod_zero(p, t * c);
    assert(t * c >= 0) by (nonlinear_arith)
        requires
            t >= 0,
            c >= 0,
    ;
    if t != 0 && c != 0 {
        lemma_small_nondivides(p, t);
        lemma_euclid(p, t, c);
        lemma_small_nondivides(p, c);
    }
}

/// A power residue that vanishes mod a prime forces the base residue to
/// vanish.
proof fn lemma_pow_residue_zero(x: int, e: nat, p: int)
    requires
        is_prime(p),
        0 <= x < p,
        e >= 1,
        pm(x, e, p) == 0,
    ensures
        x == 0,
{
    lemma_divides_mod_zero(p, pow(x, e));
    if x != 0 {
        lemma_prime_divides_pow(p, x, e);
        lemma_small_nondivides(p, x);
    }
}

/// The Tonelli-Shanks algorithm, which works for any odd prime modulus.
///
/// The contract pins the Euler-criterion rejection and the fast path for
/// `p = 3 (mod 4)` exactly, and guarantees that for a prime modulus any
/// returned value really is a square root of `n`. The searches that the
/// general case runs (for a non-residue, and for the order of `t`) stop and
/// return `None` where the textbook algorithm would rely on `p` being prime
/// and loop or fail; on primes those stops are never taken.
pub fn tonelli_shanks(n: u128, p: u128) -> (r: Option<u128>)
    requires
        1 <= p <= MODULUS_LIMIT,
    ensures
        euler_criterion(n as int, p as int) != 1 ==> r is None,
        p % 4 == 3 && euler_criterion(n as int, p as int) == 1 ==> r == Some(
            pm((n % p) as int, (((p + 1) / 4)) as nat, p as int) as u128,
        ),
        (r matches Some(v) ==> v < p),
        is_prime(p as int) ==> (r matches Some(v) ==> ((v as int) * (v as int)) % (p as int) == (
        n as int) % (p as int)),
{
    let ghost n0: int = (n % p) as int;
    // Check if n is a quadratic residue
    let euler = mod_pow(n % p, (p - 1) / 2, p);
    proof {
        lemma_mod_twice(n as int, p as int);
    }
    if euler != 1 {
        return None;  // Not a quadratic residue
    }
    proof {
        if p == 1 {
            lemma_mod_bound(pow((n % p) as int, (((p - 1) / 2)) as nat), 1int);
            assert(false);
        }
    }

    // Special case: p = 3 (mod 4) - use faster method
    if p % 4 == 3 {
        let r = mod_pow(n % p, (p + 1) / 4, p);
        proof {
            if is_prime(p as int) {
                lemma_ts_fast_path(n0, p as int);
            }
        }
        return Some(r);
    }

    // Write p - 1 = Q * 2^S where Q is odd
    let mut q = p - 1;
    let mut s: u128 = 0;
    proof {
        lemma2_to64();
    }
    while q % 2 == 0
        invariant
            2 <= p <= MODULUS_LIMIT,
            q >= 1,
            q * pow2(s as nat) == p - 1,
            s <= 64,
        decreases q,
    {
        proof {
            assert((q / 2) * pow2((s + 1) as nat) == q * pow2(s as nat)) by {
                vstd::arithmetic::power2::lemma_pow2_unfold((s + 1) as nat);
                assert((q / 2) * (2 * pow2(s as nat)) == q * pow2(s as nat)) by (nonlinear_arith)
                    requires
                        q % 2 == 0,
                        q >= 0,
                ;
            }
            assert(pow2((s + 1) as nat) <= p - 1) by (nonlinear_arith)
                requires
                    (q / 2) * pow2((s + 1) as nat) == p - 1,
                    q / 2 >= 1,
                    pow2((s + 1) as nat) >= 0,
            ;
            if s + 1 > 64 {
                lemma2_to64();
                lemma_pow2_strictly_increases(64, (s + 1) as nat);
                assert(false);
            }
        }
        q /= 2;
        s += 1;
    }
    proof {
        assert(q <= p - 1) by (nonlinear_arith)
            requires
                q * pow2(s as nat) == p - 1,
                pow2(s as nat) >= 1,
                q >= 1,
        ;
    }

    // Find a quadratic non-residue z
    let mut z: u128 = 2;
    loop
        invariant_except_break
            2 <= p <= MODULUS_LIMIT,
            p % 4 != 3,
            euler_criterion(n as int, p as int) == 1,
            2 <= z,
            p >= 3 ==> z < p,
            p <= 2 ==> z == 2,
        ensures
            2 <= p <= MODULUS_LIMIT,
            p % 4 != 3,
            euler_criterion(n as int, p as int) == 1,
            pm(z as int, (((p - 1) / 2)) as nat, p as int) == p - 1,
            2 <= z,
            p >= 3 ==> z < p,
            p <= 2 ==> z == 2,
        decreases p + 2 - z,
    {
        if mod_pow(z, (p - 1) / 2, p) == p - 1 {
            break;
        }
        z += 1;
        if z >= p {
            return None;
        }
    }

    // Initialize variables
    let mut m = s;
    let mut c = mod_pow(z, q, p);
    let mut t = mod_pow(n, q, p);
    let mut r = mod_pow(n, (q + 1) / 2, p);

    proof {
        lemma_mod_twice(n as int, p as int);
        lemma_pow_mod_noop(n as int, q as nat, p as int);
        lemma_pow_mod_noop(n as int, (((q + 1) / 2)) as nat, p as int);
        lemma_ts_init(n0, q as int, p as int);
        if is_prime(p as int) {
            if t == 0 {
                lemma_pow_residue_zero(n0, q as nat, p as int);
            }
            if c == 0 && p >= 3 {
                lemma_pow_residue_zero(z as int, q as nat, p as int);
            }
        }
    }

    // Main loop
    loop
        invariant
            2 <= p <= MODULUS_LIMIT,
            p % 4 != 3,
            euler_criterion(n as int, p as int) == 1,
            n0 == (n as int) % (p as int),
            0 <= n0 < p,
            m <= 64,
            c < p,
            t < p,
            r < p,
            ((r as int) * (r as int)) % (p as int) == (n0 * (t as int)) % (p as int),
            is_prime(p as int) ==> (t == 0 ==> n0 == 0),
            is_prime(p as int) ==> (c == 0 ==> (n0 == 0 || p <= 2)),
        decreases m,
    {
        if t == 0 {
            proof {
                if is_prime(p as int) {
                    lemma_small_mod(0nat, p as nat);
                    assert(n0 == 0);
                    assert((n as int) % (p as int) == 0);
                }
            }
            return Some(0);
        }
        if t == 1 {
            proof {
                lemma_small_mod(n0 as nat, p as nat);
                assert((n0 * (t as int)) % (p as int) == n0);
                assert(((r as int) * (r as int)) % (p as int) == (n as int) % (p as int));
            }
            return Some(r);
        }

        // Find the least i such that t^(2^i) = 1
        let mut i: u128 = 1;
        proof {
            lemma_residue_product_fits(t as int, t as int, p as int);
        }
        let mut temp = (t * t) % p;
        while temp != 1 && i < m
            invariant
                2 <= p <= MODULUS_LIMIT,
                temp < p,
                1 <= i <= 64,
                m <= 64,
            decreases m - i,
        {
            proof {
                lemma_residue_product_fits(temp as int, temp as int, p as int);
            }
            temp = (temp * temp) % p;
            i += 1;
        }
        if i >= m {
            // With a prime modulus and a certified residue this cannot
            // happen; stop rather than underflow below.
            return None;
        }

        // Update values
        let sh: u128 = m - i - 1;
        proof {
            assert(1u128 << sh >= 1) by (bit_vector)
                requires
                    sh < 128u128,
            ;
        }
        let b = mod_pow(c, 1u128 << sh, p);
        proof {
            lemma_ts_step(r as int, b as int, t as int, ((b as int) * (b as int)) % (p as int),
                n0, p as int);
            lemma_residue_product_fits(b as int, b as int, p as int);
            lemma_residue_product_fits(t as int, (((b as int) * (b as int)) % (p as int)),
                p as int);
            lemma_residue_product_fits(r as int, b as int, p as int);
            if is_prime(p as int) && p >= 3 {
                let bb = ((b as int) * (b as int)) % (p as int);
                if bb == 0 {
                    lemma_residue_product_zero(b as int, b as int, p as int);
                    if c != 0 {
                        lemma_pow_residue_zero(c as int, (1u128 << sh) as nat, p as int);
                    }
                }
                if ((t as int) * bb) % (p as int) == 0 {
                    lemma_residue_product_zero(t as int, bb, p as int);
                }
            }
        }
        m = i;
        c = (b * b) % p;
        t = (t * c) % p;
        r = (r * b) % p;
    }
}

/// Establishes the driving congruence at loop entry:
/// `(n0^((q+1)/2))^2 = n0 * n0^q (mod p)` for odd `q`.
proof fn lemma_ts_init(n0: int, q: int, p: int)
    requires
        p >= 1,
        q >= 1,
        q % 2 == 1,
    ensures
        ((pm(n0, (((q + 1) / 2)) as nat, p)) * (pm(n0, (((q + 1) / 2)) as nat, p))) % p == (n0
            * pm(n0, q as nat, p)) % p,
{
    let h = ((q + 1) / 2) as nat;
    lemma_mul_mod_noop_general(pow(n0, h), pow(n0, h), p);
    lemma_pow_adds(n0, h, h);
    assert(h + h == q + 1);
    lemma_pow1(n0);
    lemma_pow_adds(n0, 1, q as nat);
    lemma_mul_mod_noop_right(n0, pow(n0, q as nat), p);
}

/// On the fast path the returned value squares to `n` mod `p`: for
/// `p = 3 (mod 4)` and Euler criterion 1, `(n0^((p+1)/4))^2 = n0 (mod p)`.
proof fn lemma_ts_fast_path(n0: int, p: int)
    requires
        p % 4 == 3,
        p >= 3,
        0 <= n0 < p,
        pm(n0, (((p - 1) / 2)) as nat, p) == 1,
    ensures
        (pm(n0, (((p + 1) / 4)) as nat, p) * pm(n0, (((p + 1) / 4)) as nat, p)) % p == n0 % p,
{
    let e = ((p + 1) / 4) as nat;
    lemma_mul_mod_noop_general(pow(n0, e), pow(n0, e), p);
    lemma_pow_adds(n0, e, e);
    assert(e + e == (p + 1) / 2);
    assert((p + 1) / 2 == 1 + (p - 1) / 2);
    lemma_pow1(n0);
    lemma_pow_adds(n0, 1, (((p - 1) / 2)) as nat);
    lemma_mul_mod_noop_right(n0, pow(n0, (((p - 1) / 2)) as nat), p);
    lemma_mul_mod_noop_right(n0, 1, p);
    lemma_small_mod(n0 as nat, p as nat);
}

/// Largest modulus Cipolla's algorithm accepts: the extension-field products
/// sum two squares of residues, which must fit in a `u128`.
pub const CIPOLLA_LIMIT: u128 = 0x8000_0000_0000_0000;

/// Real part of the product of `ax + ay*w` and `bx + by*w` in the quadratic
/// extension with `w^2 = omega2`, with the reduction order of the executable
/// code.
pub open spec fn ext_mul_x(ax: int, ay: int, bx: int, by: int, omega2: int, p: int) -> int {
    (ax * bx + ((ay * by) % p) * omega2) % p
}

/// Imaginary part of the same product.
pub open spec fn ext_mul_y(ax: int, ay: int, bx: int, by: int, p: int) -> int {
    (ax * by + ay * bx) % p
}

/// The square-and-multiply accumulator in the extension field, consuming the
/// exponent bits least-significant first.
pub open spec fn ext_iter(rx: int, ry: int, bx: int, by: int, e: nat, omega2: int, p: int) -> (
    int,
    int,
)
    decreases e,
{
    if e == 0 {
        (rx, ry)
    } else {
        let nrx = if e % 2 == 1 {
            ext_mul_x(rx, ry, bx, by, omega2, p)
        } else {
            rx
        };
        let nry = if e % 2 == 1 {
            ext_mul_y(rx, ry, bx, by, p)
        } else {
            ry
        };
        ext_iter(
            nrx,
            nry,
            ext_mul_x(bx, by, bx, by, omega2, p),
            ext_mul_y(bx, by, bx, by, p),
            e / 2,
            omega2,
            p,
        )
    }
}

/// The shifted square `a^2 - n (mod p)` whose non-residuosity Cipolla's
/// search certifies.
pub open spec fn cip_shift(a: int, p: int, n0: int) -> int {
    (a * a + p - n0) % p
}

/// The least `a` at or above `lo` whose shifted square is a certified
/// non-residue; `p` if there is none below `p`.
pub open spec fn cip_witness(p: int, n0: int, lo: int) -> int
    decreases p - lo,
    when 0 <= lo <= p
{
    if lo >= p {
        p
    } else if is_certified_nonresidue(cip_shift(lo, p, n0), p) {
        lo
    } else {
        cip_witness(p, n0, lo + 1)
    }
}

/// The sums of products in one extension-field multiplication fit in a
/// `u128` for moduli within `CIPOLLA_LIMIT`.
proof fn lemma_ext_sums_fit(rx: int, ry: int, bx: int, by: int, w: int, p: int)
    requires
        0 <= rx < p,
        0 <= ry < p,
        0 <= bx < p,
        0 <= by < p,
        0 <= w < p,
        p <= CIPOLLA_LIMIT,
    ensures
        0 <= rx * bx + ((ry * by) % p) * w <= u128::MAX,
        0 <= rx * by + ry * bx <= u128::MAX,
        0 <= bx * bx + ((by * by) % p) * w <= u128::MAX,
        0 <= ((ry * by) % p) * w <= u128::MAX,
        0 <= ((by * by) % p) * w <= u128::MAX,
        0 <= ry * by <= u128::MAX,
        0 <= by * by <= u128::MAX,
        0 <= rx * bx <= u128::MAX,
        0 <= rx * by <= u128::MAX,
        0 <= ry * bx <= u128::MAX,
        0 <= bx * bx <= u128::MAX,
        0 <= 2 * bx,
        2 * bx <= u128::MAX,
        0 <= (2 * bx) * by <= u128::MAX,
{
    lemma_mod_bound(ry * by, p);
    lemma_mod_bound(by * by, p);
    assert(0 <= ry * by) by (nonlinear_arith)
        requires
            0 <= ry,
            0 <= by,
    ;
    assert(0 <= by * by) by (nonlinear_arith)
        requires
            0 <= by,
    ;
    assert(0 <= rx * bx + ((ry * by) % p) * w <= u128::MAX && 0 <= rx * by + ry * bx
        <= u128::MAX && 0 <= bx * bx + ((by * by) % p) * w <= u128::MAX && 0 <= (2 * bx) * by
        <= u128::MAX && 0 <= ((ry * by) % p) * w <= u128::MAX && 0 <= ((by * by) % p) * w
        <= u128::MAX && 0 <= ry * by <= u128::MAX && 0 <= by * by <= u128::MAX && 0 <= rx * bx
        <= u128::MAX && 0 <= rx * by <= u128::MAX && 0 <= ry * bx <= u128::MAX && 0 <= bx * bx
        <= u128::MAX) by (nonlinear_arith)
        requires
            0 <= rx < p,
            0 <= ry < p,
            0 <= bx < p,
            0 <= by < p,
            0 <= w < p,
            0 <= (ry * by) % p < p,
            0 <= (by * by) % p < p,
            p <= CIPOLLA_LIMIT,
    ;
}

/// Exponentiation in the quadratic extension field with `w^2 = omega2`:
/// computes the pair standing for `(x + y*w)^exp`.
pub fn field_pow(x: u128, y: u128, exp: u128, omega2: u128, p: u128) -> (r: (u128, u128))
    requires
        2 <= p <= CIPOLLA_LIMIT,
        x < p,
        y < p,
        omega2 < p,
    ensures
        (r.0 as int, r.1 as int) == ext_iter(1, 0, x as int, y as int, exp as nat, omega2 as int,
            p as int,
        ),
        r.0 < p,
        r.1 < p,
{
    let ghost e0: nat = exp as nat;
    let mut result_x: u128 = 1;
    let mut result_y: u128 = 0;
    let mut base_x = x;
    let mut base_y = y;
    let mut exp = exp;

    while exp > 0
        invariant
            2 <= p <= CIPOLLA_LIMIT,
            omega2 < p,
            result_x < p,
            result_y < p,
            base_x < p,
            base_y < p,
            ext_iter(result_x as int, result_y as int, base_x as int, base_y as int, exp as nat,
                omega2 as int, p as int) == ext_iter(1, 0, x as int, y as int, e0, omega2 as int,
                p as int,
            ),
        decreases exp,
    {
        proof {
            lemma_ext_sums_fit(result_x as int, result_y as int, base_x as int, base_y as int,
                omega2 as int, p as int);
        }
        if exp % 2 == 1 {
            // Multiply result by base
            let new_x = (result_x * base_x + result_y * base_y % p * omega2) % p;
            let new_y = (result_x * base_y + result_y * base_x) % p;
            result_x = new_x;
            result_y = new_y;
        }

        // Square base
        let new_x = (base_x * base_x + base_y * base_y % p * omega2) % p;
        let new_y = (2 * base_x * base_y) % p;
        proof {
            assert((2 * (base_x as int)) * (base_y as int) == (base_x as int) * (base_y as int) + (
            base_y as int) * (base_x as int)) by (nonlinear_arith);
        }
        base_x = new_x;
        base_y = new_y;

        exp = exp / 2;
    }

    (result_x, result_y)
}

/// Cipolla's square-root algorithm in a quadratic extension field. The
/// contract pins the whole computation: the Euler-criterion rejection, the
/// zero shortcut, the least shift `a` whose `a^2 - n` is a certified
/// non-residue, and the extension-field power whose real part is returned.
/// The shift search stops at `p` (returning `None`) instead of running
/// forever where no certified non-residue exists; for a prime modulus and a
/// residue `n` the search always finds one first.
pub fn cipolla(n: u128, p: u128) -> (r: Option<u128>)
    requires
        1 <= p <= CIPOLLA_LIMIT,
    ensures
        euler_criterion(n as int, p as int) != 1 ==> r is None,
        euler_criterion(n as int, p as int) == 1 && n % p == 0 ==> r == Some(0u128),
        euler_criterion(n as int, p as int) == 1 && n % p != 0 ==> {
            let a0 = cip_witness(p as int, (n % p) as int, 0);
            &&& (a0 == p ==> r is None)
            &&& (a0 < p ==> r == Some(
                ext_iter(1, 0, a0, 1, (((p + 1) / 2)) as nat, cip_shift(a0, p as int, (n % p) as int),
                    p as int).0 as u128,
            ))
        },
        (r matches Some(v) ==> v < p),
{
    let n_red = n % p;
    let ghost n0: int = n_red as int;

    // Check if n is a quadratic residue
    let euler = mod_pow(n_red, (p - 1) / 2, p);
    proof {
        lemma_mod_twice(n as int, p as int);
    }
    if euler != 1 {
        return None;
    }
    proof {
        if p == 1 {
            lemma_mod_bound(pow(n0, 0), 1int);
            assert(false);
        }
    }

    // Special case
    if n_red == 0 {
        return Some(0);
    }

    // Find a such that a^2 - n is a quadratic non-residue
    let mut a: u128 = 0;
    let mut omega2: u128;
    loop
        invariant_except_break
            2 <= p <= CIPOLLA_LIMIT,
            1 <= n_red < p,
            n0 == n_red as int,
            n0 == (n as int) % (p as int),
            euler_criterion(n as int, p as int) == 1,
            a < p,
            cip_witness(p as int, n0, 0) == cip_witness(p as int, n0, a as int),
        ensures
            2 <= p <= CIPOLLA_LIMIT,
            1 <= n_red < p,
            n0 == n_red as int,
            n0 == (n as int) % (p as int),
            euler_criterion(n as int, p as int) == 1,
            a < p,
            omega2 == cip_shift(a as int, p as int, n0),
            omega2 < p,
            is_certified_nonresidue(omega2 as int, p as int),
            cip_witness(p as int, n0, 0) == a as int,
        decreases p - a,
    {
        proof {
            assert((a as int) * (a as int) <= ((p as int) - 1) * ((p as int) - 1))
                by (nonlinear_arith)
                requires
                    0 <= a as int <= (p as int) - 1,
            ;
            assert(2 * (((p as int) - 1) * ((p as int) - 1)) <= u128::MAX) by (nonlinear_arith)
                requires
                    1 <= p as int <= CIPOLLA_LIMIT,
            ;
            assert(0 <= (a as int) * (a as int)) by (nonlinear_arith);
        }
        omega2 = (a * a + p - n_red) % p;
        if mod_pow(omega2, (p - 1) / 2, p) == p - 1 {
            break;
        }
        a += 1;
        if a >= p {
            proof {
                assert(cip_witness(p as int, n0, a as int) == p);
            }
            return None;
        }
    }

    // Compute (a + w)^((p+1)/2) in the extension field, where w^2 = a^2 - n
    let rr = field_pow(a, 1, (p + 1) / 2, omega2, p);
    Some(rr.0)
}

/// Brute-force square root: the least `i` below `p` whose square reduces to
/// `square`, or `p` itself when there is none.
pub fn get_root(square: u128, p: u128) -> (r: u128)
    requires
        p <= MODULUS_LIMIT,
    ensures
        r <= p,
        r < p ==> ((r as int) * (r as int)) % (p as int) == square,
        forall|j: int| 0 <= j < r ==> crate::number_theory::mul_spec(j, j) % (p as int) != square,
{
    let mut i: u128 = 0;
    while i < p
        invariant
            p <= MODULUS_LIMIT,
            i <= p,
            forall|j: int|
                0 <= j < i ==> crate::number_theory::mul_spec(j, j) % (p as int) != square,
        decreases p - i,
    {
        proof {
            lemma_residue_product_fits(i as int, i as int, p as int);
        }
        if i * i % p == square {
            return i;
        }
        proof {
            assert(crate::number_theory::mul_spec(i as int, i as int) % (p as int) != square);
        }
        i += 1;
    }
    p
}

} // verus!
