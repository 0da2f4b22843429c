//! The extended Euclidean algorithm in full: both Bezout coefficients and
//! the gcd of the two inputs, from one coefficient-tracking iteration.

use vstd::prelude::*;
use vstd::math::abs;
use vstd::arithmetic::div_mod::lemma_fundamental_div_mod;
use crate::number_theory::{gcd, lemma_eea_bounds, lemma_gcd_step};

verus! {

/// Largest input the coefficient arithmetic accepts in an `i64`.
pub const INPUT_LIMIT: i64 = 0x2000_0000_0000_0000;

/// Gets the coefficients `(x, y)` and the gcd `g` of the variables `a` and
/// `m` in the equation `a*x + m*y = g`.
pub fn eea_gcd(a: i64, m: i64) -> (res: (i64, i64, i64))
    requires
        0 <= a < INPUT_LIMIT,
        0 <= m < INPUT_LIMIT,
    ensures
        res.2 == gcd(a as nat, m as nat),
        (res.0 as int) * (a as int) + (res.1 as int) * (m as int) == res.2,
{
    // coefficient of a
    let (mut t, mut new_t): (i64, i64) = (0, 1);
    // remainder
    let (mut r, mut new_r): (i64, i64) = (a, m);
    // coefficient of m
    let (mut s, mut new_s): (i64, i64) = (1, 0);

    let ghost bound: int = a as int + m as int + 1;
    while new_r != 0
        invariant
            0 <= a < INPUT_LIMIT,
            0 <= m < INPUT_LIMIT,
            bound == a as int + m as int + 1,
            0 <= new_r <= bound,
            0 <= r <= bound,
            gcd(r as nat, new_r as nat) == gcd(a as nat, m as nat),
            (s as int) * (a as int) + (t as int) * (m as int) == r,
            (new_s as int) * (a as int) + (new_t as int) * (m as int) == new_r,
            (t as int) * (new_t as int) <= 0,
            (s as int) * (new_s as int) <= 0,
            abs(t as int) * (new_r as int) + abs(new_t as int) * (r as int) <= bound,
            abs(s as int) * (new_r as int) + abs(new_s as int) * (r as int) <= bound,
            abs(t as int) <= bound,
            abs(new_t as int) <= bound,
            abs(s as int) <= bound,
            abs(new_s as int) <= bound,
        decreases new_r,
    {
        proof {
            vstd::arithmetic::div_mod::lemma_div_nonincreasing(r as int, new_r as int);
            vstd::arithmetic::div_mod::lemma_div_pos_is_pos(r as int, new_r as int);
        }
        let q = ((r as u64) / (new_r as u64)) as i64;
        proof {
            assert(q as int == (r as int) / (new_r as int));
            lemma_fundamental_div_mod(r as int, new_r as int);
            vstd::arithmetic::div_mod::lemma_mod_bound(r as int, new_r as int);
            assert(0 <= (q as int) * (new_r as int) <= r);
            assert(r - (q as int) * (new_r as int) < new_r);
            lemma_eea_bounds(t as int, new_t as int, r as int, new_r as int, q as int, bound);
            lemma_eea_bounds(s as int, new_s as int, r as int, new_r as int, q as int, bound);
            lemma_gcd_step(r as int, new_r as int, q as int);
            assert(((s as int) - (q as int) * (new_s as int)) * (a as int) + ((t as int) - (
            q as int) * (new_t as int)) * (m as int) == r - (q as int) * (new_r as int))
                by (nonlinear_arith)
                requires
                    (s as int) * (a as int) + (t as int) * (m as int) == r as int,
                    (new_s as int) * (a as int) + (new_t as int) * (m as int) == new_r as int,
            ;
        }
        let next_r = r - q * new_r;
        let next_s = s - q * new_s;
        let next_t = t - q * new_t;
        r = new_r;
        new_r = next_r;
        s = new_s;
        new_s = next_s;
        t = new_t;
        new_t = next_t;
    }
    proof {
        assert(gcd(r as nat, 0nat) == r as nat);
    }
    return (s, t, r);
}

} // verus!
