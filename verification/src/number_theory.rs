//! Shared number-theoretic specifications and lemmas: divisibility, greatest
//! common divisors and Bezout coefficients, primality, and Fermat's little
//! theorem, proved via the classical rearrangement of residues. The concrete
//! prime moduli of the field modules get their primality certificates here.

use vstd::prelude::*;
use vstd::arithmetic::power::{
    pow, lemma_pow0, lemma_pow1, lemma_pow_adds, lemma_pow_multiplies, lemma_pow_mod_noop,
    lemma_square_is_pow2, lemma_pow_positive,
};
use vstd::arithmetic::div_mod::{
    lemma_mul_mod_noop_left, lemma_mul_mod_noop_right, lemma_small_mod,
    lemma_fundamental_div_mod, lemma_fundamental_div_mod_converse_mod, lemma_mod_bound,
    lemma_mod_multiples_basic, lemma_mod_multiples_vanish,
};
use vstd::arithmetic::mul::{
    lemma_mul_is_associative, lemma_mul_is_commutative, lemma_mul_is_distributive_add,
    lemma_mul_unary_negation, lemma_mul_basics,
};
use vstd::set::group_set_axioms;
use vstd::set::fold::{lemma_fold_insert, lemma_fold_empty, is_fun_commutative};

verus! {

broadcast use group_set_axioms;

// ---------------------------------------------------------------------------
// Modular exponentiation helpers for square-and-multiply loops
// ---------------------------------------------------------------------------

/// `pow(b, 2*k)` is the `k`-th power of the square of `b`.
pub proof fn lemma_pow_sq(b: int, k: nat)
    ensures
        pow(b * b, k) == pow(b, 2 * k),
{
    lemma_square_is_pow2(b);
    lemma_pow_multiplies(b, 2, k);
}

/// One step of a square-and-multiply loop, even exponent: squaring the base
/// and halving the exponent leaves the accumulated product unchanged mod `m`.
pub proof fn lemma_pow_mod_even(res: int, b: int, e: nat, m: int)
    requires
        m > 0,
        e % 2 == 0,
    ensures
        (res * pow((b * b) % m, e / 2)) % m == (res * pow(b, e)) % m,
{
    lemma_mul_mod_noop_right(res, pow((b * b) % m, e / 2), m);
    lemma_pow_mod_noop(b * b, e / 2, m);
    lemma_mul_mod_noop_right(res, pow(b * b, e / 2), m);
    lemma_pow_sq(b, e / 2);
}

/// One step of a square-and-multiply loop, odd exponent: the base is folded
/// into the accumulator before squaring.
pub proof fn lemma_pow_mod_odd(res: int, b: int, e: nat, m: int)
    requires
        m > 0,
        e % 2 == 1,
    ensures
        (((res * b) % m) * pow((b * b) % m, e / 2)) % m == (res * pow(b, e)) % m,
{
    let k = e / 2;
    lemma_mul_mod_noop_left(res * b, pow((b * b) % m, k), m);
    lemma_mul_mod_noop_right(res * b, pow((b * b) % m, k), m);
    lemma_pow_mod_noop(b * b, k, m);
    lemma_mul_mod_noop_right(res * b, pow(b * b, k), m);
    lemma_pow_sq(b, k);
    assert(b * pow(b, 2 * k) == pow(b, e)) by {
        lemma_pow1(b);
        lemma_pow_adds(b, 1, 2 * k);
    }
    lemma_mul_is_associative(res, b, pow(b, 2 * k));
    assert((res * b) * pow(b * b, k) == res * pow(b, e));
}

/// The product of two residues below `m` is nonnegative and at most
/// `(m-1)*(m-1)`.
pub proof fn lemma_mul_bound(a: int, b: int, m: int)
    requires
        0 <= a < m,
        0 <= b < m,
    ensures
        0 <= a * b,
        a * b <= (m - 1) * (m - 1),
{
    assert(0 <= a * b && a * b <= (m - 1) * (m - 1)) by (nonlinear_arith)
        requires
            0 <= a < m,
            0 <= b < m,
    ;
}

/// The product of residues below `m <= cap` stays below `(cap-1)^2`.
pub proof fn lemma_mul_fits(a: int, b: int, m: int, cap: int)
    requires
        0 <= a < m,
        0 <= b < m,
        1 <= m <= cap,
    ensures
        0 <= a * b,
        a * b <= (cap - 1) * (cap - 1),
{
    assert(0 <= a * b && a * b <= (cap - 1) * (cap - 1)) by (nonlinear_arith)
        requires
            0 <= a < m,
            0 <= b < m,
            m <= cap,
    ;
}

/// Euclidean remainder of a negative number, expressed through the remainder
/// of its absolute value.
pub proof fn lemma_mod_of_negative(v: int, m: int)
    requires
        m > 0,
        v < 0,
    ensures
        v % m == if (-v) % m == 0 { 0int } else { m - ((-v) % m) },
{
    lemma_fundamental_div_mod(-v, m);
    let q = (-v) / m;
    let r = (-v) % m;
    lemma_mod_bound(-v, m);
    assert(-v == m * q + r);
    lemma_mul_unary_negation(m, q);
    assert(v == m * (-q) - r);
    if r == 0 {
        lemma_mul_is_commutative(m, -q);
        lemma_mod_multiples_basic(-q, m);
        assert(v % m == ((-q) * m) % m);
    } else {
        assert(v == m * (-q - 1) + (m - r)) by {
            lemma_mul_is_distributive_add(m, -q, -1);
            lemma_mul_unary_negation(m, 1);
            lemma_mul_basics(m);
        }
        lemma_fundamental_div_mod_converse_mod(v, m, -q - 1, m - r);
    }
}

// ---------------------------------------------------------------------------
// Divisibility, gcd, Bezout coefficients, primality
// ---------------------------------------------------------------------------

/// Product as a named function, so that it can serve as a quantifier
/// trigger.
pub open spec fn mul_spec(d: int, k: int) -> int {
    d * k
}

/// `d` divides `n`.
pub open spec fn divides(d: int, n: int) -> bool {
    exists|k: int| n == #[trigger] mul_spec(d, k)
}

/// `p` is prime: at least 2, with no divisor strictly between 1 and `p`.
pub open spec fn is_prime(p: int) -> bool {
    p >= 2 && forall|d: int| 2 <= d < p ==> !(#[trigger] divides(d, p))
}

/// Greatest common divisor by Euclid's recursion.
pub open spec fn gcd(a: nat, b: nat) -> nat
    decreases b,
{
    if b == 0 {
        a
    } else {
        gcd(b, a % b)
    }
}

/// Bezout coefficients `(x, y)` with `x*a + y*b == gcd(a, b)`.
pub open spec fn ext_gcd(a: nat, b: nat) -> (int, int)
    decreases b,
{
    if b == 0 {
        (1int, 0int)
    } else {
        let r = ext_gcd(b, a % b);
        (r.1, r.0 - (a / b) * r.1)
    }
}

/// The Bezout coefficients do combine to the gcd.
pub proof fn lemma_ext_gcd(a: nat, b: nat)
    ensures
        ext_gcd(a, b).0 * a + ext_gcd(a, b).1 * b == gcd(a, b),
    decreases b,
{
    if b == 0 {
        lemma_mul_basics(a as int);
    } else {
        lemma_ext_gcd(b, a % b);
        let x = ext_gcd(b, a % b).0;
        let y = ext_gcd(b, a % b).1;
        let q = a as int / b as int;
        lemma_fundamental_div_mod(a as int, b as int);
        assert((a % b) as int == a - b * q);
        assert(x * b + y * (a - b * q) == y * a + (x - q * y) * b) by (nonlinear_arith);
        assert(ext_gcd(a, b).0 == y && ext_gcd(a, b).1 == x - q * y);
        assert(gcd(a, b) == gcd(b, a % b));
    }
}

/// The gcd divides both of its arguments.
pub proof fn lemma_gcd_divides(a: nat, b: nat)
    ensures
        divides(gcd(a, b) as int, a as int),
        divides(gcd(a, b) as int, b as int),
    decreases b,
{
    if b == 0 {
        assert(a as int == mul_spec(a as int, 1)) by (nonlinear_arith);
        assert(0int == mul_spec(a as int, 0)) by (nonlinear_arith);
    } else {
        lemma_gcd_divides(b, a % b);
        let g = gcd(b, a % b) as int;
        let k1 = choose|k: int| b as int == #[trigger] mul_spec(g, k);
        let k2 = choose|k: int| (a % b) as int == #[trigger] mul_spec(g, k);
        let q = a as int / b as int;
        lemma_fundamental_div_mod(a as int, b as int);
        assert(a as int == b * q + (a % b));
        assert(b as int == g * k1 && (a % b) as int == g * k2);
        assert((g * k1) * q + g * k2 == g * (k1 * q + k2)) by (nonlinear_arith);
        assert(a as int == mul_spec(g, k1 * q + k2));
    }
}

/// A positive divisor of a positive number is no larger than it.
pub proof fn lemma_divides_bound(d: int, n: int)
    requires
        divides(d, n),
        d > 0,
        n > 0,
    ensures
        d <= n,
{
    let k = choose|k: int| n == #[trigger] mul_spec(d, k);
    assert(d <= d * k) by (nonlinear_arith)
        requires
            d > 0,
            d * k > 0,
    ;
}

/// A residue strictly between 0 and `p` is not a multiple of `p`.
pub proof fn lemma_small_nondivides(p: int, a: int)
    requires
        1 <= a < p,
    ensures
        !divides(p, a),
{
    if divides(p, a) {
        lemma_divides_bound(p, a);
    }
}

/// A prime is coprime to anything it does not divide.
pub proof fn lemma_prime_coprime(p: int, a: int)
    requires
        is_prime(p),
        0 <= a,
        !divides(p, a),
    ensures
        gcd(p as nat, a as nat) == 1,
{
    assert(0int == mul_spec(p, 0)) by (nonlinear_arith);
    assert(a >= 1);
    let g = gcd(p as nat, a as nat) as int;
    lemma_gcd_divides(p as nat, a as nat);
    if g == 0 {
        let k = choose|k: int| p == #[trigger] mul_spec(g, k);
        assert(p == 0) by (nonlinear_arith)
            requires
                p == 0 * k,
        ;
    } else if g == p {
        assert(false);
    } else if 2 <= g < p {
        assert(!divides(g, p));
        assert(false);
    } else if g > p {
        lemma_divides_bound(g, p);
        assert(false);
    }
}

/// Euclid's lemma: a prime dividing a product divides one of the factors.
pub proof fn lemma_euclid(p: int, a: int, b: int)
    requires
        is_prime(p),
        0 <= a,
        0 <= b,
        divides(p, a * b),
        !divides(p, a),
    ensures
        divides(p, b),
{
    lemma_prime_coprime(p, a);
    lemma_ext_gcd(p as nat, a as nat);
    let x = ext_gcd(p as nat, a as nat).0;
    let y = ext_gcd(p as nat, a as nat).1;
    assert(x * p + y * a == 1);
    let k = choose|k: int| a * b == #[trigger] mul_spec(p, k);
    assert(b == p * (x * b + y * k)) by (nonlinear_arith)
        requires
            x * p + y * a == 1,
            a * b == p * k,
    ;
    assert(b == mul_spec(p, x * b + y * k));
}

/// Two numbers are congruent mod `p` exactly when `p` divides their
/// difference.
pub proof fn lemma_mod_eq_divides(x: int, y: int, p: int)
    requires
        p > 0,
    ensures
        (x % p == y % p) <==> divides(p, x - y),
{
    if x % p == y % p {
        lemma_fundamental_div_mod(x, p);
        lemma_fundamental_div_mod(y, p);
        let qx = x / p;
        let qy = y / p;
        assert(x - y == p * qx - p * qy);
        assert(p * qx - p * qy == p * (qx - qy)) by (nonlinear_arith);
        assert(x - y == mul_spec(p, qx - qy));
        assert(divides(p, x - y));
    }
    if divides(p, x - y) {
        let k = choose|k: int| x - y == #[trigger] mul_spec(p, k);
        assert(x == p * k + y);
        lemma_mod_multiples_vanish(k, y, p);
    }
}

/// For a positive `d`, divisibility is the vanishing of the remainder.
pub proof fn lemma_divides_mod_zero(d: int, n: int)
    requires
        d > 0,
    ensures
        divides(d, n) <==> n % d == 0,
{
    if divides(d, n) {
        let k = choose|k: int| n == #[trigger] mul_spec(d, k);
        lemma_mul_is_commutative(d, k);
        lemma_mod_multiples_basic(k, d);
    }
    if n % d == 0 {
        lemma_fundamental_div_mod(n, d);
        assert(n == mul_spec(d, n / d));
        assert(divides(d, n));
    }
}

/// Primality follows from the absence of divisors up to the square root.
pub proof fn lemma_prime_from_trial(p: int, b: int)
    requires
        p >= 2,
        b >= 1,
        (b + 1) * (b + 1) > p,
        forall|d: int| 2 <= d <= b ==> !(#[trigger] divides(d, p)),
    ensures
        is_prime(p),
{
    assert forall|d: int| 2 <= d < p implies !(#[trigger] divides(d, p)) by {
        if divides(d, p) && d > b {
            let k = choose|k: int| p == #[trigger] mul_spec(d, k);
            assert(k >= 1) by (nonlinear_arith)
                requires
                    p == d * k,
                    p >= 2,
                    d >= 2,
            ;
            assert(k >= 2) by (nonlinear_arith)
                requires
                    p == d * k,
                    k >= 1,
                    d < p,
            ;
            assert(k <= b) by (nonlinear_arith)
                requires
                    p == d * k,
                    d > b,
                    (b + 1) * (b + 1) > p,
                    k >= 1,
                    b >= 1,
            ;
            lemma_mul_is_commutative(d, k);
            assert(p == mul_spec(k, d));
            assert(divides(k, p));
            assert(false);
        }
    }
}

/// A nonzero remainder rules out divisibility.
proof fn lemma_nondivisor_by_mod(d: int, p: int)
    requires
        d >= 1,
        p % d != 0,
    ensures
        !divides(d, p),
{
    lemma_divides_mod_zero(d, p);
}

/// 17 is prime.
pub proof fn lemma_is_prime_17()
    ensures
        is_prime(17),
{
    assert forall|d: int| 2 <= d <= 5 implies !(#[trigger] divides(d, 17)) by {
        if d == 2 {
            lemma_nondivisor_by_mod(2, 17);
        } else if d == 3 {
            lemma_nondivisor_by_mod(3, 17);
        } else if d == 4 {
            lemma_nondivisor_by_mod(4, 17);
        } else {
            lemma_nondivisor_by_mod(5, 17);
        }
    }
    lemma_prime_from_trial(17, 5);
}

/// 211 is prime.
pub proof fn lemma_is_prime_211()
    ensures
        is_prime(211),
{
    assert forall|d: int| 2 <= d <= 15 implies !(#[trigger] divides(d, 211)) by {
        if d == 2 {
            lemma_nondivisor_by_mod(2, 211);
        } else if d == 3 {
            lemma_nondivisor_by_mod(3, 211);
        } else if d == 4 {
            lemma_nondivisor_by_mod(4, 211);
        } else if d == 5 {
            lemma_nondivisor_by_mod(5, 211);
        } else if d == 6 {
            lemma_nondivisor_by_mod(6, 211);
        } else if d == 7 {
            lemma_nondivisor_by_mod(7, 211);
        } else if d == 8 {
            lemma_nondivisor_by_mod(8, 211);
        } else if d == 9 {
            lemma_nondivisor_by_mod(9, 211);
        } else if d == 10 {
            lemma_nondivisor_by_mod(10, 211);
        } else if d == 11 {
            lemma_nondivisor_by_mod(11, 211);
        } else if d == 12 {
            lemma_nondivisor_by_mod(12, 211);
        } else if d == 13 {
            lemma_nondivisor_by_mod(13, 211);
        } else if d == 14 {
            lemma_nondivisor_by_mod(14, 211);
        } else {
            lemma_nondivisor_by_mod(15, 211);
        }
    }
    lemma_prime_from_trial(211, 15);
}

/// 251 is prime.
pub proof fn lemma_is_prime_251()
    ensures
        is_prime(251),
{
    assert forall|d: int| 2 <= d <= 16 implies !(#[trigger] divides(d, 251)) by {
        if d == 2 {
            lemma_nondivisor_by_mod(2, 251);
        } else if d == 3 {
            lemma_nondivisor_by_mod(3, 251);
        } else if d == 4 {
            lemma_nondivisor_by_mod(4, 251);
        } else if d == 5 {
            lemma_nondivisor_by_mod(5, 251);
        } else if d == 6 {
            lemma_nondivisor_by_mod(6, 251);
        } else if d == 7 {
            lemma_nondivisor_by_mod(7, 251);
        } else if d == 8 {
            lemma_nondivisor_by_mod(8, 251);
        } else if d == 9 {
            lemma_nondivisor_by_mod(9, 251);
        } else if d == 10 {
            lemma_nondivisor_by_mod(10, 251);
        } else if d == 11 {
            lemma_nondivisor_by_mod(11, 251);
        } else if d == 12 {
            lemma_nondivisor_by_mod(12, 251);
        } else if d == 13 {
            lemma_nondivisor_by_mod(13, 251);
        } else if d == 14 {
            lemma_nondivisor_by_mod(14, 251);
        } else if d == 15 {
            lemma_nondivisor_by_mod(15, 251);
        } else {
            lemma_nondivisor_by_mod(16, 251);
        }
    }
    lemma_prime_from_trial(251, 16);
}

// ---------------------------------------------------------------------------
// Fermat's little theorem by rearrangement of residues
// ---------------------------------------------------------------------------

/// Product of all elements of a finite set of integers.
pub open spec fn sprod(s: Set<int>) -> int {
    s.fold(1, |x: int, y: int| x * y)
}

/// Multiplication is a commutative fold operator.
proof fn lemma_mul_fun_commutative()
    ensures
        is_fun_commutative(|x: int, y: int| x * y),
{
    let f = |x: int, y: int| x * y;
    assert forall|a1: int, a2: int, b: int| #[trigger] f(f(b, a2), a1) == f(f(b, a1), a2) by {
        assert((b * a2) * a1 == (b * a1) * a2) by (nonlinear_arith);
    }
}

/// Folding one fresh element into a set product multiplies it in.
proof fn lemma_sprod_insert(s: Set<int>, a: int)
    requires
        s.finite(),
        !s.contains(a),
    ensures
        sprod(s.insert(a)) == sprod(s) * a,
{
    lemma_mul_fun_commutative();
    lemma_fold_insert(s, 1, |x: int, y: int| x * y, a);
}

/// The empty product is 1.
proof fn lemma_sprod_empty()
    ensures
        sprod(Set::<int>::empty()) == 1,
{
    lemma_fold_empty(1, |x: int, y: int| x * y);
}

/// Factorial.
pub open spec fn fact(k: nat) -> int
    decreases k,
{
    if k == 0 {
        1
    } else {
        k * fact((k - 1) as nat)
    }
}

/// Product of the residues `a*1 % p, a*2 % p, ..., a*k % p`.
spec fn aprod(a: int, p: int, k: nat) -> int
    decreases k,
{
    if k == 0 {
        1
    } else {
        ((a * k) % p) * aprod(a, p, (k - 1) as nat)
    }
}

/// The set of residues `{a*1 % p, ..., a*k % p}`.
spec fn fset(a: int, p: int, k: nat) -> Set<int>
    decreases k,
{
    if k == 0 {
        Set::empty()
    } else {
        fset(a, p, (k - 1) as nat).insert((a * k) % p)
    }
}

/// The set of integers `{1, ..., n}`.
spec fn rset(n: int) -> Set<int> {
    Set::new(|y: int| 1 <= y <= n)
}

proof fn lemma_fset_finite(a: int, p: int, k: nat)
    ensures
        fset(a, p, k).finite(),
    decreases k,
{
    if k > 0 {
        lemma_fset_finite(a, p, (k - 1) as nat);
    }
}

proof fn lemma_fset_contains(a: int, p: int, k: nat, y: int)
    ensures
        fset(a, p, k).contains(y) <==> exists|i: int|
            1 <= i <= k && y == #[trigger] mul_spec(a, i) % p,
    decreases k,
{
    if k > 0 {
        lemma_fset_contains(a, p, (k - 1) as nat, y);
        if y == (a * k) % p {
            assert(1 <= k as int <= k as int && y == mul_spec(a, k as int) % p);
        }
        if exists|i: int| 1 <= i <= k && y == #[trigger] mul_spec(a, i) % p {
            let i = choose|i: int| 1 <= i <= k && y == #[trigger] mul_spec(a, i) % p;
            if i <= k - 1 {
                assert(fset(a, p, (k - 1) as nat).contains(y));
            } else {
                assert(y == (a * k) % p);
            }
        }
    }
}

/// Multiples of `a` by distinct nonzero residues are distinct mod a prime
/// that does not divide `a`.
proof fn lemma_multiples_distinct(a: int, p: int, i: int, j: int)
    requires
        is_prime(p),
        1 <= a < p,
        1 <= i < p,
        1 <= j < p,
        i != j,
    ensures
        (a * i) % p != (a * j) % p,
{
    if (a * i) % p == (a * j) % p {
        lemma_mod_eq_divides(a * i, a * j, p);
        lemma_small_nondivides(p, a);
        if i > j {
            assert(a * i - a * j == a * (i - j)) by (nonlinear_arith);
            lemma_euclid(p, a, i - j);
            lemma_small_nondivides(p, i - j);
        } else {
            let k = choose|k: int| a * i - a * j == #[trigger] mul_spec(p, k);
            assert(a * j - a * i == p * (-k)) by (nonlinear_arith)
                requires
                    a * i - a * j == p * k,
            ;
            assert(a * j - a * i == mul_spec(p, -k));
            assert(divides(p, a * j - a * i));
            assert(a * j - a * i == a * (j - i)) by (nonlinear_arith);
            lemma_euclid(p, a, j - i);
            lemma_small_nondivides(p, j - i);
        }
    }
}

/// A multiple of `a` by a nonzero residue is a nonzero residue.
pub proof fn lemma_multiple_nonzero(a: int, p: int, i: int)
    requires
        is_prime(p),
        1 <= a < p,
        1 <= i < p,
    ensures
        1 <= (a * i) % p < p,
{
    lemma_mod_bound(a * i, p);
    if (a * i) % p == 0 {
        lemma_divides_mod_zero(p, a * i);
        lemma_small_nondivides(p, a);
        lemma_euclid(p, a, i);
        lemma_small_nondivides(p, i);
    }
}

/// The set of multiples matches the running product `aprod`.
proof fn lemma_aprod_sprod(a: int, p: int, k: nat)
    requires
        is_prime(p),
        1 <= a < p,
        k < p,
    ensures
        sprod(fset(a, p, k)) == aprod(a, p, k),
    decreases k,
{
    if k == 0 {
        lemma_sprod_empty();
    } else {
        lemma_aprod_sprod(a, p, (k - 1) as nat);
        lemma_fset_finite(a, p, (k - 1) as nat);
        assert(!fset(a, p, (k - 1) as nat).contains((a * k) % p)) by {
            lemma_fset_contains(a, p, (k - 1) as nat, (a * k) % p);
            if fset(a, p, (k - 1) as nat).contains((a * k) % p) {
                let i = choose|i: int|
                    1 <= i <= k - 1 && (a * k) % p == #[trigger] mul_spec(a, i) % p;
                lemma_multiples_distinct(a, p, k as int, i);
            }
        }
        lemma_sprod_insert(fset(a, p, (k - 1) as nat), (a * k) % p);
        lemma_mul_is_commutative(aprod(a, p, (k - 1) as nat), (a * k) % p);
    }
}

/// The set `{1, ..., n}` is finite and multiplies out to `n!`.
proof fn lemma_rset_fact(n: int)
    requires
        n >= 0,
    ensures
        rset(n).finite(),
        sprod(rset(n)) == fact(n as nat),
    decreases n,
{
    if n == 0 {
        assert(rset(0) =~= Set::empty());
        lemma_sprod_empty();
    } else {
        lemma_rset_fact(n - 1);
        assert(rset(n) =~= rset(n - 1).insert(n));
        lemma_sprod_insert(rset(n - 1), n);
        lemma_mul_is_commutative(fact((n - 1) as nat), n);
    }
}

/// The multiples of `a` sweep out all of `{1, ..., p-1}`.
proof fn lemma_fset_full(a: int, p: int)
    requires
        is_prime(p),
        1 <= a < p,
    ensures
        fset(a, p, (p - 1) as nat) =~= rset(p - 1),
{
    let n = (p - 1) as nat;
    assert forall|y: int| fset(a, p, n).contains(y) implies rset(p - 1).contains(y) by {
        lemma_fset_contains(a, p, n, y);
        let i = choose|i: int| 1 <= i <= n && y == #[trigger] mul_spec(a, i) % p;
        lemma_multiple_nonzero(a, p, i);
    }
    assert forall|y: int| rset(p - 1).contains(y) implies fset(a, p, n).contains(y) by {
        lemma_small_nondivides(p, a);
        lemma_prime_coprime(p, a);
        lemma_ext_gcd(p as nat, a as nat);
        let x = ext_gcd(p as nat, a as nat).0;
        let z = ext_gcd(p as nat, a as nat).1;
        assert(x * p + z * a == 1);
        // a * z is 1 mod p, so i = (z % p) * y % p is a preimage of y.
        assert((a * z) % p == 1) by {
            assert(a * z == p * (-x) + 1) by (nonlinear_arith)
                requires
                    x * p + z * a == 1,
            ;
            lemma_mod_multiples_vanish(-x, 1, p);
            lemma_small_mod(1nat, p as nat);
        }
        let i = ((z % p) * y) % p;
        lemma_mod_bound((z % p) * y, p);
        assert((a * i) % p == y) by {
            lemma_mul_mod_noop_right(a, (z % p) * y, p);
            lemma_mul_mod_noop_left(z, y, p);
            assert((a * ((z * y) % p)) % p == (a * (z * y)) % p) by {
                lemma_mul_mod_noop_right(a, z * y, p);
            }
            assert(a * (z * y) == (a * z) * y) by (nonlinear_arith);
            lemma_mul_mod_noop_left(a * z, y, p);
            assert(((a * z) % p) * y == y) by {
                lemma_mul_basics(y);
                lemma_mul_is_commutative(1, y);
            }
            lemma_small_mod(y as nat, p as nat);
        }
        assert(i != 0) by {
            if i == 0 {
                assert((a * 0) % p == y);
                assert(a * 0 == 0) by (nonlinear_arith);
                lemma_small_mod(0nat, p as nat);
            }
        }
        lemma_fset_contains(a, p, n, y);
        assert(1 <= i <= n as int && y == mul_spec(a, i) % p);
    }
}

/// The running product of multiples is `a^k * k!` mod `p`.
proof fn lemma_aprod_pow(a: int, p: int, k: nat)
    requires
        p >= 2,
    ensures
        aprod(a, p, k) % p == (pow(a, k) * fact(k)) % p,
    decreases k,
{
    if k == 0 {
        lemma_pow0(a);
    } else {
        lemma_aprod_pow(a, p, (k - 1) as nat);
        let t = aprod(a, p, (k - 1) as nat);
        let pw = pow(a, (k - 1) as nat);
        let fc = fact((k - 1) as nat);
        lemma_mul_mod_noop_left(a * k, t, p);
        lemma_mul_mod_noop_right(a * k, t, p);
        lemma_mul_mod_noop_right(a * k, pw * fc, p);
        assert((a * k) * (pw * fc) == pow(a, k) * fact(k)) by {
            lemma_pow1(a);
            lemma_pow_adds(a, 1, (k - 1) as nat);
            assert(pow(a, k) == a * pw);
            assert(fact(k) == k * fc);
            assert((a * k) * (pw * fc) == (a * pw) * (k * fc)) by (nonlinear_arith);
        }
    }
}

/// No factorial of a number below a prime is a multiple of it.
proof fn lemma_fact_coprime(p: int, k: nat)
    requires
        is_prime(p),
        k < p,
    ensures
        fact(k) >= 1,
        !divides(p, fact(k)),
    decreases k,
{
    if k == 0 {
        if divides(p, 1) {
            lemma_divides_bound(p, 1);
        }
    } else {
        lemma_fact_coprime(p, (k - 1) as nat);
        assert(fact(k) == k * fact((k - 1) as nat));
        assert(fact(k) >= 1) by (nonlinear_arith)
            requires
                fact(k) == k * fact((k - 1) as nat),
                k >= 1,
                fact((k - 1) as nat) >= 1,
        ;
        if divides(p, fact(k)) {
            lemma_small_nondivides(p, k as int);
            lemma_euclid(p, k as int, fact((k - 1) as nat));
        }
    }
}

/// A prime dividing a positive power divides the base.
pub proof fn lemma_prime_divides_pow(p: int, a: int, k: nat)
    requires
        is_prime(p),
        0 <= a,
        k >= 1,
        divides(p, pow(a, k)),
    ensures
        divides(p, a),
    decreases k,
{
    if divides(p, a) {
    } else {
        lemma_pow1(a);
        if k == 1 {
        } else {
            assert(pow(a, k) == a * pow(a, (k - 1) as nat)) by {
                lemma_pow_adds(a, 1, (k - 1) as nat);
            }
            assert(pow(a, (k - 1) as nat) >= 0) by {
                if a == 0 {
                    vstd::arithmetic::power::lemma0_pow((k - 1) as nat);
                } else {
                    lemma_pow_positive(a, (k - 1) as nat);
                }
            }
            lemma_euclid(p, a, pow(a, (k - 1) as nat));
            lemma_prime_divides_pow(p, a, (k - 1) as nat);
        }
    }
}

/// Fermat's little theorem: for a prime `p` and `1 <= a < p`,
/// `a^(p-1) mod p == 1`.
pub proof fn lemma_flt(a: int, p: int)
    requires
        is_prime(p),
        1 <= a < p,
    ensures
        pow(a, (p - 1) as nat) % p == 1,
{
    let n = (p - 1) as nat;
    lemma_aprod_sprod(a, p, n);
    lemma_fset_full(a, p);
    lemma_rset_fact(p - 1);
    assert(aprod(a, p, n) == fact(n));
    lemma_aprod_pow(a, p, n);
    lemma_mod_eq_divides(pow(a, n) * fact(n), fact(n), p);
    lemma_fact_coprime(p, n);
    assert(pow(a, n) * fact(n) - fact(n) == fact(n) * (pow(a, n) - 1)) by (nonlinear_arith);
    lemma_pow_positive(a, n);
    lemma_euclid(p, fact(n), pow(a, n) - 1);
    let k = choose|k: int| pow(a, n) - 1 == #[trigger] mul_spec(p, k);
    assert(k >= 0) by (nonlinear_arith)
        requires
            pow(a, n) - 1 == p * k,
            pow(a, n) - 1 >= 0,
            p >= 2,
    ;
    lemma_fundamental_div_mod_converse_mod(pow(a, n), p, k, 1);
}

/// Fermat's little theorem for the prime 17.
pub proof fn lemma_flt_17(a: int)
    requires
        1 <= a < 17,
    ensures
        pow(a, 16) % 17 == 1,
{
    lemma_is_prime_17();
    lemma_flt(a, 17);
}

/// Fermat's little theorem for the prime 211.
pub proof fn lemma_flt_211(a: int)
    requires
        1 <= a < 211,
    ensures
        pow(a, 210) % 211 == 1,
{
    lemma_is_prime_211();
    lemma_flt(a, 211);
}

/// Fermat's little theorem for the prime 251.
pub proof fn lemma_flt_251(a: int)
    requires
        1 <= a < 251,
    ensures
        pow(a, 250) % 251 == 1,
{
    lemma_is_prime_251();
    lemma_flt(a, 251);
}

/// A residue times its Fermat inverse is 1 mod `p`, for any `p` for which
/// Fermat's little theorem holds of the residue.
pub proof fn lemma_fermat_inverse(a: int, p: int)
    requires
        2 <= p,
        1 <= a < p,
        pow(a, (p - 1) as nat) % p == 1,
    ensures
        ((pow(a, (p - 2) as nat) % p) * a) % p == 1,
{
    lemma_mul_mod_noop_left(pow(a, (p - 2) as nat), a, p);
    lemma_pow1(a);
    lemma_pow_adds(a, (p - 2) as nat, 1);
}

// ---------------------------------------------------------------------------
// Invariants of the extended Euclidean algorithm's iteration
// ---------------------------------------------------------------------------

/// Congruences survive one elimination step of the extended Euclidean
/// algorithm: if `t*a = r` and `nt*a = nr` mod `p`, then
/// `(t - q*nt)*a = r - q*nr` mod `p`.
pub proof fn lemma_eea_congruence(t: int, nt: int, r: int, nr: int, q: int, a: int, p: int)
    requires
        p >= 1,
        (t * a) % p == r % p,
        (nt * a) % p == nr % p,
    ensures
        ((t - q * nt) * a) % p == (r - q * nr) % p,
{
    lemma_mod_eq_divides(t * a, r, p);
    lemma_mod_eq_divides(nt * a, nr, p);
    let k1 = choose|k: int| t * a - r == #[trigger] mul_spec(p, k);
    let k2 = choose|k: int| nt * a - nr == #[trigger] mul_spec(p, k);
    assert((t - q * nt) * a == t * a - q * (nt * a)) by (nonlinear_arith);
    assert(q * (nt * a) - q * nr == q * (nt * a - nr)) by (nonlinear_arith);
    assert(q * (p * k2) == p * (q * k2)) by (nonlinear_arith);
    assert((t - q * nt) * a - (r - q * nr) == (t * a - r) - q * (nt * a - nr));
    assert((t - q * nt) * a - (r - q * nr) == p * k1 - p * (q * k2));
    assert(p * k1 - p * (q * k2) == p * (k1 - q * k2)) by (nonlinear_arith);
    assert((t - q * nt) * a - (r - q * nr) == mul_spec(p, k1 - q * k2));
    lemma_mod_eq_divides((t - q * nt) * a, r - q * nr, p);
}

/// The coefficient bounds of the extended Euclidean algorithm survive one
/// step: coefficients alternate in sign, and the combination
/// `|t|*nr + |nt|*r` never grows beyond its starting value `p`.
pub proof fn lemma_eea_bounds(t: int, nt: int, r: int, nr: int, q: int, p: int)
    requires
        p >= 1,
        t * nt <= 0,
        vstd::math::abs(t) * nr + vstd::math::abs(nt) * r <= p,
        vstd::math::abs(t) <= p,
        vstd::math::abs(nt) <= p,
        0 <= q * nr <= r,
        1 <= nr,
        q >= 0,
    ensures
        nt * (t - q * nt) <= 0,
        vstd::math::abs(nt) * (r - q * nr) + vstd::math::abs(t - q * nt) * nr <= p,
        vstd::math::abs(t - q * nt) <= p,
        vstd::math::abs(q * nt) <= p + p,
{
    let at = vstd::math::abs(t) as int;
    let ant = vstd::math::abs(nt) as int;
    // signs alternate
    assert(nt * (t - q * nt) <= 0) by (nonlinear_arith)
        requires
            t * nt <= 0,
            q >= 0,
    ;
    // |t - q*nt| == |t| + q*|nt| because the signs of t and q*nt oppose
    assert(vstd::math::abs(t - q * nt) == at + q * ant) by (nonlinear_arith)
        requires
            t * nt <= 0,
            q >= 0,
            at == vstd::math::abs(t),
            ant == vstd::math::abs(nt),
    ;
    // the combined quantity is preserved
    assert(ant * (r - q * nr) + (at + q * ant) * nr == at * nr + ant * r) by (nonlinear_arith)
        requires
            q * nr <= r,
    ;
    assert((at + q * ant) * nr <= p) by (nonlinear_arith)
        requires
            ant * (r - q * nr) + (at + q * ant) * nr <= p,
            ant >= 0,
            r - q * nr >= 0,
    ;
    assert(at + q * ant <= p) by (nonlinear_arith)
        requires
            (at + q * ant) * nr <= p,
            at + q * ant >= 0,
            1 <= nr,
    ;
    assert(vstd::math::abs(q * nt) == q * ant) by (nonlinear_arith)
        requires
            q >= 0,
            ant == vstd::math::abs(nt),
    ;
}

/// One unfolding of Euclid's recursion: removing a multiple of the smaller
/// value leaves the gcd alone.
pub proof fn lemma_gcd_step(r: int, nr: int, q: int)
    requires
        0 <= r,
        1 <= nr,
        q == r / nr,
    ensures
        gcd(nr as nat, (r - q * nr) as nat) == gcd(r as nat, nr as nat),
{
    lemma_fundamental_div_mod(r, nr);
    assert(r - q * nr == r % nr);
    assert(gcd(r as nat, nr as nat) == gcd(nr as nat, ((r as nat) % (nr as nat))));
}

/// The gcd is symmetric.
pub proof fn lemma_gcd_commutes(a: nat, b: nat)
    ensures
        gcd(a, b) == gcd(b, a),
{
    if a == 0 && b != 0 {
        assert(gcd(b, a) == b);
        assert(gcd(a, b) == gcd(b, a % b));
        lemma_small_mod(0nat, b);
    } else if b == 0 && a != 0 {
        assert(gcd(b, a) == gcd(a, b % a));
        lemma_small_mod(0nat, a);
    } else if a < b {
        assert(gcd(a, b) == gcd(b, a % b));
        lemma_small_mod(a, b);
    } else if b < a {
        assert(gcd(b, a) == gcd(a, b % a));
        lemma_small_mod(b, a);
    }
}

/// Divisibility is transitive.
pub proof fn lemma_divides_transitive(e: int, d: int, n: int)
    requires
        divides(e, d),
        divides(d, n),
    ensures
        divides(e, n),
{
    let k1 = choose|k: int| d == #[trigger] mul_spec(e, k);
    let k2 = choose|k: int| n == #[trigger] mul_spec(d, k);
    assert(n == e * (k1 * k2)) by (nonlinear_arith)
        requires
            d == e * k1,
            n == d * k2,
    ;
    assert(n == mul_spec(e, k1 * k2));
}

/// A number coprime to the modulus has a multiplicative inverse among the
/// residues.
pub proof fn lemma_coprime_inverse(a: int, p: int)
    requires
        p >= 2,
        1 <= a,
        gcd(p as nat, a as nat) == 1,
    ensures
        exists|t: int| 0 <= t < p && #[trigger] mul_spec(a, t) % p == 1,
{
    lemma_ext_gcd(p as nat, a as nat);
    let x = ext_gcd(p as nat, a as nat).0;
    let z = ext_gcd(p as nat, a as nat).1;
    assert(x * p + z * a == 1);
    let t = z % p;
    lemma_mod_bound(z, p);
    assert(mul_spec(a, t) % p == 1) by {
        lemma_mul_mod_noop_right(a, z, p);
        assert(a * z == p * (-x) + 1) by (nonlinear_arith)
            requires
                x * p + z * a == 1,
        ;
        lemma_mod_multiples_vanish(-x, 1, p);
        lemma_small_mod(1nat, p as nat);
        lemma_mul_mod_noop_right(a, z % p, p);
    }
}

} // verus!
