use ecmath::eea_gcd::eea_gcd;
use ecmath::extended_euclidean_algo::inverse_eea;
use ecmath::fermat_little_theorem::inverse_fermat;
use ecmath::finite_field_element::FieldElement;
use ecmath::finite_field_mul_inv::{eea_inv, eea_inv2, only_prime};

#[test]
fn test_field_ops_mod_17() {
    let a = FieldElement::new(15);
    let b = FieldElement::new(4);
    // 15 + 4 = 19 = 2 (mod 17)
    assert_eq!(a.add(b), FieldElement::new(2));
    // associativity on concrete values
    let c = FieldElement::new(3);
    assert_eq!(a.add(b).add(c), a.add(b.add(c)));
    // identity
    let zero = FieldElement::new(0);
    assert_eq!(a.add(zero), a);
    // distributivity on concrete values
    assert_eq!(a.mul(b.add(c)), a.mul(b).add(a.mul(c)));
    // inverse of 4 mod 17 is 13 (4*13 = 52 = 1 mod 17)
    assert_eq!(b.inverse(), FieldElement::new(13));
    assert_eq!(b.mul(b.inverse()), FieldElement::new(1));
    // subtraction wraps through the canonical reduction
    assert_eq!(b.sub(a), FieldElement::new(6));
}

#[test]
fn test_eea_inv_mod_11() {
    // 8 * 7 = 56 = 1 (mod 11)
    assert_eq!(eea_inv(8, 11), 7);
}

#[test]
fn test_eea_inv_composite_modulus() {
    // gcd(3, 20) = 1 even though 20 is composite: 3 * 7 = 21 = 1 (mod 20)
    assert_eq!(eea_inv(3, 20), 7);
}

#[test]
fn test_eea_inv2_brute_force() {
    assert_eq!(eea_inv2(8, 11), 7);
    assert_eq!(eea_inv2(4, 17), 13);
}

#[test]
fn test_only_prime() {
    assert!(only_prime(2));
    assert!(only_prime(3));
    assert!(only_prime(17));
    assert!(only_prime(211));
    assert!(only_prime(251));
    assert!(only_prime(1009));
    assert!(!only_prime(0));
    assert!(!only_prime(1));
    assert!(!only_prime(25));
    assert!(!only_prime(49));
    assert!(!only_prime(1000000));
}

#[test]
fn test_eea_gcd_coefficients() {
    // 240 and 46: gcd 2, with -9*240 + 47*46 = 2
    let (s, t, g) = eea_gcd(240, 46);
    assert_eq!(g, 2);
    assert_eq!(s, -9);
    assert_eq!(t, 47);
    assert_eq!(s * 240 + t * 46, 2);
}

#[test]
fn test_eea_gcd_zero_cases() {
    let (s, t, g) = eea_gcd(0, 5);
    assert_eq!(g, 5);
    assert_eq!(s * 0 + t * 5, 5);
    let (_, _, g2) = eea_gcd(7, 0);
    assert_eq!(g2, 7);
}

#[test]
fn test_inverse_eea_results() {
    // Prime modulus
    assert_eq!(inverse_eea(3, 17), Ok(6));
    // Composite modulus with coprime input
    assert_eq!(inverse_eea(3, 20), Ok(7));
    // Not coprime: no inverse exists
    assert!(inverse_eea(4, 20).is_err());
}

#[test]
fn test_inverse_fermat_results() {
    // 3^15 mod 17 = 6, and 3 * 6 = 18 = 1 (mod 17)
    assert_eq!(inverse_fermat(3, 17), Ok(6));
    assert_eq!(inverse_fermat(5, 17), Ok(7));
    // A factor of the modulus is rejected
    assert!(inverse_fermat(3, 9).is_err());
    // Out-of-range inputs are rejected
    assert!(inverse_fermat(-2, 17).is_err());
    assert!(inverse_fermat(17, 17).is_err());
}
