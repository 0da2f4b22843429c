use ecmath::modular_sqrt::{cipolla, get_root, mod_pow, sqrt_mod_p3mod4, tonelli_shanks};

#[test]
fn test_sqrt_mod_p3mod4() {
    // Test with p = 47 (which is 3 mod 4)
    let result = sqrt_mod_p3mod4(18, 47);
    assert!(result.is_some());
    let r = result.unwrap();
    assert_eq!((r * r) % 47, 18);
    println!("sqrt(18) mod 47 = {}", r);
}

#[test]
fn test_tonelli_shanks() {
    // Test with p = 47
    let result = tonelli_shanks(18, 47);
    assert!(result.is_some());
    let r = result.unwrap();
    assert_eq!((r * r) % 47, 18);
    println!("Tonelli-Shanks: sqrt(18) mod 47 = {}", r);

    // Test with a larger prime p = 1009 (which is 1 mod 4)
    let result2 = tonelli_shanks(56, 1009);
    assert!(result2.is_some());
    let r2 = result2.unwrap();
    assert_eq!((r2 * r2) % 1009, 56);
    println!("Tonelli-Shanks: sqrt(56) mod 1009 = {}", r2);
}

#[test]
fn test_cipolla() {
    // Test with p = 47
    let result = cipolla(18, 47);
    assert!(result.is_some());
    let r = result.unwrap();
    assert_eq!((r * r) % 47, 18);
    println!("Cipolla: sqrt(18) mod 47 = {}", r);
}

#[test]
fn test_non_residue() {
    // 5 is not a quadratic residue mod 47
    assert!(sqrt_mod_p3mod4(5, 47).is_none());
    assert!(tonelli_shanks(5, 47).is_none());
    assert!(cipolla(5, 47).is_none());
}

#[test]
fn compare_algorithms() {
    let test_cases = vec![(18, 47), (10, 47), (2, 47)];

    for (a, p) in test_cases {
        let r1 = sqrt_mod_p3mod4(a, p);
        let r2 = tonelli_shanks(a, p);
        let r3 = cipolla(a, p);

        println!("\nsqrt({}) mod {}:", a, p);
        if let Some(x) = r1 {
            println!("  p\u{2261}3(mod 4) method: {}", x);
        }
        if let Some(x) = r2 {
            println!("  Tonelli-Shanks: {}", x);
        }
        if let Some(x) = r3 {
            println!("  Cipolla: {}", x);
        }

        // All methods should agree (or all return None)
        assert_eq!(r1.is_some(), r2.is_some());
        assert_eq!(r2.is_some(), r3.is_some());
    }
}

#[test]
fn test_mod_pow_values() {
    assert_eq!(mod_pow(2, 10, 1000), 24);
    assert_eq!(mod_pow(3, 0, 7), 1);
    assert_eq!(mod_pow(5, 3, 1), 0);
    assert_eq!(mod_pow(0, 5, 13), 0);
}

#[test]
fn test_sqrt_rejects_wrong_modulus_class() {
    // 13 = 1 (mod 4): the direct formula refuses even for residues.
    assert!(sqrt_mod_p3mod4(4, 13).is_none());
}

#[test]
fn test_get_root_brute_force() {
    let r = get_root(18, 47);
    assert!(r < 47);
    assert_eq!((r * r) % 47, 18);
    // A non-residue makes the search run out: the modulus itself comes back.
    assert_eq!(get_root(5, 47), 47);
}

#[test]
fn test_tonelli_large_modulus_none_path() {
    // Composite modulus that fails the Euler criterion.
    assert!(tonelli_shanks(3, 15).is_none());
}
