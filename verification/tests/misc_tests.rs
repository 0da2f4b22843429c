use ecmath::big_o_notation::{binary_search, constant_time, fib, linear_time, merge_sort};
use ecmath::commit_reveal_pok::{GroupElement, Participant, SchnorrProof};
use ecmath::conversion::{buggy_bin_to_dec, decimal_to_binary, good_bin_to_dec};
use ecmath::feldman_vss::{GroupElement as VssElement, Scalar as VssScalar, verify_share};
use ecmath::lagrange_interpolation::{FieldElement as LagrangeElement, lagrange_interpolate};
use ecmath::monoid::{server_compute_sum, Ciphertext, ToyHomomorphicSystem};
use ecmath::nonce_reuse::recover_private_key;
use ecmath::rsa_dp_old_attack::SecureFieldElement;

#[test]
fn test_linear_and_constant_time_agree() {
    assert_eq!(linear_time(0), 0);
    assert_eq!(linear_time(4), 10);
    assert_eq!(constant_time(4), 10);
    assert_eq!(linear_time(1000), constant_time(1000));
}

#[test]
fn test_fib_values() {
    assert_eq!(fib(0), 0);
    assert_eq!(fib(1), 1);
    assert_eq!(fib(10), 55);
}

#[test]
fn test_merge_sort_orders() {
    let array = [9, 3, 56, 199, 290, 12];
    let sorted = merge_sort(&array);
    assert_eq!(sorted, vec![3, 9, 12, 56, 199, 290]);
    let empty: [u32; 0] = [];
    assert_eq!(merge_sort(&empty), Vec::<u32>::new());
    let dup = [5, 5, 1, 5];
    assert_eq!(merge_sort(&dup), vec![1, 5, 5, 5]);
}

#[test]
fn test_binary_search_membership() {
    let arr = [1, 3, 23, 24, 25, 36, 40, 50, 60, 89, 99, 120, 145, 234];
    assert!(binary_search(&arr, 23));
    assert!(binary_search(&arr, 1));
    assert!(binary_search(&arr, 234));
    assert!(!binary_search(&arr, 2));
    assert!(!binary_search(&arr, 500));
}

#[test]
fn test_decimal_to_binary_strings() {
    assert_eq!(decimal_to_binary(0), "0");
    assert_eq!(decimal_to_binary(1), "1");
    assert_eq!(decimal_to_binary(6), "110");
    assert_eq!(decimal_to_binary(255), "11111111");
}

#[test]
fn test_bin_to_dec_readers() {
    assert_eq!(buggy_bin_to_dec(0), "0");
    assert_eq!(buggy_bin_to_dec(110), "6");
    // the buggy reader happily weights non-binary digits too: 2*1 + 3 = 5
    assert_eq!(buggy_bin_to_dec(23), "7");
    assert_eq!(good_bin_to_dec(0), 0);
    assert_eq!(good_bin_to_dec(110), 6);
    assert_eq!(good_bin_to_dec(1111111111), 1023);
}

#[test]
fn test_lagrange_recovers_secret() {
    // Shares of P(x) = 12 + 4x + 3x^2 (mod 251): the secret P(0) is 12.
    let shares = vec![
        (LagrangeElement::new(1), LagrangeElement::new(19)),
        (LagrangeElement::new(2), LagrangeElement::new(32)),
        (LagrangeElement::new(3), LagrangeElement::new(51)),
    ];
    let secret = lagrange_interpolate(LagrangeElement::new(0), &shares);
    assert_eq!(secret, LagrangeElement::new(12));
    // Evaluating at a share point returns that share's value.
    let at_two = lagrange_interpolate(LagrangeElement::new(2), &shares);
    assert_eq!(at_two, LagrangeElement::new(32));
}

#[test]
fn test_lagrange_field_inverses() {
    let four = LagrangeElement::new(4);
    let inv = four.inverse();
    assert_eq!(four.mul(inv), LagrangeElement::new(1));
    assert_eq!(four.eea_inv(), inv);
    assert_eq!(LagrangeElement::new(-5), LagrangeElement::new(246));
}

#[test]
fn test_monoid_homomorphism() {
    let sys = ToyHomomorphicSystem::new();
    let enc_a = sys.encrypt(5);
    let enc_b = sys.encrypt(3);
    assert_eq!(enc_a.0, 100000);
    assert_eq!(enc_b.0, 1000);
    let total = server_compute_sum(vec![enc_a, enc_b]);
    assert_eq!(total.0, 100000000);
    assert_eq!(sys.decrypt(total), 8);
    assert_eq!(sys.decrypt(Ciphertext(0)), 0);
    // rounding in log space: 50 is nearer 100 than 10
    assert_eq!(sys.decrypt(Ciphertext(50)), 2);
    assert_eq!(sys.decrypt(Ciphertext(31)), 1);
}

#[test]
fn test_feldman_share_verification() {
    // P(x) = 5 + 2x: commitments g^5 and g^2; the share for node 3 is 11.
    let c0 = VssElement::generator_pow(VssScalar(5));
    let c1 = VssElement::generator_pow(VssScalar(2));
    let commitments = vec![c0, c1];
    assert!(verify_share(3, VssScalar(11), &commitments));
    // A tampered share is detected.
    assert!(!verify_share(3, VssScalar(12), &commitments));
}

#[test]
fn test_commit_reveal_protocol() {
    let alice = Participant::new("Alice", 10);
    let commitment = alice.generate_commitment();
    let (pk, salt, pok) = alice.open_commitment();

    // the reveal opens the commitment
    let check = Participant::new("Check", 10);
    assert_eq!(pk.0, check.public_key.0);
    assert_eq!(salt, check.salt);
    assert_eq!(commitment, check.generate_commitment());

    // the proof of knowledge verifies against the honest key
    assert!(pok.verify(pk));

    // a swapped key fails both the commitment check and the proof
    let malory = Participant::new("Malory", 666);
    let fake = GroupElement(malory.public_key.0.wrapping_sub(pk.0));
    let fake_participant_commitment = Participant {
        id: String::from("fake"),
        secret: malory.secret,
        public_key: fake,
        salt: malory.salt,
    }
    .generate_commitment();
    assert_ne!(fake_participant_commitment, malory.generate_commitment());
}

#[test]
fn test_schnorr_rejects_wrong_key() {
    let alice = Participant::new("Alice", 10);
    let pok = SchnorrProof::prove(alice.secret, alice.public_key);
    assert!(pok.verify(alice.public_key));
    let other = Participant::new("Other", 11);
    assert!(!pok.verify(other.public_key));
}

#[test]
fn test_nonce_reuse_recovery() {
    // Simplified numbers: k = (10-20)/(45-55) = 1, key = (45*1 - 10)/5 = 7
    let key = recover_private_key(10, 20, 45, 55, 5, 100);
    assert_eq!(key, 7);
}

#[test]
fn test_secure_field_element_canonical() {
    // 19 and 2 are the same residue mod 17, so the aliasing attack fails.
    assert_eq!(SecureFieldElement::new(2), SecureFieldElement::new(19));
    assert_ne!(SecureFieldElement::new(2), SecureFieldElement::new(3));
}
