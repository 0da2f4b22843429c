use ecmath::ec_point::ECPoint;

#[test]
fn test_point_addition_distinct() {
    // Curve: y^2 = x^3 + 1 mod 17
    // P1 = (0, 1)
    // P2 = (1, 6)
    // Expected: (7, 15)
    let p1 = ECPoint::new(0, 1);
    let p2 = ECPoint::new(1, 6);
    let expected = ECPoint::new(7, 15);

    let result = p1.add(p2);
    println!("(0,1) + (1,6) = {:?}", result);
    assert_eq!(result, expected);
}

#[test]
fn test_point_doubling() {
    // P = (1, 6)
    // 2P = (14, 12)
    let p = ECPoint::new(1, 6);
    let expected = ECPoint::new(14, 12);

    let result = p.add(p);
    println!("2 * (1,6) = {:?}", result);
    assert_eq!(result, expected);
}

#[test]
fn test_identity() {
    let p = ECPoint::new(1, 6);
    assert_eq!(p.add(ECPoint::Infinity), p);
    assert_eq!(ECPoint::Infinity.add(p), p);
}

#[test]
fn test_inverse() {
    // P = (0, 1)
    // -P = (0, -1) = (0, 16)
    // P + (-P) = Infinity
    let p1 = ECPoint::new(0, 1);
    let p2 = ECPoint::new(0, 16);
    assert_eq!(p1.add(p2), ECPoint::Infinity);
}

#[test]
fn test_inverse_order_two_point() {
    // A point with y = 0 is its own reflection; the vertical tangent sends
    // the sum to infinity.
    let p = ECPoint::new(5, 0);
    assert_eq!(p.add(p), ECPoint::Infinity);
}

#[test]
fn test_field_inverse_value() {
    // 4 * 13 = 52 = 1 (mod 17)
    let a = ecmath::ec_point::FieldElement::new(4);
    let inv = a.inverse();
    assert_eq!(inv.value, 13);
    assert_eq!(a.mul(inv).value, 1);
}

#[test]
fn test_field_new_negative() {
    // -1 reduces to 16, -17 to 0
    assert_eq!(ecmath::ec_point::FieldElement::new(-1).value, 16);
    assert_eq!(ecmath::ec_point::FieldElement::new(-17).value, 0);
    assert_eq!(ecmath::ec_point::FieldElement::new(i64::MIN).value, (((i64::MIN % 17) + 17) % 17));
}
