use ecmath::ec_projective::{AffinePoint, FieldElement, ProjectivePoint};

#[test]
fn test_affine_to_projective() {
    let affine = AffinePoint::Point {
        x: FieldElement::new(10),
        y: FieldElement::new(20),
    };
    let proj: ProjectivePoint = affine.into();
    assert_eq!(proj.x.value, 10);
    assert_eq!(proj.y.value, 20);
    assert_eq!(proj.z.value, 1);

    let inf = AffinePoint::Infinity;
    let proj_inf: ProjectivePoint = inf.into();
    assert!(proj_inf.is_infinity());
}

#[test]
fn test_projective_to_affine() {
    let proj = ProjectivePoint {
        x: FieldElement::new(20),
        y: FieldElement::new(40),
        z: FieldElement::new(2),
    };
    let affine: AffinePoint = proj.into();
    if let AffinePoint::Point { x, y } = affine {
        assert_eq!(x.value, 10); // 20 / 2
        assert_eq!(y.value, 20); // 40 / 2
    } else {
        panic!("Expected Point, got Infinity");
    }
}

#[test]
fn test_projective_double() {
    // Use the generator G=(0,1)
    let g_affine = AffinePoint::Point {
        x: FieldElement::new(0),
        y: FieldElement::new(1),
    };
    let g: ProjectivePoint = g_affine.into();

    let g2 = g.double();
    let g2_affine: AffinePoint = g2.into();

    // Expected 2G:
    // s = (3x^2)/2y = 0/2 = 0
    // x3 = s^2 - 2x = 0
    // y3 = s(x - x3) - y = 0 - 1 = -1 = 210
    // 2G = (0, 210)
    if let AffinePoint::Point { x, y } = g2_affine {
        assert_eq!(x.value, 0);
        assert_eq!(y.value, 210);
    } else {
        panic!("Expected Point");
    }
}

#[test]
fn test_scalar_mul() {
    // G = (0, 1)
    // 2G = (0, 210)
    // 3G = G + 2G: vertical chord, so 3G = Infinity (order-3 subgroup)
    let g_affine = AffinePoint::Point {
        x: FieldElement::new(0),
        y: FieldElement::new(1),
    };
    let g: ProjectivePoint = g_affine.into();

    let g3 = g.scalar_mul(3);
    assert!(g3.is_infinity());

    let g2 = g.scalar_mul(2);
    let g2_affine: AffinePoint = g2.into();
    if let AffinePoint::Point { x, y } = g2_affine {
        assert_eq!(x.value, 0);
        assert_eq!(y.value, 210);
    } else {
        panic!("Expected Point");
    }
}

fn affine_of(p: ProjectivePoint) -> (i128, i128) {
    match AffinePoint::from(p) {
        AffinePoint::Point { x, y } => (x.value, y.value),
        AffinePoint::Infinity => panic!("unexpected identity"),
    }
}

fn point(x: i128, y: i128) -> ProjectivePoint {
    ProjectivePoint::from(AffinePoint::Point {
        x: FieldElement::new(x),
        y: FieldElement::new(y),
    })
}

#[test]
fn test_add_associative_commutative() {
    // Valid points on y^2 = x^3 + 4 mod 211.
    let a = point(1, 146);
    let b = point(6, 208);
    let c = point(7, 145);

    let ab_c = a.add(&b).add(&c);
    let a_bc = a.add(&b.add(&c));
    assert_eq!(affine_of(ab_c), (73, 123));
    assert_eq!(affine_of(a_bc), (73, 123));

    assert_eq!(affine_of(a.add(&b)), (113, 111));
    assert_eq!(affine_of(b.add(&a)), (113, 111));
}

#[test]
fn test_identity_neutral_projective() {
    let a = point(1, 146);
    let inf = ProjectivePoint::infinity();
    assert_eq!(a.add(&inf), a);
    assert_eq!(inf.add(&a), a);
}

#[test]
fn test_scalar_mul_two_is_double() {
    let a = point(1, 146);
    assert_eq!(a.scalar_mul(2), a.double());
    assert_eq!(affine_of(a.double()), (9, 10));
}

#[test]
fn test_round_trip_and_scaling() {
    // Affine -> projective -> affine is the identity on finite points.
    let p = AffinePoint::Point {
        x: FieldElement::new(1),
        y: FieldElement::new(146),
    };
    let back = AffinePoint::from(ProjectivePoint::from(p));
    assert_eq!(back, p);

    // A scaled triple stands for the same affine point.
    let k = FieldElement::new(5);
    let scaled = ProjectivePoint {
        x: k.mul(FieldElement::new(1)),
        y: k.mul(FieldElement::new(146)),
        z: k.mul(FieldElement::new(1)),
    };
    assert_eq!(affine_of(scaled), (1, 146));
}

#[test]
fn test_vertical_chord_gives_identity() {
    // (x, y) + (x, -y) with different stored triples falls through to the
    // u/v case and yields the identity.
    let p = point(1, 146);
    let q = point(1, 65); // 65 = -146 mod 211
    assert!(p.add(&q).is_infinity());
}
