use tp1::finite_body::BodyFinity;

#[test]
fn test_01_add() {
    let p = 7;

    let a = BodyFinity::new(p, 3);
    let b = BodyFinity::new(p, 6);

    let c = a.add(b);

    assert_eq!(c.as_value(), 2);
}

#[test]
fn test_02_sub() {
    let p = 7;

    let a = BodyFinity::new(p, 3);
    let b = BodyFinity::new(p, 5);

    let c = a.sub(b);

    assert_eq!(c.as_value(), 5);
}

#[test]
fn body_finity_test_03_neg() {
    let p = 7;

    let a = BodyFinity::new(p, 3);

    let b = a.neg();

    assert_eq!(b.as_value(), 4);
}

#[test]
fn test_04_neg() {
    let p = 7;

    let a = BodyFinity::new(p, -5);
    assert_eq!(a.as_value(), 2);

    let b = a.neg();

    assert_eq!(b.as_value(), 5);
}

#[test]
fn test_05_neg() {
    let p = 7;

    assert_eq!(BodyFinity::new(p, 0).as_value(), 0);
    assert_eq!(BodyFinity::new(p, 1).as_value(), 1);
    assert_eq!(BodyFinity::new(p, 2).as_value(), 2);
    assert_eq!(BodyFinity::new(p, 3).as_value(), 3);
    assert_eq!(BodyFinity::new(p, 4).as_value(), 4);
    assert_eq!(BodyFinity::new(p, 5).as_value(), 5);
    assert_eq!(BodyFinity::new(p, 6).as_value(), 6);
    assert_eq!(BodyFinity::new(p, 7).as_value(), 0);

    assert_eq!(BodyFinity::new(p, 0).as_value(), 0);
    assert_eq!(BodyFinity::new(p, -0).as_value(), 0);

    assert_eq!(BodyFinity::new(p, -1).as_value(), 6);
    assert_eq!(BodyFinity::new(p, -2).as_value(), 5);
    assert_eq!(BodyFinity::new(p, -3).as_value(), 4);
    assert_eq!(BodyFinity::new(p, -4).as_value(), 3);
    assert_eq!(BodyFinity::new(p, -5).as_value(), 2);
    assert_eq!(BodyFinity::new(p, -6).as_value(), 1);
    assert_eq!(BodyFinity::new(p, -7).as_value(), 0);

    assert_eq!(BodyFinity::new(p, -8).as_value(), 6);

    assert_eq!(BodyFinity::new(1021, -3).as_value(), 1018);
}

#[test]
fn test_06_mul() {
    let p = 7;

    assert_eq!(BodyFinity::new(p, 0).mul(BodyFinity::new(p, 0)).as_value(), 0);
    assert_eq!(BodyFinity::new(p, 2).mul(BodyFinity::new(p, 5)).as_value(), 3);
    assert_eq!(BodyFinity::new(p, 2).mul(BodyFinity::new(p, 4)).as_value(), 1);
    assert_eq!(
        BodyFinity::new(p, 2)
            .mul(BodyFinity::new(p, 4))
            .mul(BodyFinity::new(p, 4))
            .as_value(),
        4
    );
}

#[test]
fn test_07_mul() {
    // With a composite modulus, two nonzero residues can multiply to zero.
    let p = 12;
    assert_eq!(BodyFinity::new(p, 3).mul(BodyFinity::new(p, 4)).as_value(), 0);

    // With a prime modulus, a product is zero only when a factor is zero.
    let p = 13;
    assert_eq!(BodyFinity::new(p, 0).mul(BodyFinity::new(p, 6)).as_value(), 0);
    assert_eq!(BodyFinity::new(p, 6).mul(BodyFinity::new(p, 0)).as_value(), 0);
}

#[test]
fn test_08_inv_mul() {
    let p = 7;
    assert_eq!(BodyFinity::new(p, 2).inverse().unwrap().as_value(), 4);
    assert_eq!(BodyFinity::new(p, 5).inverse().unwrap().as_value(), 3);
    assert_eq!(BodyFinity::new(p, 3).inverse().unwrap().as_value(), 5);

    assert_eq!(BodyFinity::new(p, 5).div(BodyFinity::new(p, 2)).as_value(), 6);
    assert_eq!(BodyFinity::new(p, 2).div(BodyFinity::new(p, 5)).as_value(), 6);

    assert_eq!(BodyFinity::new(p, 5).div(BodyFinity::new(p, 3)).as_value(), 4);
    assert_eq!(BodyFinity::new(p, 0).div(BodyFinity::new(p, 5)).as_value(), 0);
}

#[test]
fn test_09_scalar_mul() {
    let p = 7;
    assert_eq!(BodyFinity::new(p, 2).scalar_mul(2).as_value(), 4);
    assert_eq!(BodyFinity::new(p, 2).scalar_mul(3).as_value(), 6);
    assert_eq!(BodyFinity::new(p, 2).scalar_mul(4).as_value(), 1);
}
