use tp1::finite_body::FiniteBody;

#[test]
fn test_01_new_ok() {
    let p = 7;

    let a = FiniteBody::new(p, 3);

    assert_eq!(a.as_value(), 3);
}

#[test]
fn test_02_new_with_number_greater_than_p_ok() {
    let p = 7;

    let a = FiniteBody::new(p, 8);

    assert_eq!(a.as_value(), 1);
}

#[test]
fn test_03_new_with_number_equal_to_p_ok() {
    let p = 7;

    let a = FiniteBody::new(p, 7);

    assert_eq!(a.as_value(), 0);
}

#[test]
fn test_04_new_with_number_less_than_zero_ok() {
    let p = 7;

    let a = FiniteBody::new(p, -1);

    assert_eq!(a.as_value(), 6);
}

#[test]
fn test_05_inverse() {
    let p = 7;
    assert_eq!(FiniteBody::new(p, 1).inverse().unwrap().as_value(), 1);
    assert_eq!(FiniteBody::new(p, 2).inverse().unwrap().as_value(), 4);
    assert_eq!(FiniteBody::new(p, 3).inverse().unwrap().as_value(), 5);
    assert_eq!(FiniteBody::new(p, 4).inverse().unwrap().as_value(), 2);
    assert_eq!(FiniteBody::new(p, 5).inverse().unwrap().as_value(), 3);
    assert_eq!(FiniteBody::new(p, 6).inverse().unwrap().as_value(), 6);
    assert!(FiniteBody::new(p, 0).inverse().is_none());
    assert!(FiniteBody::new(p, 7).inverse().is_none());
}

#[test]
fn test_01_add_ok() {
    let p = 7;

    let a = FiniteBody::new(p, 3);
    let b = FiniteBody::new(p, 6);

    let c = a.add(b);

    assert_eq!(c.as_value(), 2);
}

#[test]
fn test_02_add_ok() {
    let p = 1021;

    let a = FiniteBody::new(p, 330);
    let b = FiniteBody::new(p, 660);

    let c = a.add(b);

    assert_eq!(c.as_value(), 990);
}

#[test]
fn test_03_add_two_numbers_that_equal_p_return_zero() {
    let p = 1021;

    let a = FiniteBody::new(p, 1000);
    let b = FiniteBody::new(p, 21);

    let c = a.add(b);

    assert_eq!(c.as_value(), 0);
}

#[test]
fn test_04_add_two_numbers_that_greater_than_p_return_one() {
    let p = 1021;

    let a = FiniteBody::new(p, 1000);
    let b = FiniteBody::new(p, 22);

    let c = a.add(b);

    assert_eq!(c.as_value(), 1);
}

#[test]
fn test_05_add_two_numbers_that_greater_than_p_return_two() {
    let p = 1021;

    let a = FiniteBody::new(p, 1000);
    let b = FiniteBody::new(p, 23);

    let c = a.add(b);

    assert_eq!(c.as_value(), 2);
}

#[test]
fn test_06_add_two_numbers_zero_return_zero() {
    let p = 1021;

    let a = FiniteBody::new(p, 0);
    let b = FiniteBody::new(p, 0);

    let c = a.add(b);

    assert_eq!(c.as_value(), 0);
}

#[test]
fn test_07_add_zero_with_number_return_number() {
    let p = 1021;

    let a = FiniteBody::new(p, 0);
    let b = FiniteBody::new(p, 23);

    let c = a.add(b);

    assert_eq!(c.as_value(), 23);

    let a = FiniteBody::new(p, 23);
    let b = FiniteBody::new(p, 0);

    let c = a.add(b);

    assert_eq!(c.as_value(), 23);
}

#[test]
fn test_01_div() {
    let p = 7;
    assert_eq!(FiniteBody::new(p, 2).inverse().unwrap().as_value(), 4);
    assert_eq!(FiniteBody::new(p, 5).inverse().unwrap().as_value(), 3);
    assert_eq!(FiniteBody::new(p, 3).inverse().unwrap().as_value(), 5);

    assert_eq!(FiniteBody::new(p, 5).div(FiniteBody::new(p, 2)).as_value(), 6);
    assert_eq!(FiniteBody::new(p, 2).div(FiniteBody::new(p, 5)).as_value(), 6);

    assert_eq!(FiniteBody::new(p, 5).div(FiniteBody::new(p, 3)).as_value(), 4);
    assert_eq!(FiniteBody::new(p, 0).div(FiniteBody::new(p, 5)).as_value(), 0);
}

#[test]
fn test_01_mul_ok() {
    let a = FiniteBody::new(7, 3);
    let b = FiniteBody::new(7, 5);
    let c = FiniteBody::new(7, 1);

    assert_eq!(a.mul(b), c);
}

#[test]
fn test_02_mul_ok() {
    let p = 7;

    assert_eq!(FiniteBody::new(p, 0).mul(FiniteBody::new(p, 0)).as_value(), 0);
    assert_eq!(FiniteBody::new(p, 2).mul(FiniteBody::new(p, 5)).as_value(), 3);
    assert_eq!(FiniteBody::new(p, 2).mul(FiniteBody::new(p, 4)).as_value(), 1);
    assert_eq!(
        FiniteBody::new(p, 2)
            .mul(FiniteBody::new(p, 4))
            .mul(FiniteBody::new(p, 4))
            .as_value(),
        4
    );
}

#[test]
fn test_03_mul() {
    // With a composite modulus, two nonzero residues can multiply to zero.
    let p = 12;
    assert_eq!(FiniteBody::new(p, 3).mul(FiniteBody::new(p, 4)).as_value(), 0);

    // With a prime modulus, a product is zero only when a factor is zero.
    let p = 13;
    assert_eq!(FiniteBody::new(p, 0).mul(FiniteBody::new(p, 6)).as_value(), 0);
    assert_eq!(FiniteBody::new(p, 6).mul(FiniteBody::new(p, 0)).as_value(), 0);
}

#[test]
fn test_04_scalar_mul() {
    let p = 7;
    assert_eq!(FiniteBody::new(p, 2).scalar_mul(2).as_value(), 4);
    assert_eq!(FiniteBody::new(p, 2).scalar_mul(3).as_value(), 6);
    assert_eq!(FiniteBody::new(p, 2).scalar_mul(4).as_value(), 1);
    assert_eq!(FiniteBody::new(p, 2).scalar_mul(-1).as_value(), 5);
    assert_eq!(FiniteBody::new(p, 2).scalar_mul(-3).as_value(), 1);
}

#[test]
fn test_01_neg() {
    let p = 7;

    let a = FiniteBody::new(p, 3);

    let b = a.neg();

    assert_eq!(b.as_value(), 4);
}

#[test]
fn test_02_neg() {
    let p = 7;

    let a = FiniteBody::new(p, -5);
    assert_eq!(a.as_value(), 2);

    let b = a.neg();

    assert_eq!(b.as_value(), 5);
}

#[test]
fn others_test_03_neg() {
    let p = 7;

    assert_eq!(FiniteBody::new(p, 0).as_value(), 0);
    assert_eq!(FiniteBody::new(p, 1).as_value(), 1);
    assert_eq!(FiniteBody::new(p, 2).as_value(), 2);
    assert_eq!(FiniteBody::new(p, 3).as_value(), 3);
    assert_eq!(FiniteBody::new(p, 4).as_value(), 4);
    assert_eq!(FiniteBody::new(p, 5).as_value(), 5);
    assert_eq!(FiniteBody::new(p, 6).as_value(), 6);
    assert_eq!(FiniteBody::new(p, 7).as_value(), 0);

    assert_eq!(FiniteBody::new(p, 0).as_value(), 0);
    assert_eq!(FiniteBody::new(p, -0).as_value(), 0);

    assert_eq!(FiniteBody::new(p, -1).as_value(), 6);
    assert_eq!(FiniteBody::new(p, -2).as_value(), 5);
    assert_eq!(FiniteBody::new(p, -3).as_value(), 4);
    assert_eq!(FiniteBody::new(p, -4).as_value(), 3);
    assert_eq!(FiniteBody::new(p, -5).as_value(), 2);
    assert_eq!(FiniteBody::new(p, -6).as_value(), 1);
    assert_eq!(FiniteBody::new(p, -7).as_value(), 0);

    assert_eq!(FiniteBody::new(p, -8).as_value(), 6);

    assert_eq!(FiniteBody::new(1021, -3).as_value(), 1018);
}

#[test]
fn test_01_sub_ok() {
    let p = 7;

    let a = FiniteBody::new(p, 3);
    let b = FiniteBody::new(p, 6);

    let c = a.sub(b);

    assert_eq!(c.as_value(), 4);
}

#[test]
fn test_02_sub_ok() {
    let p = 1021;

    let a = FiniteBody::new(p, 330);
    let b = FiniteBody::new(p, 660);

    let c = a.sub(b);

    assert_eq!(c.as_value(), 691);
}

#[test]
fn test_03_sub_two_numbers_that_equal_p_return_less_than_p() {
    let p = 1021;

    let a = FiniteBody::new(p, 1000);
    let b = FiniteBody::new(p, 21);

    let c = a.sub(b);

    assert_eq!(c.as_value(), 979);
}

#[test]
fn test_04_sub_ok() {
    let p = 7;

    let a = FiniteBody::new(p, 3);
    let b = FiniteBody::new(p, 5);

    let c = a.sub(b);

    assert_eq!(c.as_value(), 5);
}

#[test]
fn test_05_sub_with_number_zero() {
    let p = 7;

    let a = FiniteBody::new(p, 3);
    let b = FiniteBody::new(p, 0);

    let c = a.sub(b);

    assert_eq!(c.as_value(), 3);
}

#[test]
fn test_06_sub_with_number_zero() {
    let p = 7;

    let a = FiniteBody::new(p, 0);
    let b = FiniteBody::new(p, 3);

    let c = a.sub(b);

    assert_eq!(c.as_value(), 4);
}
