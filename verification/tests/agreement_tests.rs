use rand::Rng;
use tp1::agreement::Agreement;
use tp1::finite_body::FiniteBody;
use tp1::point_elliptic_curve::PointEllipticCurve;

#[test]
fn test_01_ejercicio3_g1() {
    let p = 43;
    let a: FiniteBody = FiniteBody::new(p, 0);
    let b: FiniteBody = FiniteBody::new(p, 6);

    let g1 =
        PointEllipticCurve::new(FiniteBody::new(p, 13), FiniteBody::new(p, 15), a, b).unwrap();

    let agreement_g1 = Agreement::new(p, a, b, g1);
    println!("Orden de [G1]: {:?}", agreement_g1.order_g());
    println!(
        "Cantidad de puntos de la curva: {:?}",
        agreement_g1.quantity_points_curve()
    );

    // ALICE draws a private key and publishes the public key
    let private_key_alice = rand::thread_rng().gen_range(1..agreement_g1.order_g());
    let public_key_alice = agreement_g1.generate_public_key(private_key_alice);

    // BOB draws a private key and publishes the public key
    let private_key_bob = rand::thread_rng().gen_range(1..agreement_g1.order_g());
    let public_key_bob = agreement_g1.generate_public_key(private_key_bob);

    // ALICE receives BOB's public key
    let shared_secret_alice =
        agreement_g1.generate_shared_secret(public_key_bob, private_key_alice);

    // BOB receives ALICE's public key
    let shared_secret_bob =
        agreement_g1.generate_shared_secret(public_key_alice, private_key_bob);

    assert_eq!(shared_secret_alice, shared_secret_bob);
}

#[test]
fn test_02_ejercicio3_g2() {
    let p = 43;
    let a: FiniteBody = FiniteBody::new(p, 0);
    let b: FiniteBody = FiniteBody::new(p, 6);

    let g2 = PointEllipticCurve::new(FiniteBody::new(p, 9), FiniteBody::new(p, 2), a, b).unwrap();

    let agreement_g2 = Agreement::new(p, a, b, g2);
    println!("Orden de [G2]: {:?}", agreement_g2.order_g());
    println!(
        "Cantidad de puntos de la curva: {:?}",
        agreement_g2.quantity_points_curve()
    );

    let private_key_alice = rand::thread_rng().gen_range(1..agreement_g2.order_g());
    let public_key_alice = agreement_g2.generate_public_key(private_key_alice);

    let private_key_bob = rand::thread_rng().gen_range(1..agreement_g2.order_g());
    let public_key_bob = agreement_g2.generate_public_key(private_key_bob);

    let shared_secret_alice =
        agreement_g2.generate_shared_secret(public_key_bob, private_key_alice);

    let shared_secret_bob =
        agreement_g2.generate_shared_secret(public_key_alice, private_key_bob);

    assert_eq!(shared_secret_alice, shared_secret_bob);
}
