use tp1::discrete_logarithm_problem::AlgorithmsDLP;
use tp1::finite_body::FiniteBody;
use tp1::point_elliptic_curve::PointEllipticCurve;

#[test]
fn test1_ejercicio4() {
    // Curve y^2 = x^3 + 905x + 100 over p = 1021, generator (1006, 416),
    // target (612, 827): both solvers must recover the same scalar.
    let p = 1021;
    let a: FiniteBody = FiniteBody::new(p, 905);
    let b: FiniteBody = FiniteBody::new(p, 100);
    let g = PointEllipticCurve::new(FiniteBody::new(p, 1006), FiniteBody::new(p, 416), a, b)
        .unwrap();

    let k_g = PointEllipticCurve::new(FiniteBody::new(p, 612), FiniteBody::new(p, 827), a, b)
        .unwrap();

    let k_brute_force = AlgorithmsDLP::brute_force(p, a, b, g, k_g);
    let res_brute_force = g.scalar_mul(k_brute_force as u64);

    let k_bsgs = AlgorithmsDLP::bsgs(p, a, b, g, k_g);
    let res_bsgs = g.scalar_mul(k_bsgs as u64);

    assert_eq!(k_brute_force, k_bsgs);

    println!("BRUTE FORCE");
    println!("  k: {:?}", k_brute_force);
    println!(
        "  kG: (x: {:?}, y: {:?})",
        res_brute_force.x.unwrap().as_value(),
        res_brute_force.y.unwrap().as_value()
    );

    println!("BSGS");
    println!("  k: {:?}", k_bsgs);
    println!(
        "  kG: (x: {:?}, y: {:?})",
        res_bsgs.x.unwrap().as_value(),
        res_bsgs.y.unwrap().as_value()
    );
}
