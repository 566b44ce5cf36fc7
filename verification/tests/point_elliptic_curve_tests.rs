use tp1::finite_body::FiniteBody;
use tp1::point_elliptic_curve::PointEllipticCurve;

#[test]
fn point_elliptic_curve_test_02_creation_for_bf() {
    let p = 103;
    let x = FiniteBody::new(p, 17);
    let y = FiniteBody::new(p, 64);
    let a = FiniteBody::new(p, 0);
    let b = FiniteBody::new(p, 7);

    let point = PointEllipticCurve::new(x, y, a, b);
    assert!(point.is_some());
}

#[test]
fn point_elliptic_curve_test_04_add() {
    let p: i64 = 37;
    let a: FiniteBody = FiniteBody::new(p, 0);
    let b: FiniteBody = FiniteBody::new(p, 7);
    assert_eq!(a.add(b), FiniteBody::new(p, 7));

    let x1: FiniteBody = FiniteBody::new(p, 6);
    let y1: FiniteBody = FiniteBody::new(p, 1);
    let point1: PointEllipticCurve = PointEllipticCurve::new(x1, y1, a, b).unwrap();

    let x2: FiniteBody = FiniteBody::new(p, 8);
    let y2: FiniteBody = FiniteBody::new(p, 1);
    let point2: PointEllipticCurve = PointEllipticCurve::new(x2, y2, a, b).unwrap();

    let x3: FiniteBody = FiniteBody::new(p, 23);
    let y3: FiniteBody = FiniteBody::new(p, 36);
    let point3: PointEllipticCurve = PointEllipticCurve::new(x3, y3, a, b).unwrap();

    let res = point1.add(point2);
    assert_eq!(res, Some(point3)); // P1 + P2 = P3
}

#[test]
fn point_elliptic_curve_test_05_add() {
    let p = 223;
    let a: FiniteBody = FiniteBody::new(p, 0);
    let b: FiniteBody = FiniteBody::new(p, 7);
    assert_eq!(a.add(b), FiniteBody::new(p, 7));

    let x1: FiniteBody = FiniteBody::new(p, 192);
    let y1: FiniteBody = FiniteBody::new(p, 105);
    let point1: PointEllipticCurve = PointEllipticCurve::new(x1, y1, a, b).unwrap();

    let x2: FiniteBody = FiniteBody::new(p, 17);
    let y2: FiniteBody = FiniteBody::new(p, 56);
    let point2: PointEllipticCurve = PointEllipticCurve::new(x2, y2, a, b).unwrap();

    let x3: FiniteBody = FiniteBody::new(p, 170);
    let y3: FiniteBody = FiniteBody::new(p, 142);
    let point3: PointEllipticCurve = PointEllipticCurve::new(x3, y3, a, b).unwrap();

    let res = point1.add(point2);
    assert_eq!(res, Some(point3)); // P1 + P2 = P3
}

#[test]
fn point_elliptic_curve_test_05_add_two_sim() {
    let p: i64 = 37;
    let a: FiniteBody = FiniteBody::new(p, 0);
    let b: FiniteBody = FiniteBody::new(p, 7);
    assert_eq!(a.add(b), FiniteBody::new(p, 7));

    let x1: FiniteBody = FiniteBody::new(p, 6);
    let y1: FiniteBody = FiniteBody::new(p, 1);
    let point1: PointEllipticCurve = PointEllipticCurve::new(x1, y1, a, b).unwrap();

    let x3: FiniteBody = FiniteBody::new(p, 18);
    let y3: FiniteBody = FiniteBody::new(p, 17);
    let point3: PointEllipticCurve = PointEllipticCurve::new(x3, y3, a, b).unwrap();

    let res = point1.add(point1);
    assert_eq!(res, Some(point3)); // P1 + P1 = 2P1 = P3
}

#[test]
fn point_elliptic_curve_test_07_scalar_mul_groups() {
    let p = 223;
    let a: FiniteBody = FiniteBody::new(p, 0);
    let b: FiniteBody = FiniteBody::new(p, 7);
    assert_eq!(a.add(b), FiniteBody::new(p, 7));

    let x: FiniteBody = FiniteBody::new(p, 47);
    let y: FiniteBody = FiniteBody::new(p, 71);
    let g: PointEllipticCurve = PointEllipticCurve::new(x, y, a, b).unwrap();

    let n = 21; // the order of the cyclic group {G, 2G, ..., nG}

    // every multiple below the order is a finite point
    for k in 1..n {
        let res = g.scalar_mul(k);
        assert!(res.x.is_some() && res.y.is_some());
    }

    // nG: the point at infinity is the additive identity
    assert_eq!(g.scalar_mul(n), PointEllipticCurve::new_inf(a, b));
}

#[test]
fn point_elliptic_curve_test_08_scalar_mul_groups() {
    let p = 223;
    let a: FiniteBody = FiniteBody::new(p, 0);
    let b: FiniteBody = FiniteBody::new(p, 7);
    assert_eq!(a.add(b), FiniteBody::new(p, 7));

    let x: FiniteBody = FiniteBody::new(p, 15);
    let y: FiniteBody = FiniteBody::new(p, 86);
    let g: PointEllipticCurve = PointEllipticCurve::new(x, y, a, b).unwrap();

    let n = 7; // the order of the cyclic group {G, 2G, ..., nG}

    for k in 1..n {
        let res = g.scalar_mul(k);
        assert!(res.x.is_some() && res.y.is_some());
    }

    // nG: the point at infinity is the additive identity
    assert_eq!(g.scalar_mul(n), PointEllipticCurve::new_inf(a, b));
}

#[test]
fn point_elliptic_curve_test_09_ejercicio2() {
    // Curve y^2 = x^3 - 3x - 3 over p = 1021: multiply P = (379, 1011) by
    // k = 655, then count the points of the curve by exhaustive search.
    let p = 1021;
    let a: FiniteBody = FiniteBody::new(p, -3);
    let b: FiniteBody = FiniteBody::new(p, -3);

    let x: FiniteBody = FiniteBody::new(p, 379);
    let y: FiniteBody = FiniteBody::new(p, 1011);
    let g: PointEllipticCurve = PointEllipticCurve::new(x, y, a, b).unwrap();

    let k = 655;

    let x_g_expected = FiniteBody::new(p, 388);
    let y_g_expected = FiniteBody::new(p, 60);
    let k_g_expected = PointEllipticCurve::new(x_g_expected, y_g_expected, a, b).unwrap();

    let res = g.scalar_mul(k);
    assert_eq!(res, k_g_expected);

    let mut points = vec![];

    // Brute-force search
    for x in 0..p {
        let x_val = FiniteBody::new(p, x);
        let y_squared = x_val.pow(3).add(a.mul(x_val)).add(b);
        for y in 0..p {
            let y_val = FiniteBody::new(p, y);
            if y_squared == y_val.pow(2) {
                let point = PointEllipticCurve::new(x_val, y_val, a, b).unwrap();
                points.push(point);
            }
        }
    }
    println!(
        "Cantidad de puntos de la curva: {:?} + 1 punto del infinito",
        points.len()
    );
}
