use tp1::agreement::Agreement;
use tp1::discrete_logarithm_problem::AlgorithmsDLP;
use tp1::finite_body::FiniteBody;
use tp1::point_elliptic_curve::PointEllipticCurve;

#[test]
fn field_additive_inverse_normalizes_to_zero() {
    // v + (p - v) reduces to the zero element, for every residue.
    let p = 7;
    for v in 0..p {
        let e = FiniteBody::new(p, v);
        let o = FiniteBody::new(p, p - v);
        assert_eq!(e.add(o).as_value(), 0);
        assert_eq!(e.add(e.neg()).as_value(), 0);
    }
    let e = FiniteBody::new(7, 3);
    let f = FiniteBody::new(7, 6);
    assert_eq!(e.add(f).as_value(), 2);
    assert_eq!(FiniteBody::new(7, 2).inverse().unwrap().as_value(), 4);
}

#[test]
fn field_inverse_multiplies_to_one() {
    // e * e^-1 == 1 for every nonzero element of a prime field, and the
    // inverse exists exactly for the nonzero elements.
    for p in [5, 7, 13, 1021] {
        for v in 1..p.min(50) {
            let e = FiniteBody::new(p, v);
            let inv = e.inverse().expect("nonzero element must be invertible");
            assert_eq!(e.mul(inv).as_value(), 1);
        }
        assert!(FiniteBody::new(p, 0).inverse().is_none());
    }
}

#[test]
fn field_mod_inverse_by_euclid() {
    assert_eq!(FiniteBody::extended_euclidean_algorithm(12, 8), (4, 1));
    assert_eq!(FiniteBody::mod_inverse(3, 7), Some(5));
    assert_eq!(FiniteBody::mod_inverse(2, 7), Some(4));
    assert_eq!(FiniteBody::mod_inverse(6, 12), None);
    assert_eq!(FiniteBody::mod_inverse(0, 7), None);
    for v in 1..43 {
        let inv = FiniteBody::mod_inverse(v, 43).unwrap();
        assert_eq!((v * inv) % 43, 1);
    }
}

#[test]
fn field_pow_exact_values() {
    let p = 13;
    assert_eq!(FiniteBody::new(p, 2).pow(0).as_value(), 1);
    assert_eq!(FiniteBody::new(p, 2).pow(6).as_value(), 12); // 64 mod 13
    assert_eq!(FiniteBody::new(p, 3).pow(3).as_value(), 1); // 27 mod 13
    assert_eq!(FiniteBody::new(p, 0).pow(5).as_value(), 0);
    assert!(FiniteBody::new(p, 5).is_zero() == false);
    assert!(FiniteBody::new(p, 13).is_zero());
    assert!(FiniteBody::new(p, 6).eq_value(6));
}

#[test]
fn point_rejects_coordinates_off_the_curve() {
    let p = 37;
    let a = FiniteBody::new(p, 0);
    let b = FiniteBody::new(p, 7);
    assert!(PointEllipticCurve::new(FiniteBody::new(p, 6), FiniteBody::new(p, 1), a, b).is_some());
    assert!(PointEllipticCurve::new(FiniteBody::new(p, 6), FiniteBody::new(p, 2), a, b).is_none());
}

#[test]
fn point_addition_fails_on_curve_mismatch() {
    let p = 223;
    let a = FiniteBody::new(p, 0);
    let b = FiniteBody::new(p, 7);
    let b2 = FiniteBody::new(p, 5);
    let pt = PointEllipticCurve::new(FiniteBody::new(p, 47), FiniteBody::new(p, 71), a, b).unwrap();
    let other_inf = PointEllipticCurve::new_inf(a, b2);
    assert_eq!(pt.add(other_inf), None);
}

#[test]
fn point_identity_law() {
    // P + infinity == P and infinity + P == P.
    let p = 223;
    let a = FiniteBody::new(p, 0);
    let b = FiniteBody::new(p, 7);
    let pt = PointEllipticCurve::new(FiniteBody::new(p, 47), FiniteBody::new(p, 71), a, b).unwrap();
    let inf = PointEllipticCurve::new_inf(a, b);
    assert_eq!(pt.add(inf), Some(pt));
    assert_eq!(inf.add(pt), Some(pt));
    assert_eq!(inf.add(inf), Some(inf));
}

#[test]
fn point_inverse_law() {
    // P + (-P) == infinity for every finite point.
    let p = 223;
    let a = FiniteBody::new(p, 0);
    let b = FiniteBody::new(p, 7);
    let inf = PointEllipticCurve::new_inf(a, b);
    let pt = PointEllipticCurve::new(FiniteBody::new(p, 47), FiniteBody::new(p, 71), a, b).unwrap();
    let npt = pt.neg().unwrap();
    assert_eq!(pt.add(npt), Some(inf));
    assert_eq!(inf.neg(), Some(inf));
}

#[test]
fn point_addition_commutes_and_associates() {
    // Spot-check of commutativity and associativity on one curve.
    let p = 223;
    let a = FiniteBody::new(p, 0);
    let b = FiniteBody::new(p, 7);
    let g = PointEllipticCurve::new(FiniteBody::new(p, 47), FiniteBody::new(p, 71), a, b).unwrap();
    let q = g.scalar_mul(2);
    let r = g.scalar_mul(5);

    assert_eq!(g.add(q), q.add(g));
    assert_eq!(g.add(r), r.add(g));

    let left = g.add(q).unwrap().add(r).unwrap();
    let right = g.add(q.add(r).unwrap()).unwrap();
    assert_eq!(left, right);
}

#[test]
fn point_two_torsion_doubles_to_infinity() {
    // A point with y == 0 is its own inverse: doubling it gives infinity.
    // On y^2 = x^3 + 1 over p = 5, the point (4, 0) is on the curve.
    let p = 5;
    let a = FiniteBody::new(p, 0);
    let b = FiniteBody::new(p, 1);
    let pt = PointEllipticCurve::new(FiniteBody::new(p, 4), FiniteBody::new(p, 0), a, b).unwrap();
    assert_eq!(pt.add(pt), Some(PointEllipticCurve::new_inf(a, b)));
}

#[test]
fn point_scalar_mul_consistency() {
    // 2P == P + P and 3P == (P + P) + P.
    let p = 223;
    let a = FiniteBody::new(p, 0);
    let b = FiniteBody::new(p, 7);
    let g = PointEllipticCurve::new(FiniteBody::new(p, 47), FiniteBody::new(p, 71), a, b).unwrap();
    assert_eq!(g.scalar_mul(0), PointEllipticCurve::new_inf(a, b));
    assert_eq!(g.scalar_mul(1), g);
    assert_eq!(Some(g.scalar_mul(2)), g.add(g));
    assert_eq!(Some(g.scalar_mul(3)), g.add(g).unwrap().add(g));
}

#[test]
fn generator_order_law() {
    // n*G is infinity and no smaller positive multiple is.
    let p = 223;
    let a = FiniteBody::new(p, 0);
    let b = FiniteBody::new(p, 7);
    let g = PointEllipticCurve::new(FiniteBody::new(p, 47), FiniteBody::new(p, 71), a, b).unwrap();
    let inf = PointEllipticCurve::new_inf(a, b);
    let n: u64 = 21;
    assert_eq!(g.scalar_mul(n), inf);
    for k in 1..n {
        assert_ne!(g.scalar_mul(k), inf);
    }
}

#[test]
fn agreement_derives_order_and_point_count() {
    let p = 43;
    let a = FiniteBody::new(p, 0);
    let b = FiniteBody::new(p, 6);
    let g = PointEllipticCurve::new(FiniteBody::new(p, 13), FiniteBody::new(p, 15), a, b).unwrap();
    let agreement = Agreement::new(p, a, b, g);

    let n = agreement.order_g();
    assert!(n >= 1);
    let inf = PointEllipticCurve::new_inf(a, b);
    assert_eq!(g.scalar_mul(n), inf);
    for k in 1..n {
        assert_ne!(g.scalar_mul(k), inf);
    }

    // the reported point count matches an independent enumeration
    let mut affine = 0u64;
    for x in 0..p {
        let x_val = FiniteBody::new(p, x);
        let y_squared = x_val.pow(3).add(a.mul(x_val)).add(b);
        for y in 0..p {
            if y_squared == FiniteBody::new(p, y).pow(2) {
                affine += 1;
            }
        }
    }
    assert_eq!(agreement.quantity_points_curve(), affine + 1);
}

#[test]
fn diffie_hellman_fixed_keys_agree() {
    // (alpha*G)*beta == (beta*G)*alpha, exercised through the agreement API.
    let p = 43;
    let a = FiniteBody::new(p, 0);
    let b = FiniteBody::new(p, 6);
    let g = PointEllipticCurve::new(FiniteBody::new(p, 13), FiniteBody::new(p, 15), a, b).unwrap();
    let agreement = Agreement::new(p, a, b, g);

    for (alpha, beta) in [(2u64, 3u64), (3, 11), (5, 7)] {
        let pub_a = agreement.generate_public_key(alpha);
        let pub_b = agreement.generate_public_key(beta);
        let secret_a = agreement.generate_shared_secret(pub_b, alpha);
        let secret_b = agreement.generate_shared_secret(pub_a, beta);
        assert_eq!(secret_a, secret_b);
    }
}

#[test]
fn solvers_agree_on_small_instance() {
    // K = 5*G is recovered identically by both algorithms.
    let p = 223;
    let a = FiniteBody::new(p, 0);
    let b = FiniteBody::new(p, 7);
    let g = PointEllipticCurve::new(FiniteBody::new(p, 47), FiniteBody::new(p, 71), a, b).unwrap();
    let k_g = g.scalar_mul(5);

    let k1 = AlgorithmsDLP::brute_force(p, a, b, g, k_g);
    let k2 = AlgorithmsDLP::bsgs(p, a, b, g, k_g);
    assert_eq!(k1, 5);
    assert_eq!(k2, 5);
    assert_eq!(g.scalar_mul(k1 as u64), k_g);
}

#[test]
fn brute_force_reports_zero_when_exhausted() {
    // A target on a different curve is never reached, so the capped search
    // reports failure as zero.
    let p = 223;
    let a = FiniteBody::new(p, 0);
    let b = FiniteBody::new(p, 7);
    let b2 = FiniteBody::new(p, 5);
    let g = PointEllipticCurve::new(FiniteBody::new(p, 47), FiniteBody::new(p, 71), a, b).unwrap();
    let stranger = PointEllipticCurve::new_inf(a, b2);
    assert_eq!(AlgorithmsDLP::brute_force(p, a, b, g, stranger), 0);
}

#[test]
fn bsgs_reports_zero_outside_the_subgroup() {
    // A curve point outside the subgroup generated by G is never hit by a
    // giant-step probe, so the search reports zero.
    let p = 43;
    let a = FiniteBody::new(p, 0);
    let b = FiniteBody::new(p, 6);
    let g = PointEllipticCurve::new(FiniteBody::new(p, 13), FiniteBody::new(p, 15), a, b).unwrap();

    // collect the whole subgroup generated by g
    let inf = PointEllipticCurve::new_inf(a, b);
    let mut subgroup = vec![inf];
    let mut acc = g;
    while acc != inf {
        subgroup.push(acc);
        acc = acc.add(g).unwrap();
    }

    // find a curve point outside it
    let mut outsider = None;
    'outer: for x in 0..p {
        let x_val = FiniteBody::new(p, x);
        let y_squared = x_val.pow(3).add(a.mul(x_val)).add(b);
        for y in 0..p {
            let y_val = FiniteBody::new(p, y);
            if y_squared == y_val.pow(2) {
                let pt = PointEllipticCurve::new(x_val, y_val, a, b).unwrap();
                if !subgroup.contains(&pt) {
                    outsider = Some(pt);
                    break 'outer;
                }
            }
        }
    }

    if let Some(k_g) = outsider {
        assert_eq!(AlgorithmsDLP::bsgs(p, a, b, g, k_g), 0);
    }
}

#[test]
fn bsgs_concrete_instance_p1021() {
    // The scalar recovered for the reference instance also reproduces the
    // target point.
    let p = 1021;
    let a = FiniteBody::new(p, 905);
    let b = FiniteBody::new(p, 100);
    let g = PointEllipticCurve::new(FiniteBody::new(p, 1006), FiniteBody::new(p, 416), a, b)
        .unwrap();
    let k_g = PointEllipticCurve::new(FiniteBody::new(p, 612), FiniteBody::new(p, 827), a, b)
        .unwrap();

    let k = AlgorithmsDLP::bsgs(p, a, b, g, k_g);
    assert!(k > 0);
    assert_eq!(g.scalar_mul(k as u64), k_g);
}
