//! Two discrete-logarithm solvers for small curves: exhaustive search over
//! successive multiples of the generator, and a baby-step/giant-step
//! meet-in-the-middle search with a lookup table of the first `ceil(sqrt(p))`
//! multiples.

use crate::finite_body::{FiniteBody, MAX_MODULUS};
use crate::point_elliptic_curve::PointEllipticCurve;
use std::collections::HashMap;
use vstd::prelude::*;

verus! {

/// Namespace for the discrete-logarithm algorithms.
pub struct AlgorithmsDLP;

/// The smallest non-negative integer whose square reaches `p`, found by
/// counting up from `m`.
pub open spec fn ceil_sqrt_from(p: int, m: int) -> int
    recommends
        0 <= m,
    decreases (if m * m < p {
        p - m * m
    } else {
        0int
    }),
        when 0 <= m via ceil_sqrt_from_decreases
{
    if m * m >= p {
        m
    } else {
        ceil_sqrt_from(p, m + 1)
    }
}

#[via_fn]
proof fn ceil_sqrt_from_decreases(p: int, m: int) {
    if m * m < p {
        assert(m * m < (m + 1) * (m + 1)) by (nonlinear_arith)
            requires
                m >= 0,
        ;
    }
}

/// Counting up by one strictly shrinks the clamped distance to the root.
proof fn lemma_ceil_sqrt_measure(p: int, m: int)
    requires
        0 <= m,
        m * m < p,
    ensures
        (if (m + 1) * (m + 1) < p {
            p - (m + 1) * (m + 1)
        } else {
            0int
        }) < p - m * m,
{
    assert(m * m < (m + 1) * (m + 1)) by (nonlinear_arith)
        requires
            m >= 0,
    ;
}

/// The block size used by the baby-step/giant-step search:
/// the ceiling of the square root of `p`.
pub open spec fn ceil_sqrt(p: int) -> int {
    ceil_sqrt_from(p, 0)
}

/// The point that baby step `bi` stores in the lookup table: the table is
/// filled from an accumulator that starts at infinity and is only then
/// advanced to `bi` times the generator, so step 0 stores infinity and step
/// `bi` stores `(bi - 1)` times the generator.
pub open spec fn baby_point(g: PointEllipticCurve, bi: nat) -> Option<PointEllipticCurve> {
    if bi == 0 {
        Some(PointEllipticCurve::spec_inf(g.a, g.b))
    } else {
        g.spec_scalar_mul((bi - 1) as nat)
    }
}

/// The index the lookup table finally associates with point `pt`: the
/// largest baby step below `m` that stored `pt` (later steps overwrite
/// earlier ones).
pub open spec fn baby_slot(g: PointEllipticCurve, m: nat, pt: PointEllipticCurve) -> Option<int>
    decreases m,
{
    if m == 0 {
        None
    } else if baby_point(g, (m - 1) as nat) == Some(pt) {
        Some(m - 1)
    } else {
        baby_slot(g, (m - 1) as nat, pt)
    }
}

/// The probe point of giant step `ai`: the target point plus the negation
/// of `ai * m` times the generator, when every step of that computation is
/// defined.
pub open spec fn giant_point(
    g: PointEllipticCurve,
    k_g: PointEllipticCurve,
    ai: nat,
    m: nat,
) -> Option<PointEllipticCurve> {
    match g.spec_scalar_mul(ai * m) {
        Option::None => None,
        Option::Some(q) => match q.spec_neg() {
            Option::None => None,
            Option::Some(nq) => if k_g.add_div_ok(nq) {
                k_g.spec_add(nq)
            } else {
                None
            },
        },
    }
}

/// The first giant step at or after `i` whose probe point is in the lookup
/// table, if any.
pub open spec fn first_hit_from(
    g: PointEllipticCurve,
    k_g: PointEllipticCurve,
    m: nat,
    i: nat,
) -> Option<nat>
    decreases m - i,
{
    if i >= m {
        None
    } else {
        let gp = giant_point(g, k_g, i, m);
        if gp is Some && baby_slot(g, m, gp.unwrap()) is Some {
            Some(i)
        } else {
            first_hit_from(g, k_g, m, (i + 1) as nat)
        }
    }
}

/// One lookup-table entry is faithful: the table holds the encoding of `pt`
/// exactly when some baby step below `bound` stored `pt`, and it then maps
/// that encoding to the last such step.
pub open spec fn table_entry_ok(
    tbl: Map<u64, i64>,
    g: PointEllipticCurve,
    p: int,
    bound: nat,
    pt: PointEllipticCurve,
) -> bool {
    &&& (tbl.contains_key(spec_encode(pt, p) as u64) <==> baby_slot(g, bound, pt) is Some)
    &&& (baby_slot(g, bound, pt) is Some ==> tbl[spec_encode(pt, p) as u64] == baby_slot(
        g,
        bound,
        pt,
    ).unwrap())
}

/// The lookup table faithfully models the first `bound` baby steps, for
/// every point of the generator's curve.
pub open spec fn table_models(tbl: Map<u64, i64>, g: PointEllipticCurve, p: int, bound: nat) -> bool {
    forall|pt: PointEllipticCurve|
        pt.wf() && pt.a == g.a && pt.b == g.b ==> #[trigger] table_entry_ok(tbl, g, p, bound, pt)
}

/// An injective encoding of curve points over modulus `p` as integers:
/// a finite point maps to `x * p + y`, infinity to `p * p`.
pub open spec fn spec_encode(pt: PointEllipticCurve, p: int) -> int {
    if pt.is_inf() {
        p * p
    } else {
        pt.x.unwrap().value * p + pt.y.unwrap().value
    }
}

/// Computes the integer encoding of a point for use as a lookup-table key.
fn encode_point(pt: &PointEllipticCurve, p: i64) -> (r: u64)
    requires
        pt.wf(),
        pt.a.p == p,
        1 <= p <= MAX_MODULUS,
    ensures
        r == spec_encode(*pt, p as int),
{
    proof {
        assert(p * p <= MAX_MODULUS * MAX_MODULUS) by (nonlinear_arith)
            requires
                1 <= p <= MAX_MODULUS,
        ;
    }
    if pt.x.is_none() {
        (p as u64) * (p as u64)
    } else {
        let x = pt.x.unwrap();
        let y = pt.y.unwrap();
        proof {
            assert(0 <= x.value * p && x.value * p + y.value < p * p) by (nonlinear_arith)
                requires
                    0 <= x.value < p,
                    0 <= y.value < p,
                    1 <= p,
            ;
        }
        (x.value as u64) * (p as u64) + (y.value as u64)
    }
}

/// The encoding of a well-formed point lies between 0 and `p * p`, which
/// fits comfortably in 64 bits.
proof fn lemma_encode_range(pt: PointEllipticCurve, p: int)
    requires
        pt.wf(),
        pt.a.p == p,
        p <= MAX_MODULUS,
    ensures
        0 <= spec_encode(pt, p) <= p * p,
        spec_encode(pt, p) <= 0x4000_0000_0000_0000,
{
    assert(p * p <= 0x4000_0000_0000_0000) by (nonlinear_arith)
        requires
            1 <= p <= MAX_MODULUS,
            MAX_MODULUS == 0x8000_0000,
    ;
    if !pt.is_inf() {
        let x = pt.x.unwrap().value as int;
        let y = pt.y.unwrap().value as int;
        assert(0 <= x * p + y < p * p) by (nonlinear_arith)
            requires
                0 <= x < p,
                0 <= y < p,
                1 <= p,
        ;
    } else {
        assert(0 <= p * p) by (nonlinear_arith)
            requires
                1 <= p,
        ;
    }
}

/// The encoding separates distinct well-formed points of one curve.
proof fn lemma_encode_injective(p1: PointEllipticCurve, p2: PointEllipticCurve, p: int)
    requires
        p1.wf(),
        p2.wf(),
        p1.a.p == p,
        p2.a.p == p,
        p1.a == p2.a,
        p1.b == p2.b,
        spec_encode(p1, p) == spec_encode(p2, p),
    ensures
        p1 == p2,
{
    if p1.is_inf() && p2.is_inf() {
    } else if !p1.is_inf() && !p2.is_inf() {
        let x1 = p1.x.unwrap().value as int;
        let y1 = p1.y.unwrap().value as int;
        let x2 = p2.x.unwrap().value as int;
        let y2 = p2.y.unwrap().value as int;
        assert(x1 == x2 && y1 == y2) by (nonlinear_arith)
            requires
                0 <= x1 < p,
                0 <= y1 < p,
                0 <= x2 < p,
                0 <= y2 < p,
                x1 * p + y1 == x2 * p + y2,
        ;
    } else {
        let fin = if p1.is_inf() {
            p2
        } else {
            p1
        };
        let x = fin.x.unwrap().value as int;
        let y = fin.y.unwrap().value as int;
        assert(x * p + y != p * p) by (nonlinear_arith)
            requires
                0 <= x < p,
                0 <= y < p,
                1 <= p,
        ;
    }
}

/// A found slot index always lies below the table size.
proof fn lemma_baby_slot_range(g: PointEllipticCurve, m: nat, pt: PointEllipticCurve)
    requires
        baby_slot(g, m, pt) is Some,
    ensures
        0 <= baby_slot(g, m, pt).unwrap() < m,
    decreases m,
{
    if m > 0 && baby_point(g, (m - 1) as nat) != Some(pt) {
        lemma_baby_slot_range(g, (m - 1) as nat, pt);
    }
}

/// Computes the ceiling of the square root of `p` by counting up.
fn exec_ceil_sqrt(p: i64) -> (m: i64)
    requires
        1 <= p <= MAX_MODULUS,
    ensures
        1 <= m <= 46341,
        m * m >= p,
        m as int == ceil_sqrt(p as int),
{
    let mut m: i64 = 0;
    while m * m < p
        invariant
            0 <= m <= 46341,
            m * m <= 2147558281,
            1 <= p <= MAX_MODULUS,
            ceil_sqrt(p as int) == ceil_sqrt_from(p as int, m as int),
        decreases (if m * m < p {
            p - m * m
        } else {
            0int
        }),
    {
        proof {
            assert(m < 46341 && m * m < (m + 1) * (m + 1) && (m + 1) * (m + 1) <= 2147558281)
                by (nonlinear_arith)
                requires
                    0 <= m,
                    m * m < p,
                    p <= MAX_MODULUS,
                    MAX_MODULUS == 0x8000_0000,
            ;
            lemma_ceil_sqrt_measure(p as int, m as int);
            assert(ceil_sqrt_from(p as int, m as int) == ceil_sqrt_from(p as int, m as int + 1));
        }
        m = m + 1;
    }
    m
}

impl AlgorithmsDLP {
    /// Baby-step/giant-step search for the scalar `k` with `k * g == k_g`:
    /// tabulates the first `m = ceil(sqrt(p))` multiples of the generator,
    /// then probes `k_g - ai*m*g` against the table for each `ai` below `m`
    /// and stops at the first hit, combining the two indices into the
    /// candidate scalar. Returns 0 when no probe hits the table.
    #[verifier::loop_isolation(false)]
    #[verifier::rlimit(100)]
    pub fn bsgs(
        p: i64,
        a: FiniteBody,
        b: FiniteBody,
        g: PointEllipticCurve,
        k_g: PointEllipticCurve,
    ) -> (r: i64)
        requires
            1 <= p <= MAX_MODULUS,
            a.wf(),
            b.wf(),
            a == g.a,
            b == g.b,
            a.p == p,
            g.wf(),
            k_g.wf(),
            forall|bi: nat| bi < ceil_sqrt(p as int) ==> (#[trigger] g.spec_scalar_mul(bi))
                is Some,
            forall|ai: nat|
                ai < ceil_sqrt(p as int) ==> (#[trigger] giant_point(
                    g,
                    k_g,
                    ai,
                    ceil_sqrt(p as int) as nat,
                )) is Some,
        ensures
            ({
                let m = ceil_sqrt(p as int) as nat;
                match first_hit_from(g, k_g, m, 0) {
                    Option::Some(hai) => r == hai * m + baby_slot(
                        g,
                        m,
                        giant_point(g, k_g, hai, m).unwrap(),
                    ).unwrap() - 1,
                    Option::None => r == 0,
                }
            }),
    {
        let m = exec_ceil_sqrt(p);
        let ghost pi = p as int;
        let ghost mn = m as nat;
        let mut baby_steps: HashMap<u64, i64> = HashMap::new();
        let mut res = PointEllipticCurve::new_inf(a, b);
        let mut bi: i64 = 0;
        proof {
            assert forall|pt: PointEllipticCurve|
                pt.wf() && pt.a == g.a && pt.b == g.b implies #[trigger] table_entry_ok(
                baby_steps@,
                g,
                pi,
                0,
                pt,
            ) by {
                lemma_encode_range(pt, pi);
                assert(!baby_steps@.contains_key(spec_encode(pt, pi) as u64));
            }
        }
        while bi < m
            invariant
                0 <= bi <= m,
                Some(res) == baby_point(g, bi as nat),
                res.wf(),
                res.a == g.a,
                res.b == g.b,
                table_models(baby_steps@, g, pi, bi as nat),
            decreases m - bi,
        {
            let ghost old_tbl = baby_steps@;
            let code = encode_point(&res, p);
            baby_steps.insert(code, bi);
            proof {
                lemma_encode_range(res, pi);
                assert(baby_steps@ == old_tbl.insert(code, bi));
                assert forall|pt: PointEllipticCurve|
                    pt.wf() && pt.a == g.a && pt.b == g.b implies #[trigger] table_entry_ok(
                    baby_steps@,
                    g,
                    pi,
                    (bi + 1) as nat,
                    pt,
                ) by {
                    assert(table_entry_ok(old_tbl, g, pi, bi as nat, pt));
                    lemma_encode_range(pt, pi);
                    assert(baby_slot(g, (bi + 1) as nat, pt) == (if baby_point(g, bi as nat)
                        == Some(pt) {
                        Some(bi as int)
                    } else {
                        baby_slot(g, bi as nat, pt)
                    }));
                    if spec_encode(pt, pi) == spec_encode(res, pi) {
                        lemma_encode_injective(pt, res, pi);
                        assert(pt == res);
                        assert(baby_point(g, bi as nat) == Some(pt));
                        assert(baby_steps@.contains_key(spec_encode(pt, pi) as u64));
                        assert(baby_steps@[spec_encode(pt, pi) as u64] == bi);
                    } else {
                        assert(spec_encode(pt, pi) as u64 != code);
                        assert(baby_steps@.contains_key(spec_encode(pt, pi) as u64)
                            <==> old_tbl.contains_key(spec_encode(pt, pi) as u64));
                        assert(baby_point(g, bi as nat) != Some(pt));
                    }
                }
            }
            res = g.scalar_mul(bi as u64);
            bi = bi + 1;
        }
        let mut k: i64 = 0;
        let mut ai: i64 = 0;
        let mut found = false;
        while ai < m && !found
            invariant
                0 <= ai <= m,
                table_models(baby_steps@, g, pi, mn),
                !found ==> k == 0,
                !found ==> first_hit_from(g, k_g, mn, 0) == first_hit_from(g, k_g, mn, ai as nat),
                found ==> {
                    &&& first_hit_from(g, k_g, mn, 0) is Some
                    &&& k == first_hit_from(g, k_g, mn, 0).unwrap() * mn + baby_slot(
                        g,
                        mn,
                        giant_point(g, k_g, first_hit_from(g, k_g, mn, 0).unwrap(), mn).unwrap(),
                    ).unwrap() - 1
                },
            decreases 2 * (m - ai) + (if found {
                0int
            } else {
                1int
            }),
        {
            proof {
                assert(0 <= ai * m <= 46341 * 46341) by (nonlinear_arith)
                    requires
                        0 <= ai < m <= 46341,
                ;
            }
            let idx = ai * m;
            let ghost gpt = giant_point(g, k_g, ai as nat, mn);
            proof {
                assert(gpt is Some);
                assert((ai as nat) * mn == idx as nat);
            }
            let gm = g.scalar_mul(idx as u64);
            proof {
                crate::point_elliptic_curve::lemma_scalar_chain_wf(g, idx as nat);
            }
            let ngm = gm.neg().unwrap();
            let gres = k_g.add(ngm).unwrap();
            proof {
                assert(Some(gres) == gpt);
                crate::point_elliptic_curve::lemma_spec_add_wf(k_g, ngm);
                assert(gres.a == g.a && gres.b == g.b);
                assert(table_entry_ok(baby_steps@, g, pi, mn, gres));
            }
            let code = encode_point(&gres, p);
            if baby_steps.contains_key(&code) {
                let slot = *baby_steps.get(&code).unwrap();
                proof {
                    lemma_baby_slot_range(g, mn, gres);
                    assert(first_hit_from(g, k_g, mn, ai as nat) == Some(ai as nat));
                }
                k = ai * m + slot - 1;
                found = true;
            } else {
                proof {
                    assert(baby_slot(g, mn, gres) is None);
                    assert(first_hit_from(g, k_g, mn, ai as nat) == first_hit_from(
                        g,
                        k_g,
                        mn,
                        (ai + 1) as nat,
                    ));
                }
                ai = ai + 1;
            }
        }
        proof {
            if !found {
                assert(first_hit_from(g, k_g, mn, mn) is None);
            }
        }
        k
    }

    /// Recovers the scalar `k` with `k * g == k_g` by trying every scalar
    /// from 1 up to the field size. Returns the least solution in that
    /// range, or 0 when the range holds none.
    pub fn brute_force(
        p: i64,
        a: FiniteBody,
        b: FiniteBody,
        g: PointEllipticCurve,
        k_g: PointEllipticCurve,
    ) -> (r: i64)
        requires
            1 <= p <= MAX_MODULUS,
            g.wf(),
            forall|k: nat| 1 <= k <= p ==> (#[trigger] g.spec_scalar_mul(k)) is Some,
        ensures
            r != 0 ==> {
                &&& 1 <= r <= p
                &&& g.spec_scalar_mul(r as nat) == Some(k_g)
                &&& forall|j: nat| 1 <= j < r ==> g.spec_scalar_mul(j) != Some(k_g)
            },
            r == 0 ==> forall|j: nat| 1 <= j <= p ==> g.spec_scalar_mul(j) != Some(k_g),
    {
        let mut found: i64 = 0;
        let mut k: i64 = 0;
        while k < p
            invariant_except_break
                0 <= k <= p,
                1 <= p <= MAX_MODULUS,
                g.wf(),
                forall|j: nat| 1 <= j <= p ==> (#[trigger] g.spec_scalar_mul(j)) is Some,
                found == 0,
                forall|j: nat| 1 <= j <= k ==> g.spec_scalar_mul(j) != Some(k_g),
            ensures
                found != 0 ==> {
                    &&& 1 <= found <= p
                    &&& g.spec_scalar_mul(found as nat) == Some(k_g)
                    &&& forall|j: nat| 1 <= j < found ==> g.spec_scalar_mul(j) != Some(k_g)
                },
                found == 0 ==> forall|j: nat|
                    1 <= j <= p ==> g.spec_scalar_mul(j) != Some(k_g),
            decreases p - k,
        {
            k = k + 1;
            let res = g.scalar_mul(k as u64);
            if res == k_g {
                found = k;
                break ;
            }
        }
        found
    }
}

} // verus!
