//! Fermat's little theorem for the residues of `FiniteBody`: over a prime
//! modulus, the Fermat power `v^(p-2) mod p` really is a multiplicative
//! inverse of `v`. The proof is the classical one: multiplying the nonzero
//! residues `1..p-1` by a fixed nonzero `v` permutes them, so the two
//! products agree modulo `p`, and cancelling the (invertible) factorial
//! leaves `v^(p-1) == 1`.

use crate::finite_body::{
    fermat_exp, inv_val, is_prime, lemma_bezout, lemma_euclid, lemma_neg_mod,
    lemma_prime_coprime,
};
use vstd::prelude::*;
use vstd::seq_lib::*;

verus! {

/// The fold operator of the modular product.
pub open spec fn mul_mod(p: int) -> spec_fn(int, int) -> int {
    |x: int, acc: int| (x * acc) % p
}

/// The residues `1, 2, ..., n` in order.
pub open spec fn ids(n: nat) -> Seq<int> {
    Seq::new(n, |i: int| i + 1)
}

/// The residues `v*1 mod p, v*2 mod p, ..., v*n mod p` in order.
pub open spec fn mapped(p: int, v: int, n: nat) -> Seq<int> {
    Seq::new(n, |i: int| (v * (i + 1)) % p)
}

/// The factorial of `n`, reduced modulo `p` after every multiplication.
pub open spec fn fact_mod(p: int, n: nat) -> int
    decreases n,
{
    if n == 0 {
        1int % p
    } else {
        (n * fact_mod(p, (n - 1) as nat)) % p
    }
}

/// The modular product operator commutes, so folds of it are invariant
/// under permutation.
proof fn lemma_mul_mod_commutative(p: int)
    requires
        p >= 1,
    ensures
        commutative_foldr(mul_mod(p)),
{
    let f = mul_mod(p);
    assert forall|x: int, y: int, acc: int| #[trigger] f(x, f(y, acc)) == f(y, f(x, acc)) by {
        vstd::arithmetic::div_mod::lemma_mul_mod_noop_right(x, y * acc, p);
        vstd::arithmetic::div_mod::lemma_mul_mod_noop_right(y, x * acc, p);
        assert(x * (y * acc) == y * (x * acc)) by (nonlinear_arith);
    }
}

/// Folding the modular product over `1..n` computes the modular factorial,
/// for any reduced accumulator.
proof fn lemma_ids_fold(p: int, n: nat, b: int)
    requires
        p >= 1,
        0 <= b < p,
    ensures
        ids(n).fold_right(mul_mod(p), b) == (fact_mod(p, n) * b) % p,
        0 <= ids(n).fold_right(mul_mod(p), b) < p,
    decreases n,
{
    let f = mul_mod(p);
    if n == 0 {
        assert(ids(0).fold_right(f, b) == b);
        assert(((1int % p) * b) % p == b) by {
            vstd::arithmetic::div_mod::lemma_mul_mod_noop_left(1, b, p);
            vstd::arithmetic::div_mod::lemma_small_mod(b as nat, p as nat);
        }
    } else {
        let prev = ids((n - 1) as nat);
        assert(ids(n).drop_last() =~= prev);
        assert(ids(n).last() == n);
        let b2 = f(n as int, b);
        assert(b2 == (n * b) % p);
        lemma_ids_fold(p, (n - 1) as nat, b2);
        let fp = fact_mod(p, (n - 1) as nat);
        assert((fp * ((n * b) % p)) % p == (fact_mod(p, n) * b) % p) by {
            vstd::arithmetic::div_mod::lemma_mul_mod_noop_right(fp, n * b, p);
            assert(fp * (n * b) == (n * fp) * b) by (nonlinear_arith);
            vstd::arithmetic::div_mod::lemma_mul_mod_noop_left(n * fp, b, p);
        }
    }
}

/// Folding the modular product over `v*1 mod p, ..., v*n mod p` computes
/// the power `v^n` times the modular factorial, for any reduced
/// accumulator.
proof fn lemma_mapped_fold(p: int, v: int, n: nat, b: int)
    requires
        p >= 1,
        0 <= b < p,
    ensures
        mapped(p, v, n).fold_right(mul_mod(p), b) == (vstd::arithmetic::power::pow(v, n)
            * fact_mod(p, n) * b) % p,
        0 <= mapped(p, v, n).fold_right(mul_mod(p), b) < p,
    decreases n,
{
    let f = mul_mod(p);
    if n == 0 {
        assert(mapped(p, v, 0).fold_right(f, b) == b);
        vstd::arithmetic::power::lemma_pow0(v);
        assert((1 * (1int % p) * b) % p == b) by {
            vstd::arithmetic::div_mod::lemma_mul_mod_noop_left(1, b, p);
            vstd::arithmetic::div_mod::lemma_small_mod(b as nat, p as nat);
        }
    } else {
        let prev = mapped(p, v, (n - 1) as nat);
        assert(mapped(p, v, n).drop_last() =~= prev);
        assert(mapped(p, v, n).last() == (v * (n as int)) % p);
        let b2 = f((v * (n as int)) % p, b);
        assert(b2 == (v * (n as int) * b) % p) by {
            vstd::arithmetic::div_mod::lemma_mul_mod_noop_left(v * (n as int), b, p);
        }
        lemma_mapped_fold(p, v, (n - 1) as nat, b2);
        let w = vstd::arithmetic::power::pow(v, (n - 1) as nat);
        let fp = fact_mod(p, (n - 1) as nat);
        assert(vstd::arithmetic::power::pow(v, n) == v * w) by {
            vstd::arithmetic::power::lemma_pow_adds(v, 1, (n - 1) as nat);
            vstd::arithmetic::power::lemma_pow1(v);
        }
        // (w*fp) * ((v*n*b) % p) == (v*w) * ((n*fp) % p) * b, modulo p
        let x = v * w;
        let y = (n as int) * fp;
        assert((w * fp * ((v * (n as int) * b) % p)) % p == ((x * y) * b) % p) by {
            vstd::arithmetic::div_mod::lemma_mul_mod_noop_right(w * fp, v * (n as int) * b, p);
            assert(w * fp * (v * (n as int) * b) == (x * y) * b) by (nonlinear_arith)
                requires
                    x == v * w,
                    y == (n as int) * fp,
            ;
        }
        assert((x * (y % p) * b) % p == ((x * y) * b) % p) by {
            assert(x * (y % p) * b == x * ((y % p) * b)) by (nonlinear_arith);
            vstd::arithmetic::div_mod::lemma_mul_mod_noop_right(x, (y % p) * b, p);
            vstd::arithmetic::div_mod::lemma_mul_mod_noop_left(y, b, p);
            vstd::arithmetic::div_mod::lemma_mul_mod_noop_right(x, y * b, p);
            assert(x * (y * b) == (x * y) * b) by (nonlinear_arith);
        }
    }
}

/// Congruent values have a vanishing difference.
proof fn lemma_mod_cancel(x: int, y: int, p: int)
    requires
        p >= 1,
        x % p == y % p,
    ensures
        (x - y) % p == 0,
{
    vstd::arithmetic::div_mod::lemma_sub_mod_noop(x, y, p);
    vstd::arithmetic::div_mod::lemma_small_mod(0nat, p as nat);
}

/// A nonzero residue below `p` stays nonzero modulo `p`, whether taken
/// positively or negatively.
proof fn lemma_small_nonzero_mod(d: int, p: int)
    requires
        p >= 1,
        -p < d < p,
        d != 0,
    ensures
        d % p != 0,
{
    if d > 0 {
        vstd::arithmetic::div_mod::lemma_small_mod(d as nat, p as nat);
    } else {
        lemma_neg_mod(d, p);
        vstd::arithmetic::div_mod::lemma_small_mod((-d) as nat, p as nat);
    }
}

/// A multiple of a nonzero residue by a unit stays nonzero modulo a prime.
proof fn lemma_mapped_nonzero(p: int, v: int, j: int)
    requires
        is_prime(p),
        1 <= v < p,
        1 <= j < p,
    ensures
        1 <= (v * j) % p < p,
{
    vstd::arithmetic::div_mod::lemma_mod_division_less_than_divisor(v * j, p);
    if (v * j) % p == 0 {
        lemma_prime_coprime(p as nat, v as nat);
        lemma_euclid(p as nat, v as nat, j);
        lemma_small_nonzero_mod(j, p);
    }
}

/// A ghost multiplicative inverse of a unit: some `w` in `[1, p)` with
/// `v*w == 1` modulo the prime `p`.
proof fn lemma_unit_inverse(p: int, v: int) -> (w: int)
    requires
        is_prime(p),
        1 <= v < p,
    ensures
        1 <= w < p,
        (v * w) % p == 1,
{
    lemma_prime_coprime(p as nat, v as nat);
    let (s, t) = lemma_bezout(v as nat, p as nat);
    let w = s % p;
    vstd::arithmetic::div_mod::lemma_mod_division_less_than_divisor(s, p);
    assert((v * w) % p == (v * s) % p) by {
        vstd::arithmetic::div_mod::lemma_mul_mod_noop_right(v, s, p);
    }
    assert((v * s) % p == 1int % p) by {
        assert(v * s == p * (-t) + 1) by (nonlinear_arith)
            requires
                s * v + t * p == 1,
        ;
        vstd::arithmetic::div_mod::lemma_mod_multiples_vanish(-t, 1, p);
    }
    vstd::arithmetic::div_mod::lemma_small_mod(1nat, p as nat);
    assert(w != 0) by {
        if w == 0 {
            assert(v * 0 == 0);
            vstd::arithmetic::div_mod::lemma_small_mod(0nat, p as nat);
        }
    }
    w
}

/// Multiplying the residues `1..p-1` by a unit produces pairwise distinct
/// residues.
proof fn lemma_mapped_no_duplicates(p: int, v: int)
    requires
        is_prime(p),
        1 <= v < p,
    ensures
        mapped(p, v, (p - 1) as nat).no_duplicates(),
{
    let n = (p - 1) as nat;
    let ms = mapped(p, v, n);
    assert forall|i: int, j: int|
        0 <= i < ms.len() && 0 <= j < ms.len() && i != j implies ms[i] != ms[j] by {
        if ms[i] == ms[j] {
            lemma_mod_cancel(v * (i + 1), v * (j + 1), p);
            assert(v * (i + 1) - v * (j + 1) == v * (i - j)) by (nonlinear_arith);
            lemma_prime_coprime(p as nat, v as nat);
            lemma_euclid(p as nat, v as nat, i - j);
            lemma_small_nonzero_mod(i - j, p);
        }
    }
}

/// The residues `v*1 mod p, ..., v*(p-1) mod p` are exactly the residues
/// `1..p-1`, as sets.
proof fn lemma_mapped_membership(p: int, v: int)
    requires
        is_prime(p),
        1 <= v < p,
    ensures
        forall|x: int|
            #[trigger] mapped(p, v, (p - 1) as nat).contains(x) <==> ids(
                (p - 1) as nat,
            ).contains(x),
{
    let n = (p - 1) as nat;
    let ms = mapped(p, v, n);
    let idseq = ids(n);
    assert forall|x: int| ms.contains(x) implies idseq.contains(x) by {
        let i = choose|i: int| 0 <= i < ms.len() && ms[i] == x;
        lemma_mapped_nonzero(p, v, i + 1);
        assert(idseq[x - 1] == x);
        assert(idseq.contains(x));
    }
    assert forall|x: int| idseq.contains(x) implies ms.contains(x) by {
        let i = choose|i: int| 0 <= i < idseq.len() && idseq[i] == x;
        assert(1 <= x < p);
        let w = lemma_unit_inverse(p, v);
        lemma_mapped_nonzero(p, w, x);
        let wx = (w * x) % p;
        let i0 = wx - 1;
        assert(ms[i0] == (v * wx) % p);
        assert((v * wx) % p == x) by {
            vstd::arithmetic::div_mod::lemma_mul_mod_noop_right(v, w * x, p);
            assert(v * (w * x) == (v * w) * x) by (nonlinear_arith);
            vstd::arithmetic::div_mod::lemma_mul_mod_noop_left(v * w, x, p);
            assert((1 * x) % p == x) by {
                vstd::arithmetic::div_mod::lemma_small_mod(x as nat, p as nat);
            }
        }
        assert(ms.contains(x));
    }
}

/// Multiplying the residues `1..p-1` by a unit permutes them: both
/// sequences carry the same multiset.
proof fn lemma_mapped_permutes(p: int, v: int)
    requires
        is_prime(p),
        1 <= v < p,
    ensures
        mapped(p, v, (p - 1) as nat).to_multiset() == ids((p - 1) as nat).to_multiset(),
{
    broadcast use vstd::seq_lib::group_to_multiset_ensures;

    let n = (p - 1) as nat;
    let ms = mapped(p, v, n);
    let idseq = ids(n);
    lemma_mapped_no_duplicates(p, v);
    assert(idseq.no_duplicates());
    ms.lemma_multiset_has_no_duplicates();
    idseq.lemma_multiset_has_no_duplicates();
    lemma_mapped_membership(p, v);
    assert forall|x: int| ms.to_multiset().count(x) == idseq.to_multiset().count(x) by {
        if ms.contains(x) {
            assert(idseq.contains(x));
            assert(ms.to_multiset().contains(x) && idseq.to_multiset().contains(x));
        } else {
            assert(!idseq.contains(x));
            assert(!ms.to_multiset().contains(x) && !idseq.to_multiset().contains(x));
        }
    }
    assert(ms.to_multiset() =~= idseq.to_multiset());
}

/// The modular factorial of fewer than `p` factors never vanishes modulo a
/// prime `p`, and stays in canonical range.
proof fn lemma_fact_mod_nonzero(p: int, n: nat)
    requires
        is_prime(p),
        n < p,
    ensures
        1 <= fact_mod(p, n) < p,
    decreases n,
{
    if n == 0 {
        vstd::arithmetic::div_mod::lemma_small_mod(1nat, p as nat);
    } else {
        lemma_fact_mod_nonzero(p, (n - 1) as nat);
        lemma_mapped_nonzero(p, n as int, fact_mod(p, (n - 1) as nat));
    }
}

/// Fermat's little theorem: over a prime modulus `p`, every nonzero
/// residue raised to the power `p - 1` is congruent to 1.
pub proof fn lemma_fermat_little(p: int, v: int)
    requires
        is_prime(p),
        1 <= v < p,
    ensures
        vstd::arithmetic::power::pow(v, (p - 1) as nat) % p == 1,
{
    let n = (p - 1) as nat;
    let f = mul_mod(p);
    vstd::arithmetic::div_mod::lemma_small_mod(1nat, p as nat);
    let b = 1int % p;
    lemma_mul_mod_commutative(p);
    lemma_mapped_permutes(p, v);
    lemma_fold_right_permutation(mapped(p, v, n), ids(n), f, b);
    lemma_ids_fold(p, n, b);
    lemma_mapped_fold(p, v, n, b);
    let fp = fact_mod(p, n);
    let a = vstd::arithmetic::power::pow(v, n);
    lemma_fact_mod_nonzero(p, n);
    // the two products are equal, so fp == (a * fp) % p
    assert((fp * 1) % p == fp) by {
        vstd::arithmetic::div_mod::lemma_small_mod(fp as nat, p as nat);
    }
    assert((a * fp * 1) % p == (a * fp) % p);
    // reduce the power before cancelling
    let a0 = a % p;
    vstd::arithmetic::div_mod::lemma_mod_division_less_than_divisor(a, p);
    assert((a0 * fp) % p == (a * fp) % p) by {
        vstd::arithmetic::div_mod::lemma_mul_mod_noop_left(a, fp, p);
    }
    // fp * (a0 - 1) vanishes modulo p, and fp is a unit, so a0 == 1
    lemma_mod_cancel(a0 * fp, fp, p);
    assert(a0 * fp - fp == fp * (a0 - 1)) by (nonlinear_arith);
    lemma_prime_coprime(p as nat, fp as nat);
    lemma_euclid(p as nat, fp as nat, a0 - 1);
    if a0 != 1 {
        lemma_small_nonzero_mod(a0 - 1, p);
    }
}

/// Law: over a prime field, a nonzero element multiplied by its Fermat
/// inverse `v^(p-2) mod p` yields the unit element, so `inverse` followed
/// by `mul` returns 1.
pub proof fn lemma_fermat_inverse(p: int, v: int)
    requires
        is_prime(p),
        1 <= v < p,
    ensures
        (v * inv_val(p, v)) % p == 1,
{
    lemma_fermat_little(p, v);
    let w = vstd::arithmetic::power::pow(v, (p - 2) as nat);
    assert(fermat_exp(p) == (p - 2) as nat);
    assert(vstd::arithmetic::power::pow(v, (p - 1) as nat) == v * w) by {
        vstd::arithmetic::power::lemma_pow_adds(v, 1, (p - 2) as nat);
        vstd::arithmetic::power::lemma_pow1(v);
    }
    assert((v * (w % p)) % p == (v * w) % p) by {
        vstd::arithmetic::div_mod::lemma_mul_mod_noop_right(v, w, p);
    }
}

} // verus!
