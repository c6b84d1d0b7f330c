//! Reconstruction is linear in the available values: for a fixed pattern of
//! empty positions, reconstructing `a u + b v` gives `a` times the
//! reconstruction of `u` plus `b` times that of `v`.

use vstd::prelude::*;
use vstd::arithmetic::div_mod::{lemma_add_mod_noop, lemma_mul_mod_noop_left, lemma_mul_mod_noop_right};
use crate::field::{Scalar, fe, modulus};
use crate::domain::Domain;
use crate::poly::{power, peval, trunc, dft, idft, scale_powers, lemma_fe_twice};
use crate::algebra::{lemma_fsum_cong, lemma_fsum_add, lemma_fsum_scale, lemma_fsum_ext};
use crate::recovery::{
    missing_positions, zero_evals, coset_zero_evals, evals_with_zero, poly_with_zero,
    coset_evals_with_zero, coset_quotient, field_inverse, reconstructed,
};

verus! {

broadcast use crate::field::lemma_fe_bound;

/// `a u + b v`, entry by entry, modulo `q`.
pub open spec fn lincomb(a: int, u: Seq<int>, b: int, v: Seq<int>) -> Seq<int> {
    Seq::new(u.len(), |i: int| fe(a * u[i] + b * v[i]))
}

/// Multiplying a value congruent to `a U + b V` by `c`.
proof fn lemma_fe_lin(a: int, b: int, uu: int, vv: int, p: int, c: int)
    requires
        fe(p) == fe(a * uu + b * vv),
    ensures
        fe(c * p) == fe(a * fe(c * uu) + b * fe(c * vv)),
{
    let q = modulus();
    lemma_mul_mod_noop_right(c, p, q);
    lemma_mul_mod_noop_right(c, a * uu + b * vv, q);
    assert(c * (a * uu + b * vv) == a * (c * uu) + b * (c * vv)) by (nonlinear_arith);
    lemma_add_mod_noop(a * (c * uu), b * (c * vv), q);
    lemma_mul_mod_noop_right(a, c * uu, q);
    lemma_mul_mod_noop_right(b, c * vv, q);
    lemma_add_mod_noop(a * fe(c * uu), b * fe(c * vv), q);
}

/// Evaluation is linear in the coefficients.
proof fn lemma_peval_lincomb(a: int, u: Seq<int>, b: int, v: Seq<int>, x: int)
    requires
        u.len() == v.len(),
    ensures
        fe(peval(lincomb(a, u, b, v), x)) == fe(a * peval(u, x) + b * peval(v, x)),
{
    let n = u.len();
    let w = lincomb(a, u, b, v);
    let fw = |k: int| w[k] * power(x, k as nat);
    let fu = |k: int| u[k] * power(x, k as nat);
    let fv = |k: int| v[k] * power(x, k as nat);
    let fa = |k: int| a * fu(k);
    let fb = |k: int| b * fv(k);
    let g = |k: int| fa(k) + fb(k);
    assert forall|k: int| 0 <= k < n implies fe(#[trigger] fw(k)) == fe(g(k)) by {
        let p = power(x, k as nat);
        lemma_mul_mod_noop_left(a * u[k] + b * v[k], p, modulus());
        assert((a * u[k] + b * v[k]) * p == a * (u[k] * p) + b * (v[k] * p)) by (nonlinear_arith);
    }
    lemma_fsum_cong(n, fw, g);
    lemma_fsum_add(n, fa, fb);
    lemma_fsum_ext(n, g, |i: int| fa(i) + fb(i));
    lemma_fsum_scale(n, a, fu);
    lemma_fsum_ext(n, fa, |i: int| a * fu(i));
    lemma_fsum_scale(n, b, fv);
    lemma_fsum_ext(n, fb, |i: int| b * fv(i));
}

/// Cutting commutes with the combination.
proof fn lemma_trunc_lincomb(a: int, u: Seq<int>, b: int, v: Seq<int>, n: nat)
    requires
        u.len() == v.len(),
    ensures
        trunc(lincomb(a, u, b, v), n) == lincomb(a, trunc(u, n), b, trunc(v, n)),
{
    assert(trunc(lincomb(a, u, b, v), n) =~= lincomb(a, trunc(u, n), b, trunc(v, n)));
}

/// The transform is linear.
proof fn lemma_dft_lincomb(a: int, u: Seq<int>, b: int, v: Seq<int>, w: int, n: nat)
    requires
        u.len() == v.len(),
    ensures
        dft(lincomb(a, u, b, v), w, n) == lincomb(a, dft(u, w, n), b, dft(v, w, n)),
{
    lemma_trunc_lincomb(a, u, b, v, n);
    let lhs = dft(lincomb(a, u, b, v), w, n);
    let rhs = lincomb(a, dft(u, w, n), b, dft(v, w, n));
    assert forall|i: int| 0 <= i < n implies #[trigger] lhs[i] == rhs[i] by {
        let x = power(w, i as nat);
        let tu = trunc(u, n);
        let tv = trunc(v, n);
        lemma_peval_lincomb(a, tu, b, tv, x);
        let p = peval(lincomb(a, tu, b, tv), x);
        lemma_fe_lin(a, b, peval(tu, x), peval(tv, x), p, 1);
    }
    assert(lhs =~= rhs);
}

/// The inverse transform is linear.
proof fn lemma_idft_lincomb(a: int, u: Seq<int>, b: int, v: Seq<int>, wi: int, ni: int, n: nat)
    requires
        u.len() == v.len(),
    ensures
        idft(lincomb(a, u, b, v), wi, ni, n) == lincomb(a, idft(u, wi, ni, n), b, idft(v, wi, ni, n)),
{
    lemma_trunc_lincomb(a, u, b, v, n);
    let lhs = idft(lincomb(a, u, b, v), wi, ni, n);
    let rhs = lincomb(a, idft(u, wi, ni, n), b, idft(v, wi, ni, n));
    assert forall|j: int| 0 <= j < n implies #[trigger] lhs[j] == rhs[j] by {
        let x = power(wi, j as nat);
        let tu = trunc(u, n);
        let tv = trunc(v, n);
        lemma_peval_lincomb(a, tu, b, tv, x);
        let p = peval(lincomb(a, tu, b, tv), x);
        lemma_fe_lin(a, b, peval(tu, x), peval(tv, x), p, ni);
    }
    assert(lhs =~= rhs);
}

/// Scaling by powers is linear.
proof fn lemma_scale_lincomb(a: int, u: Seq<int>, b: int, v: Seq<int>, s: int)
    requires
        u.len() == v.len(),
    ensures
        scale_powers(lincomb(a, u, b, v), s) == lincomb(a, scale_powers(u, s), b, scale_powers(v, s)),
{
    let lhs = scale_powers(lincomb(a, u, b, v), s);
    let rhs = lincomb(a, scale_powers(u, s), b, scale_powers(v, s));
    assert forall|i: int| 0 <= i < u.len() implies #[trigger] lhs[i] == rhs[i] by {
        let c = power(s, i as nat);
        let p = lincomb(a, u, b, v)[i];
        lemma_fe_twice(a * u[i] + b * v[i]);
        lemma_fe_lin(a, b, u[i], v[i], p, c);
        assert(p * c == c * p) by (nonlinear_arith);
        assert(u[i] * c == c * u[i]) by (nonlinear_arith);
        assert(v[i] * c == c * v[i]) by (nonlinear_arith);
    }
    assert(lhs =~= rhs);
}

/// Subsets with the same empty positions have the same list of them.
proof fn lemma_same_pattern(s1: Seq<Option<Scalar>>, s2: Seq<Option<Scalar>>)
    requires
        s1.len() == s2.len(),
        forall|i: int| 0 <= i < s1.len() ==> (#[trigger] s1[i] is None <==> s2[i] is None),
    ensures
        missing_positions(s1) == missing_positions(s2),
    decreases s1.len(),
{
    if s1.len() > 0 {
        let r1 = s1.drop_last();
        let r2 = s2.drop_last();
        assert forall|i: int| 0 <= i < r1.len() implies (#[trigger] r1[i] is None <==> r2[i] is None) by {
            assert(r1[i] == s1[i] && r2[i] == s2[i]);
        }
        lemma_same_pattern(r1, r2);
        assert(s1[s1.len() - 1] is None <==> s2[s2.len() - 1] is None);
    }
}

/// Linearity of reconstruction: for three subsets with the same empty
/// positions, where each available value of the third is `a` times that of
/// the first plus `b` times that of the second, the reconstruction of the
/// third is `a` times that of the first plus `b` times that of the second,
/// modulo `q`.
pub proof fn lemma_reconstruction_linear(
    d: Domain,
    s1: Seq<Option<Scalar>>,
    s2: Seq<Option<Scalar>>,
    s3: Seq<Option<Scalar>>,
    a: int,
    b: int,
)
    requires
        s1.len() == s2.len(),
        s1.len() == s3.len(),
        forall|i: int|
            0 <= i < s1.len() ==> (#[trigger] s1[i] is None <==> s2[i] is None) && (s1[i] is None
                <==> s3[i] is None),
        forall|i: int|
            0 <= i < s1.len() && #[trigger] s3[i] is Some ==> s3[i]->0.value() == fe(
                a * s1[i]->0.value() + b * s2[i]->0.value(),
            ),
    ensures
        reconstructed(d, s3) == lincomb(a, reconstructed(d, s1), b, reconstructed(d, s2)),
{
    let n = d.spec_size();
    lemma_same_pattern(s1, s2);
    lemma_same_pattern(s1, s3);
    let z = zero_evals(d, s1);
    assert(zero_evals(d, s2) == z);
    assert(zero_evals(d, s3) == z);
    let cz = coset_zero_evals(d, s1);
    assert(coset_zero_evals(d, s2) == cz);
    assert(coset_zero_evals(d, s3) == cz);
    // the available values times the zero polynomial's evaluations
    let e1 = evals_with_zero(d, s1);
    let e2 = evals_with_zero(d, s2);
    let e3 = evals_with_zero(d, s3);
    assert forall|i: int| 0 <= i < s1.len() implies #[trigger] e3[i] == lincomb(a, e1, b, e2)[i] by {
        if s3[i] is Some {
            let v1 = s1[i]->0.value();
            let v2 = s2[i]->0.value();
            let v3 = s3[i]->0.value();
            lemma_fe_twice(a * v1 + b * v2);
            lemma_fe_lin(a, b, v1, v2, v3, z[i]);
            assert(v3 * z[i] == z[i] * v3) by (nonlinear_arith);
            assert(v1 * z[i] == z[i] * v1) by (nonlinear_arith);
            assert(v2 * z[i] == z[i] * v2) by (nonlinear_arith);
        } else {
            assert(fe(a * 0 + b * 0) == 0);
        }
    }
    assert(e3 =~= lincomb(a, e1, b, e2));
    // through the inverse transform, the shift and the transform
    let wi = d.spec_gen_inv();
    let ni = d.spec_size_inv();
    let g = d.spec_gen();
    lemma_idft_lincomb(a, e1, b, e2, wi, ni, n);
    let p1 = poly_with_zero(d, s1);
    let p2 = poly_with_zero(d, s2);
    lemma_scale_lincomb(a, p1, b, p2, crate::recovery::five_inv());
    lemma_dft_lincomb(
        a,
        scale_powers(p1, crate::recovery::five_inv()),
        b,
        scale_powers(p2, crate::recovery::five_inv()),
        g,
        n,
    );
    // the division by the zero polynomial's values on the coset
    let c1 = coset_evals_with_zero(d, s1);
    let c2 = coset_evals_with_zero(d, s2);
    let q3 = coset_quotient(d, s3);
    let lq = lincomb(a, coset_quotient(d, s1), b, coset_quotient(d, s2));
    assert forall|i: int| 0 <= i < n implies #[trigger] q3[i] == lq[i] by {
        let inv = field_inverse(cz[i]);
        let p = coset_evals_with_zero(d, s3)[i];
        lemma_fe_twice(a * c1[i] + b * c2[i]);
        lemma_fe_lin(a, b, c1[i], c2[i], p, inv);
        assert(p * inv == inv * p) by (nonlinear_arith);
        assert(c1[i] * inv == inv * c1[i]) by (nonlinear_arith);
        assert(c2[i] * inv == inv * c2[i]) by (nonlinear_arith);
    }
    assert(q3 =~= lq);
    // back from the coset
    let b1 = idft(coset_quotient(d, s1), wi, ni, n);
    let b2 = idft(coset_quotient(d, s2), wi, ni, n);
    lemma_idft_lincomb(a, coset_quotient(d, s1), b, coset_quotient(d, s2), wi, ni, n);
    lemma_scale_lincomb(a, b1, b, b2, 5);
    lemma_dft_lincomb(a, scale_powers(b1, 5), b, scale_powers(b2, 5), g, n);
}

} // verus!
