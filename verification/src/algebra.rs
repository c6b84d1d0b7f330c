//! Facts about finite sums, powers and polynomial evaluation, over the
//! integers and modulo `q`.

use vstd::prelude::*;
use crate::field::{fe, modulus};
use vstd::arithmetic::div_mod::{lemma_mul_mod_noop_left, lemma_mul_mod_noop_right, lemma_small_mod};
use vstd::arithmetic::mul::lemma_mul_is_associative;
use crate::poly::{
    fsum, power, peval, pad, trunc, reduce, scale_powers, mul_linear, poly_from_roots, dft, idft,
    lemma_fe_add, lemma_fe_mul, lemma_fe_twice,
};

verus! {

broadcast use crate::field::lemma_fe_bound;

/// Modulo `q`, an element has at most one inverse.
pub proof fn lemma_inverse_unique(a: int, y: int, z: int)
    requires
        0 <= y < modulus(),
        0 <= z < modulus(),
        fe(a * y) == 1,
        fe(a * z) == 1,
    ensures
        y == z,
{
    let q = modulus();
    // y = y (a z) = (y a) z = z, modulo q
    lemma_mul_mod_noop_right(y, a * z, q);
    lemma_mul_mod_noop_left(y * a, z, q);
    lemma_mul_is_associative(y, a, z);
    assert(a * y == y * a) by (nonlinear_arith);
    lemma_small_mod(y as nat, q as nat);
    lemma_small_mod(z as nat, q as nat);
}

/// Sums of functions that agree on the range agree.
pub proof fn lemma_fsum_ext(n: nat, f: spec_fn(int) -> int, g: spec_fn(int) -> int)
    requires
        forall|i: int| 0 <= i < n ==> #[trigger] f(i) == g(i),
    ensures
        fsum(n, f) == fsum(n, g),
    decreases n,
{
    if n > 0 {
        lemma_fsum_ext((n - 1) as nat, f, g);
    }
}

/// The sum of a pointwise sum is the sum of the sums.
pub proof fn lemma_fsum_add(n: nat, f: spec_fn(int) -> int, g: spec_fn(int) -> int)
    ensures
        fsum(n, |i: int| f(i) + g(i)) == fsum(n, f) + fsum(n, g),
    decreases n,
{
    if n > 0 {
        lemma_fsum_add((n - 1) as nat, f, g);
    }
}

/// A constant factor comes out of a sum.
pub proof fn lemma_fsum_scale(n: nat, a: int, f: spec_fn(int) -> int)
    ensures
        fsum(n, |i: int| a * f(i)) == a * fsum(n, f),
    decreases n,
{
    if n > 0 {
        lemma_fsum_scale((n - 1) as nat, a, f);
        let s = fsum((n - 1) as nat, f);
        let t = f(n - 1);
        assert(a * s + a * t == a * (s + t)) by (nonlinear_arith);
    }
}

/// A sum over `a + b` terms splits into the first `a` and the next `b`.
pub proof fn lemma_fsum_split(a: nat, b: nat, f: spec_fn(int) -> int)
    ensures
        fsum(a + b, f) == fsum(a, f) + fsum(b, |i: int| f(a + i)),
    decreases b,
{
    if b > 0 {
        lemma_fsum_split(a, (b - 1) as nat, f);
        assert((a + b - 1) as nat == (a + (b - 1)) as nat);
    }
}

/// A sum of zeros is zero.
pub proof fn lemma_fsum_zero(n: nat, f: spec_fn(int) -> int)
    requires
        forall|i: int| 0 <= i < n ==> #[trigger] f(i) == 0,
    ensures
        fsum(n, f) == 0,
    decreases n,
{
    if n > 0 {
        lemma_fsum_zero((n - 1) as nat, f);
    }
}

/// Terms that are zero at the end do not change a sum.
pub proof fn lemma_fsum_zero_tail(n: nat, m: nat, f: spec_fn(int) -> int)
    requires
        n <= m,
        forall|i: int| n <= i < m ==> #[trigger] f(i) == 0,
    ensures
        fsum(m, f) == fsum(n, f),
    decreases m,
{
    if n < m {
        lemma_fsum_zero_tail(n, (m - 1) as nat, f);
    }
}

/// A sum whose only nonzero term is at `j` is that term.
pub proof fn lemma_fsum_single(n: nat, j: int, f: spec_fn(int) -> int)
    requires
        0 <= j < n,
        forall|i: int| 0 <= i < n && i != j ==> #[trigger] f(i) == 0,
    ensures
        fsum(n, f) == f(j),
    decreases n,
{
    if n - 1 == j {
        lemma_fsum_zero(j as nat, f);
    } else {
        lemma_fsum_single((n - 1) as nat, j, f);
    }
}

/// The order of a double sum can be exchanged.
pub proof fn lemma_fsum_swap(n: nat, m: nat, h: spec_fn(int, int) -> int)
    ensures
        fsum(n, |i: int| fsum(m, |k: int| h(i, k))) == fsum(m, |k: int| fsum(n, |i: int| h(i, k))),
    decreases n,
{
    if n > 0 {
        let n1 = (n - 1) as nat;
        lemma_fsum_swap(n1, m, h);
        let f = |k: int| fsum(n1, |i: int| h(i, k));
        let g = |k: int| h(n1 as int, k);
        lemma_fsum_add(m, f, g);
        let whole = |k: int| fsum(n, |i: int| h(i, k));
        let parts = |k: int| f(k) + g(k);
        assert forall|k: int| 0 <= k < m implies #[trigger] whole(k) == parts(k) by {
            assert(fsum(n, |i: int| h(i, k)) == fsum(n1, |i: int| h(i, k)) + h(n1 as int, k));
        }
        lemma_fsum_ext(m, whole, parts);
        let outer = |i: int| fsum(m, |k: int| h(i, k));
        assert(fsum(n, outer) == fsum(n1, outer) + outer(n1 as int));
        assert(outer(n1 as int) == fsum(m, g));
        assert(fsum(n1, outer) == fsum(m, f));
        assert(fsum(m, parts) == fsum(m, f) + fsum(m, g));
        assert(fsum(n, outer) == fsum(m, whole));
        assert(outer =~= (|i: int| fsum(m, |k: int| h(i, k))));
        assert(whole =~= (|k: int| fsum(n, |i: int| h(i, k))));
    } else {
        lemma_fsum_zero(m, |k: int| fsum(n, |i: int| h(i, k)));
    }
}

/// Sums of terms congruent modulo `q` are congruent modulo `q`.
pub proof fn lemma_fsum_cong(n: nat, f: spec_fn(int) -> int, g: spec_fn(int) -> int)
    requires
        forall|i: int| 0 <= i < n ==> fe(#[trigger] f(i)) == fe(g(i)),
    ensures
        fe(fsum(n, f)) == fe(fsum(n, g)),
    decreases n,
{
    if n > 0 {
        let n1 = (n - 1) as nat;
        lemma_fsum_cong(n1, f, g);
        lemma_fe_add(fsum(n1, f), f(n - 1));
        lemma_fe_add(fsum(n1, g), g(n - 1));
        assert(fe(f(n - 1)) == fe(g(n - 1)));
    }
}

/// Powers add in the exponent.
pub proof fn lemma_power_add(b: int, e1: nat, e2: nat)
    ensures
        power(b, e1 + e2) == power(b, e1) * power(b, e2),
    decreases e1,
{
    if e1 > 0 {
        lemma_power_add(b, (e1 - 1) as nat, e2);
        assert((e1 + e2 - 1) as nat == ((e1 - 1) + e2) as nat);
        let p = power(b, (e1 - 1) as nat);
        let r = power(b, e2);
        assert(b * (p * r) == (b * p) * r) by (nonlinear_arith);
    }
}

/// A power of a power multiplies the exponents.
pub proof fn lemma_power_mul(b: int, e1: nat, e2: nat)
    ensures
        power(b, e1 * e2) == power(power(b, e1), e2),
    decreases e2,
{
    if e2 > 0 {
        lemma_power_mul(b, e1, (e2 - 1) as nat);
        assert(e1 * e2 == e1 * (e2 - 1) + e1) by (nonlinear_arith)
            requires
                e2 > 0,
        ;
        assert(power(power(b, e1), e2) == power(b, e1) * power(power(b, e1), (e2 - 1) as nat));
        lemma_power_add(b, (e1 * (e2 - 1)) as nat, e1);
        assert((e1 * (e2 - 1) + e1) as nat == (e1 * e2) as nat);
        let p = power(b, e1);
        let r = power(b, (e1 * (e2 - 1)) as nat);
        assert(r * p == p * r) by (nonlinear_arith);
        assert(power(b, e1 * e2) == r * p);
        assert(power(power(b, e1), e2) == p * r);
    } else {
        assert(e1 * e2 == 0) by (nonlinear_arith)
            requires
                e2 == 0,
        ;
    }
}

/// A power of a product is the product of the powers.
pub proof fn lemma_power_distributes(a: int, b: int, e: nat)
    ensures
        power(a * b, e) == power(a, e) * power(b, e),
    decreases e,
{
    if e > 0 {
        lemma_power_distributes(a, b, (e - 1) as nat);
        let pa = power(a, (e - 1) as nat);
        let pb = power(b, (e - 1) as nat);
        assert((a * b) * (pa * pb) == (a * pa) * (b * pb)) by (nonlinear_arith);
    }
}

/// Every power of one is one.
pub proof fn lemma_power_one(e: nat)
    ensures
        power(1, e) == 1,
    decreases e,
{
    if e > 0 {
        lemma_power_one((e - 1) as nat);
    }
}

/// Congruent bases have congruent powers.
pub proof fn lemma_power_cong(a: int, b: int, e: nat)
    requires
        fe(a) == fe(b),
    ensures
        fe(power(a, e)) == fe(power(b, e)),
    decreases e,
{
    if e > 0 {
        lemma_power_cong(a, b, (e - 1) as nat);
        lemma_fe_mul(a, power(a, (e - 1) as nat));
        lemma_fe_mul(b, power(b, (e - 1) as nat));
    }
}

/// Modulo `q`, the powers of `-1`: `1` for even exponents, `-1` for odd
/// ones.
pub proof fn lemma_power_minus_one(x: int, e: nat)
    requires
        fe(x) == modulus() - 1,
    ensures
        fe(power(x, e)) == if e % 2 == 0 {
            1
        } else {
            modulus() - 1
        },
    decreases e,
{
    if e > 0 {
        lemma_power_minus_one(x, (e - 1) as nat);
        lemma_fe_mul(x, power(x, (e - 1) as nat));
        let q = modulus();
        if (e - 1) % 2 == 0 {
            assert(fe((q - 1) * 1) == q - 1);
        } else {
            assert((q - 1) * (q - 1) == q * (q - 2) + 1) by (nonlinear_arith);
            assert(fe((q - 1) * (q - 1)) == 1) by {
                vstd::arithmetic::div_mod::lemma_mod_multiples_vanish(q - 2, 1, q);
            }
        }
    }
}

/// When `g^n` is one modulo `q`, powers of `g` only depend on the exponent
/// modulo `n`.
pub proof fn lemma_power_cycle(g: int, n: nat, a: nat)
    requires
        n > 0,
        fe(power(g, n)) == 1,
    ensures
        fe(power(g, a)) == fe(power(g, a % n)),
    decreases a,
{
    if a >= n {
        lemma_power_cycle(g, n, (a - n) as nat);
        lemma_power_add(g, n, (a - n) as nat);
        assert((n + (a - n)) as nat == a);
        lemma_fe_mul(power(g, n), power(g, (a - n) as nat));
        assert(fe(1 * fe(power(g, (a - n) as nat))) == fe(power(g, (a - n) as nat))) by {
            lemma_fe_twice(power(g, (a - n) as nat));
        }
        vstd::arithmetic::div_mod::lemma_mod_sub_multiples_vanish(a as int, n as int);
    } else {
        vstd::arithmetic::div_mod::lemma_small_mod(a, n);
    }
}

/// Zeros appended to the coefficients do not change the polynomial.
pub proof fn lemma_peval_pad(c: Seq<int>, n: nat, x: int)
    ensures
        peval(pad(c, n), x) == peval(c, x),
{
    let p = pad(c, n);
    let f = |k: int| p[k] * power(x, k as nat);
    let g = |k: int| c[k] * power(x, k as nat);
    if c.len() < n {
        assert forall|k: int| c.len() <= k < p.len() implies #[trigger] f(k) == 0 by {
            assert(p[k] == 0);
        }
        lemma_fsum_zero_tail(c.len(), p.len(), f);
        assert forall|k: int| 0 <= k < c.len() implies #[trigger] f(k) == g(k) by {
            assert(p[k] == c[k]);
        }
        lemma_fsum_ext(c.len(), f, g);
    }
}

/// Cutting off coefficients that are zero does not change the polynomial.
pub proof fn lemma_peval_trunc(c: Seq<int>, n: nat, x: int)
    requires
        forall|k: int| n <= k < c.len() ==> #[trigger] c[k] == 0,
    ensures
        peval(trunc(c, n), x) == peval(c, x),
{
    if c.len() > n {
        let t = trunc(c, n);
        let f = |k: int| c[k] * power(x, k as nat);
        let g = |k: int| t[k] * power(x, k as nat);
        assert forall|k: int| n <= k < c.len() implies #[trigger] f(k) == 0 by {
            assert(c[k] == 0);
        }
        lemma_fsum_zero_tail(n, c.len(), f);
        lemma_fsum_ext(n, f, g);
    }
}

/// Coefficients congruent modulo `q` give congruent values.
pub proof fn lemma_peval_cong_coeffs(a: Seq<int>, b: Seq<int>, x: int)
    requires
        a.len() == b.len(),
        forall|k: int| 0 <= k < a.len() ==> fe(#[trigger] a[k]) == fe(b[k]),
    ensures
        fe(peval(a, x)) == fe(peval(b, x)),
{
    let f = |k: int| a[k] * power(x, k as nat);
    let g = |k: int| b[k] * power(x, k as nat);
    assert forall|k: int| 0 <= k < a.len() implies fe(#[trigger] f(k)) == fe(g(k)) by {
        lemma_fe_mul(a[k], power(x, k as nat));
        lemma_fe_mul(b[k], power(x, k as nat));
    }
    lemma_fsum_cong(a.len(), f, g);
}

/// Reducing the coefficients modulo `q` does not change the value modulo `q`.
pub proof fn lemma_peval_reduce(c: Seq<int>, x: int)
    ensures
        fe(peval(reduce(c), x)) == fe(peval(c, x)),
{
    assert forall|k: int| 0 <= k < c.len() implies fe(#[trigger] reduce(c)[k]) == fe(c[k]) by {
        lemma_fe_twice(c[k]);
    }
    lemma_peval_cong_coeffs(reduce(c), c, x);
}

/// Congruent points give congruent values.
pub proof fn lemma_peval_cong_point(c: Seq<int>, x: int, y: int)
    requires
        fe(x) == fe(y),
    ensures
        fe(peval(c, x)) == fe(peval(c, y)),
{
    let f = |k: int| c[k] * power(x, k as nat);
    let g = |k: int| c[k] * power(y, k as nat);
    assert forall|k: int| 0 <= k < c.len() implies fe(#[trigger] f(k)) == fe(g(k)) by {
        lemma_power_cong(x, y, k as nat);
        lemma_fe_mul(c[k], power(x, k as nat));
        lemma_fe_mul(c[k], power(y, k as nat));
    }
    lemma_fsum_cong(c.len(), f, g);
}

/// Scaling coefficient `k` by `s^k` evaluates the polynomial at `s x`.
pub proof fn lemma_peval_scale(c: Seq<int>, s: int, x: int)
    ensures
        fe(peval(scale_powers(c, s), x)) == fe(peval(c, s * x)),
{
    let sc = scale_powers(c, s);
    let f = |k: int| sc[k] * power(x, k as nat);
    let g = |k: int| c[k] * power(s * x, k as nat);
    assert forall|k: int| 0 <= k < c.len() implies fe(#[trigger] f(k)) == fe(g(k)) by {
        let a = c[k] * power(s, k as nat);
        lemma_mul_mod_noop_left(a, power(x, k as nat), modulus());
        lemma_power_distributes(s, x, k as nat);
        let cc = c[k];
        let ps = power(s, k as nat);
        let px = power(x, k as nat);
        assert((cc * ps) * px == cc * (ps * px)) by (nonlinear_arith);
    }
    lemma_fsum_cong(c.len(), f, g);
}

/// Multiplying by `X - r` multiplies every value by `x - r`.
pub proof fn lemma_peval_mul_linear(c: Seq<int>, r: int, x: int)
    ensures
        peval(mul_linear(c, r), x) == peval(c, x) * (x - r),
{
    let len = c.len();
    let m = mul_linear(c, r);
    let lo = |k: int| (if k > 0 { c[k - 1] } else { 0 }) * power(x, k as nat);
    let hi = |k: int| (if k < len { c[k] } else { 0 }) * power(x, k as nat);
    let neg_hi = |k: int| (-r) * hi(k);
    let terms = |k: int| m[k] * power(x, k as nat);
    assert forall|k: int| 0 <= k < len + 1 implies #[trigger] terms(k) == lo(k) + neg_hi(k) by {
        let a = if k > 0 { c[k - 1] } else { 0 };
        let b = if k < len { c[k] } else { 0 };
        let p = power(x, k as nat);
        assert((a - r * b) * p == a * p + (-r) * (b * p)) by (nonlinear_arith);
    }
    lemma_fsum_ext(len + 1, terms, |k: int| lo(k) + neg_hi(k));
    lemma_fsum_add(len + 1, lo, neg_hi);
    lemma_fsum_scale(len + 1, -r, hi);
    // the high part is the polynomial itself
    let g = |k: int| c[k] * power(x, k as nat);
    lemma_fsum_ext(len, hi, g);
    // the low part is the polynomial shifted up by one degree
    lemma_fsum_split(1, len, lo);
    let lo_shift = |k: int| lo(1 + k);
    let xg = |k: int| x * g(k);
    assert forall|k: int| 0 <= k < len implies #[trigger] lo_shift(k) == xg(k) by {
        assert(power(x, (k + 1) as nat) == x * power(x, k as nat));
        assert(c[k] * (x * power(x, k as nat)) == x * (c[k] * power(x, k as nat))) by (nonlinear_arith);
    }
    lemma_fsum_ext(len, lo_shift, xg);
    lemma_fsum_scale(len, x, g);
    assert(lo(0) == 0);
    let pc = peval(c, x);
    assert(fsum(0, lo) == 0);
    assert(fsum(1, lo) == 0);
    assert(peval(mul_linear(c, r), x) == x * pc + (-r) * pc);
    assert(x * pc + (-r) * pc == pc * (x - r)) by (nonlinear_arith);
}

/// The product of `x - r` over the roots `r` in `rs`.
pub open spec fn root_product(rs: Seq<int>, x: int) -> int
    decreases rs.len(),
{
    if rs.len() == 0 {
        1
    } else {
        root_product(rs.drop_last(), x) * (x - rs.last())
    }
}

/// The coefficients of `c(X)` times the product of `X - r` over `r` in `rs`.
pub open spec fn times_roots(c: Seq<int>, rs: Seq<int>) -> Seq<int>
    decreases rs.len(),
{
    if rs.len() == 0 {
        c
    } else {
        mul_linear(times_roots(c, rs.drop_last()), rs.last())
    }
}

/// The polynomial built from roots evaluates to the product over its roots.
pub proof fn lemma_peval_poly_from_roots(rs: Seq<int>, x: int)
    ensures
        peval(poly_from_roots(rs), x) == root_product(rs, x),
    decreases rs.len(),
{
    if rs.len() == 0 {
        assert(peval(seq![1int], x) == fsum(0, |k: int| seq![1int][k] * power(x, k as nat)) + 1 * power(x, 0));
    } else {
        lemma_peval_poly_from_roots(rs.drop_last(), x);
        lemma_peval_mul_linear(poly_from_roots(rs.drop_last()), rs.last(), x);
    }
}

/// Multiplying by the linear factors of `rs` multiplies the value by their
/// product, and adds one coefficient per root.
pub proof fn lemma_peval_times_roots(c: Seq<int>, rs: Seq<int>, x: int)
    ensures
        peval(times_roots(c, rs), x) == peval(c, x) * root_product(rs, x),
        times_roots(c, rs).len() == c.len() + rs.len(),
    decreases rs.len(),
{
    if rs.len() > 0 {
        lemma_peval_times_roots(c, rs.drop_last(), x);
        lemma_peval_mul_linear(times_roots(c, rs.drop_last()), rs.last(), x);
        let a = peval(c, x);
        let b = root_product(rs.drop_last(), x);
        let l = x - rs.last();
        assert((a * b) * l == a * (b * l)) by (nonlinear_arith);
    }
}

/// The product vanishes modulo `q` at a point congruent to one of the roots.
pub proof fn lemma_root_product_vanishes(rs: Seq<int>, x: int, m: int)
    requires
        0 <= m < rs.len(),
        fe(x - rs[m]) == 0,
    ensures
        fe(root_product(rs, x)) == 0,
    decreases rs.len(),
{
    let last = rs.len() - 1;
    let p = root_product(rs.drop_last(), x);
    if m == last {
        lemma_fe_mul(p, x - rs.last());
        assert(fe(fe(p) * 0) == 0);
    } else {
        lemma_root_product_vanishes(rs.drop_last(), x, m);
        lemma_fe_mul(p, x - rs.last());
        assert(fe(0 * fe(x - rs.last())) == 0);
    }
}

/// The geometric sum `1 + w + ... + w^(n-1)`.
pub open spec fn geom(w: int, n: nat) -> int {
    fsum(n, |i: int| power(w, i as nat))
}

/// `1 + ... + w^(2m-1) = (1 + ... + w^(m-1)) (1 + w^m)`.
pub proof fn lemma_geom_double(w: int, m: nat)
    ensures
        geom(w, 2 * m) == geom(w, m) * (1 + power(w, m)),
{
    let f = |i: int| power(w, i as nat);
    lemma_fsum_split(m, m, f);
    assert((m + m) as nat == (2 * m) as nat);
    let upper = |i: int| f(m + i);
    let scaled = |i: int| power(w, m) * f(i);
    assert forall|i: int| 0 <= i < m implies #[trigger] upper(i) == scaled(i) by {
        lemma_power_add(w, m, i as nat);
        assert((m + i) as nat == (m + (i as nat)) as nat);
    }
    lemma_fsum_ext(m, upper, scaled);
    lemma_fsum_scale(m, power(w, m), f);
    let gm = geom(w, m);
    assert(gm + power(w, m) * gm == gm * (1 + power(w, m))) by (nonlinear_arith);
}

/// Congruent ratios give congruent geometric sums.
pub proof fn lemma_geom_cong(w: int, v: int, n: nat)
    requires
        fe(w) == fe(v),
    ensures
        fe(geom(w, n)) == fe(geom(v, n)),
{
    let f = |i: int| power(w, i as nat);
    let g = |i: int| power(v, i as nat);
    assert forall|i: int| 0 <= i < n implies fe(#[trigger] f(i)) == fe(g(i)) by {
        lemma_power_cong(w, v, i as nat);
    }
    lemma_fsum_cong(n, f, g);
}

/// The geometric sum of ratio one counts its terms.
pub proof fn lemma_geom_one(n: nat)
    ensures
        geom(1, n) == n,
    decreases n,
{
    if n > 0 {
        lemma_geom_one((n - 1) as nat);
        lemma_power_one((n - 1) as nat);
    }
}

/// When `g^(n/2)` is `-1` modulo `q` for `n = 2^lg`, the sum of the powers of
/// `g^e` over a full period vanishes modulo `q` for `0 < e < n`.
pub proof fn lemma_geom_vanishes(g: int, lg: nat, n: nat, e: nat)
    requires
        lg >= 1,
        n == power(2, lg),
        fe(power(g, n / 2)) == modulus() - 1,
        0 < e < n,
    ensures
        fe(geom(power(g, e), n)) == 0,
    decreases lg,
{
    let q = modulus();
    let m = (n / 2) as nat;
    let w = power(g, e);
    assert(n == 2 * m);
    lemma_geom_double(w, m);
    let gm = geom(w, m);
    let t = 1 + power(w, m);
    lemma_fe_mul(gm, t);
    if e % 2 == 1 {
        // w^m = (g^m)^e = (-1)^e = -1
        lemma_power_mul(g, e, m);
        lemma_power_mul(g, m, e);
        assert(e * m == m * e) by (nonlinear_arith);
        lemma_power_minus_one(power(g, m), e);
        lemma_fe_add(1, power(w, m));
        assert(fe(1 + (q - 1)) == 0);
        assert(fe(t) == 0);
        assert(fe(fe(gm) * 0) == 0);
    } else {
        let e2 = (e / 2) as nat;
        assert(e == 2 * e2);
        assert(0 < e2 < m);
        assert(lg >= 2) by {
            if lg == 1 {
                assert(power(2, 0) == 1);
                assert(n == 2);
            }
        }
        let h = power(g, 2);
        let lg1 = (lg - 1) as nat;
        assert(m == power(2, lg1));
        let m2 = (m / 2) as nat;
        assert(m == 2 * m2) by {
            assert(power(2, lg1) == 2 * power(2, (lg1 - 1) as nat));
        }
        lemma_power_mul(g, 2, m2);
        assert(2 * m2 == m);
        lemma_geom_vanishes(h, lg1, m, e2);
        lemma_power_mul(g, 2, e2);
        assert(power(h, e2) == w);
        lemma_fe_mul(gm, t);
        assert(fe(0 * fe(t)) == 0);
    }
}

/// The sum over `i < n` of `(g^i)^k (gi^j)^i` is `n` modulo `q` when `k == j`
/// and `0` otherwise, for `g` a root of unity of order `n = 2^lg` whose half
/// power is `-1` and `gi` its inverse.
pub proof fn lemma_orthogonality(g: int, gi: int, lg: nat, n: nat, k: nat, j: nat)
    requires
        n == power(2, lg),
        fe(power(g, n)) == 1,
        n >= 2 ==> fe(power(g, n / 2)) == modulus() - 1,
        fe(g * gi) == 1,
        0 <= gi < modulus(),
        k < n,
        j < n,
    ensures
        fe(fsum(n, |i: int| power(power(g, i as nat), k) * power(power(gi, j), i as nat))) == if k == j {
            fe(n as int)
        } else {
            0
        },
{
    let q = modulus();
    let w = power(g, k) * power(gi, j);
    let f = |i: int| power(power(g, i as nat), k) * power(power(gi, j), i as nat);
    let gw = |i: int| power(w, i as nat);
    assert forall|i: int| 0 <= i < n implies #[trigger] f(i) == gw(i) by {
        lemma_power_mul(g, i as nat, k);
        lemma_power_mul(g, k, i as nat);
        assert((i as nat) * k == k * (i as nat)) by (nonlinear_arith);
        lemma_power_distributes(power(g, k), power(gi, j), i as nat);
    }
    lemma_fsum_ext(n, f, gw);
    assert(n >= 1) by {
        lemma_power2_positive(lg);
    }
    if k == j {
        // w = (g gi)^j = 1
        lemma_power_distributes(g, gi, j);
        lemma_power_cong(g * gi, 1, j);
        lemma_power_one(j);
        lemma_geom_cong(w, 1, n);
        lemma_geom_one(n);
    } else {
        // gi = g^(n-1), so w = g^(k + (n-1) j) = g^e with e = (k - j) mod n
        let n1 = (n - 1) as nat;
        lemma_power_add(g, 1, n1);
        assert(power(g, 0) == 1);
        assert(power(g, 1) == g);
        assert((1 + n1) as nat == n);
        lemma_fe_twice(power(g, n1));
        lemma_fe_mul(g, power(g, n1));
        lemma_fe_mul(g, fe(power(g, n1)));
        lemma_fe_twice(g * gi);
        lemma_inverse_unique(g, gi, fe(power(g, n1)));
        lemma_power_cong(gi, power(g, n1), j);
        lemma_power_mul(g, n1, j);
        lemma_fe_mul(power(g, k), power(gi, j));
        lemma_fe_mul(power(g, k), power(g, n1 * j));
        let a = (k + n1 * j) as nat;
        lemma_power_add(g, k, n1 * j);
        lemma_power_cycle(g, n, a);
        let e = a % n;
        assert(e != 0 && e < n) by {
            assert(a == k + n * j - j) by (nonlinear_arith)
                requires
                    a == k + n1 * j,
                    n1 == n - 1,
            ;
            if k > j {
                assert(a == j * n + (k - j)) by (nonlinear_arith)
                    requires
                        a == k + n * j - j,
                ;
                vstd::arithmetic::div_mod::lemma_fundamental_div_mod_converse(a as int, n as int, j as int, (k - j) as int);
            } else {
                assert(a == (j - 1) * n + (n + k - j)) by (nonlinear_arith)
                    requires
                        a == k + n * j - j,
                ;
                vstd::arithmetic::div_mod::lemma_fundamental_div_mod_converse(a as int, n as int, (j - 1) as int, (n + k - j) as int);
            }
        }
        assert(fe(w) == fe(power(g, e)));
        lemma_geom_cong(w, power(g, e), n);
        assert(lg >= 1) by {
            if lg == 0 {
                assert(n == 1);
            }
        }
        lemma_geom_vanishes(g, lg, n, e);
    }
}

/// The inverse transform undoes the transform: for a root of unity `g` of
/// order `n = 2^lg` whose half power is `-1`, its inverse `gi` and the
/// inverse `ni` of `n`, transforming at most `n` coefficients and
/// transforming back gives them again, reduced modulo `q` and padded with
/// zeros to `n`.
pub proof fn lemma_idft_dft(c: Seq<int>, g: int, gi: int, ni: int, lg: nat, n: nat)
    requires
        n == power(2, lg),
        fe(power(g, n)) == 1,
        n >= 2 ==> fe(power(g, n / 2)) == modulus() - 1,
        fe(g * gi) == 1,
        0 <= gi < modulus(),
        fe(n * ni) == 1,
        c.len() <= n,
    ensures
        idft(dft(c, g, n), gi, ni, n) == reduce(pad(c, n)),
{
    let v = dft(c, g, n);
    let p = pad(c, n);
    assert(p.len() == n);
    assert forall|j: int| 0 <= j < n implies #[trigger] idft(v, gi, ni, n)[j] == reduce(p)[j] by {
        lemma_idft_dft_entry(c, g, gi, ni, lg, n, j as nat);
    }
    assert(idft(v, gi, ni, n) =~= reduce(p));
}

/// One entry of `lemma_idft_dft`.
proof fn lemma_idft_dft_entry(c: Seq<int>, g: int, gi: int, ni: int, lg: nat, n: nat, j: nat)
    requires
        n == power(2, lg),
        fe(power(g, n)) == 1,
        n >= 2 ==> fe(power(g, n / 2)) == modulus() - 1,
        fe(g * gi) == 1,
        0 <= gi < modulus(),
        fe(n * ni) == 1,
        c.len() <= n,
        j < n,
    ensures
        idft(dft(c, g, n), gi, ni, n)[j as int] == fe(pad(c, n)[j as int]),
{
    let v = dft(c, g, n);
    let p = pad(c, n);
    let x = power(gi, j);
    assert(trunc(v, n) == v);
    assert(trunc(c, n) == c);
    // the transformed values, written as sums over the padded coefficients
    let a = |i: int| v[i] * power(x, i as nat);
    let b = |i: int| power(x, i as nat) * peval(p, power(g, i as nat));
    assert forall|i: int| 0 <= i < n implies fe(#[trigger] a(i)) == fe(b(i)) by {
        lemma_peval_pad(c, n, power(g, i as nat));
        lemma_mul_mod_noop_left(peval(c, power(g, i as nat)), power(x, i as nat), modulus());
        let pe = peval(c, power(g, i as nat));
        let pw = power(x, i as nat);
        assert(pe * pw == pw * pe) by (nonlinear_arith);
    }
    lemma_fsum_cong(n, a, b);
    let h = |i: int, k: int| power(x, i as nat) * (p[k] * power(power(g, i as nat), k as nat));
    assert forall|i: int| 0 <= i < n implies #[trigger] b(i) == fsum(n, |k: int| h(i, k)) by {
        let inner = |k: int| p[k] * power(power(g, i as nat), k as nat);
        lemma_fsum_scale(n, power(x, i as nat), inner);
        lemma_fsum_ext(n, |k: int| h(i, k), |k: int| power(x, i as nat) * inner(k));
    }
    lemma_fsum_ext(n, b, |i: int| fsum(n, |k: int| h(i, k)));
    lemma_fsum_swap(n, n, h);
    // each column is a coefficient times an orthogonality sum
    let o = |k: int| fsum(n, |i: int| power(power(g, i as nat), k as nat) * power(x, i as nat));
    let col = |k: int| fsum(n, |i: int| h(i, k));
    let u = |k: int| if k == j { p[k] * n } else { 0 };
    assert forall|k: int| 0 <= k < n implies fe(#[trigger] col(k)) == fe(u(k)) by {
        let terms = |i: int| power(power(g, i as nat), k as nat) * power(x, i as nat);
        assert forall|i: int| 0 <= i < n implies #[trigger] h(i, k) == p[k] * terms(i) by {
            let a1 = power(x, i as nat);
            let a2 = p[k];
            let a3 = power(power(g, i as nat), k as nat);
            assert(a1 * (a2 * a3) == a2 * (a3 * a1)) by (nonlinear_arith);
        }
        lemma_fsum_ext(n, |i: int| h(i, k), |i: int| p[k] * terms(i));
        lemma_fsum_scale(n, p[k], terms);
        lemma_orthogonality(g, gi, lg, n, k as nat, j);
        assert(o(k) == fsum(n, terms));
        lemma_fe_mul(p[k], o(k));
        if k == j {
            lemma_fe_mul(p[k], n as int);
        } else {
            assert(fe(fe(p[k]) * 0) == 0);
        }
    }
    lemma_fsum_cong(n, col, u);
    assert forall|k: int| 0 <= k < n && k != j implies #[trigger] u(k) == 0 by {}
    lemma_fsum_single(n, j as int, u);
    // scaling by the inverse of n
    let s = peval(v, x);
    assert(s == fsum(n, a));
    assert(fe(s) == fe(p[j as int] * n));
    lemma_mul_mod_noop_right(ni, s, modulus());
    lemma_mul_mod_noop_right(ni, p[j as int] * n, modulus());
    let pj = p[j as int];
    assert(ni * (pj * n) == pj * (n * ni)) by (nonlinear_arith);
    lemma_mul_mod_noop_right(pj, n * ni, modulus());
    assert(idft(v, gi, ni, n)[j as int] == fe(ni * s));
}

/// The inverse of a root of unity of order `n = 2^lg` whose half power is
/// `-1` is again such a root of unity.
pub proof fn lemma_inverse_root(g: int, gi: int, n: nat)
    requires
        fe(power(g, n)) == 1,
        n >= 2 ==> fe(power(g, n / 2)) == modulus() - 1,
        fe(g * gi) == 1,
    ensures
        fe(power(gi, n)) == 1,
        n >= 2 ==> fe(power(gi, n / 2)) == modulus() - 1,
{
    let q = modulus();
    // gi^m g^m = (gi g)^m = 1
    assert forall|m: nat| #[trigger] fe(power(gi, m) * power(g, m)) == 1 by {
        lemma_power_distributes(gi, g, m);
        assert(gi * g == g * gi) by (nonlinear_arith);
        lemma_power_cong(gi * g, 1, m);
        lemma_power_one(m);
    }
    lemma_mul_mod_noop_right(power(gi, n), power(g, n), q);
    assert(fe(power(gi, n) * power(g, n)) == 1);
    lemma_small_mod(1, q as nat);
    lemma_fe_twice(power(gi, n));
    lemma_mul_mod_noop_left(power(gi, n), 1, q);
    if n >= 2 {
        let h = (n / 2) as nat;
        let x = power(gi, h);
        assert(fe(x * power(g, h)) == 1);
        lemma_mul_mod_noop_right(x, power(g, h), q);
        assert(fe(x * (q - 1)) == 1);
        lemma_mul_mod_noop_left(x, q - 1, q);
        assert((q - 1) * (q - 1) == q * (q - 2) + 1) by (nonlinear_arith);
        assert(fe((q - 1) * (q - 1)) == 1) by {
            vstd::arithmetic::div_mod::lemma_mod_multiples_vanish(q - 2, 1, q);
        }
        assert(fe(x) * (q - 1) == (q - 1) * fe(x)) by (nonlinear_arith);
        lemma_inverse_unique(q - 1, fe(x), q - 1);
    }
}

/// The transform undoes the inverse transform: for at most `n` values,
/// transforming back and then forward gives them again, reduced modulo `q`
/// and padded with zeros to `n`.
pub proof fn lemma_dft_idft(v: Seq<int>, g: int, gi: int, ni: int, lg: nat, n: nat)
    requires
        n == power(2, lg),
        fe(power(g, n)) == 1,
        n >= 2 ==> fe(power(g, n / 2)) == modulus() - 1,
        fe(g * gi) == 1,
        0 <= g < modulus(),
        0 <= gi < modulus(),
        fe(n * ni) == 1,
        v.len() <= n,
    ensures
        dft(idft(v, gi, ni, n), g, n) == reduce(pad(v, n)),
{
    let w = idft(v, gi, ni, n);
    let p = pad(v, n);
    assert forall|i: int| 0 <= i < n implies #[trigger] dft(w, g, n)[i] == reduce(p)[i] by {
        lemma_dft_idft_entry(v, g, gi, ni, lg, n, i as nat);
    }
    assert(dft(w, g, n) =~= reduce(p));
}

/// One entry of `lemma_dft_idft`.
proof fn lemma_dft_idft_entry(v: Seq<int>, g: int, gi: int, ni: int, lg: nat, n: nat, i: nat)
    requires
        n == power(2, lg),
        fe(power(g, n)) == 1,
        n >= 2 ==> fe(power(g, n / 2)) == modulus() - 1,
        fe(g * gi) == 1,
        0 <= g < modulus(),
        0 <= gi < modulus(),
        fe(n * ni) == 1,
        v.len() <= n,
        i < n,
    ensures
        dft(idft(v, gi, ni, n), g, n)[i as int] == fe(pad(v, n)[i as int]),
{
    let q = modulus();
    let w = idft(v, gi, ni, n);
    let p = pad(v, n);
    let y = power(g, i);
    assert(trunc(w, n) == w);
    assert(trunc(v, n) == v);
    // each inverse-transformed value as a sum over the padded values
    let a = |j: int| w[j] * power(y, j as nat);
    let b = |j: int| ni * (power(y, j as nat) * peval(p, power(gi, j as nat)));
    assert forall|j: int| 0 <= j < n implies fe(#[trigger] a(j)) == fe(b(j)) by {
        let x = power(gi, j as nat);
        let pw = power(y, j as nat);
        lemma_peval_pad(v, n, x);
        lemma_mul_mod_noop_left(ni * peval(v, x), pw, q);
        assert((ni * peval(v, x)) * pw == ni * (pw * peval(v, x))) by (nonlinear_arith);
    }
    lemma_fsum_cong(n, a, b);
    let h = |j: int, k: int| ni * (power(y, j as nat) * (p[k] * power(power(gi, j as nat), k as nat)));
    assert forall|j: int| 0 <= j < n implies #[trigger] b(j) == fsum(n, |k: int| h(j, k)) by {
        let inner = |k: int| p[k] * power(power(gi, j as nat), k as nat);
        let c = ni * power(y, j as nat);
        lemma_fsum_scale(n, c, inner);
        assert forall|k: int| 0 <= k < n implies #[trigger] h(j, k) == c * inner(k) by {
            let a1 = power(y, j as nat);
            let a2 = inner(k);
            assert(ni * (a1 * a2) == (ni * a1) * a2) by (nonlinear_arith);
        }
        lemma_fsum_ext(n, |k: int| h(j, k), |k: int| c * inner(k));
        let pe = peval(p, power(gi, j as nat));
        let a1 = power(y, j as nat);
        assert(ni * (a1 * pe) == (ni * a1) * pe) by (nonlinear_arith);
    }
    lemma_fsum_ext(n, b, |j: int| fsum(n, |k: int| h(j, k)));
    lemma_fsum_swap(n, n, h);
    // each column is a value times an orthogonality sum
    lemma_inverse_root(g, gi, n);
    assert(fe(gi * g) == 1) by {
        assert(gi * g == g * gi) by (nonlinear_arith);
    }
    let col = |k: int| fsum(n, |j: int| h(j, k));
    let u = |k: int| if k == i { ni * (p[k] * n) } else { 0 };
    assert forall|k: int| 0 <= k < n implies fe(#[trigger] col(k)) == fe(u(k)) by {
        let terms = |j: int| power(power(gi, j as nat), k as nat) * power(power(g, i), j as nat);
        assert forall|j: int| 0 <= j < n implies #[trigger] h(j, k) == (ni * p[k]) * terms(j) by {
            let a1 = power(y, j as nat);
            let a2 = p[k];
            let a3 = power(power(gi, j as nat), k as nat);
            assert(ni * (a1 * (a2 * a3)) == (ni * a2) * (a3 * a1)) by (nonlinear_arith);
        }
        lemma_fsum_ext(n, |j: int| h(j, k), |j: int| (ni * p[k]) * terms(j));
        lemma_fsum_scale(n, ni * p[k], terms);
        lemma_orthogonality(gi, g, lg, n, k as nat, i);
        let o = fsum(n, terms);
        lemma_fe_mul(ni * p[k], o);
        if k == i {
            lemma_fe_mul(ni * p[k], n as int);
            assert((ni * p[k]) * n == ni * (p[k] * n)) by (nonlinear_arith);
        } else {
            assert(fe(fe(ni * p[k]) * 0) == 0);
        }
    }
    lemma_fsum_cong(n, col, u);
    assert forall|k: int| 0 <= k < n && k != i implies #[trigger] u(k) == 0 by {}
    lemma_fsum_single(n, i as int, u);
    // n times its inverse is one
    let pi = p[i as int];
    assert(ni * (pi * n) == pi * (n * ni)) by (nonlinear_arith);
    lemma_mul_mod_noop_right(pi, n * ni, q);
    assert(dft(w, g, n)[i as int] == fe(fsum(n, a)));
}

/// Powers of two are positive.
pub proof fn lemma_power2_positive(k: nat)
    ensures
        power(2, k) >= 1,
    decreases k,
{
    if k > 0 {
        lemma_power2_positive((k - 1) as nat);
    }
}

/// `b^(2^k)` modulo `q`, by squaring `k` times.
pub open spec fn repeated_square(b: int, k: nat) -> int
    decreases k,
{
    if k == 0 {
        fe(b)
    } else {
        fe(repeated_square(b, (k - 1) as nat) * repeated_square(b, (k - 1) as nat))
    }
}

/// Squaring `k` times computes `b^(2^k)` modulo `q`.
pub proof fn lemma_repeated_square(b: int, k: nat)
    ensures
        fe(power(b, power(2, k) as nat)) == repeated_square(b, k),
    decreases k,
{
    if k == 0 {
        assert(power(b, 1) == b * power(b, 0));
    } else {
        let k1 = (k - 1) as nat;
        lemma_repeated_square(b, k1);
        lemma_power2_positive(k1);
        let e = power(2, k1) as nat;
        let p = power(b, e);
        assert(power(2, k) == 2 * power(2, k1));
        assert(power(2, k) as nat == e * 2);
        lemma_power_mul(b, e, 2);
        assert(power(p, 1) == p * power(p, 0));
        assert(power(p, 2) == p * power(p, 1));
        lemma_fe_mul(p, p);
    }
}

} // verus!
