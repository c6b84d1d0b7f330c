//! Polynomials over the integers, their evaluation, and the discrete Fourier
//! transform over a multiplicative subgroup of the scalar field.

use vstd::prelude::*;
use vstd::arithmetic::power2::{pow2, lemma2_to64, lemma_pow2_unfold};
use vstd::arithmetic::div_mod::{lemma_add_mod_noop, lemma_mul_mod_noop, lemma_mod_twice};
use crate::field::{Scalar, fe, modulus};

verus! {

/// `b` to the power `e`, over the integers.
pub open spec fn power(b: int, e: nat) -> int
    decreases e,
{
    if e == 0 {
        1
    } else {
        b * power(b, (e - 1) as nat)
    }
}

/// The sum `f(0) + f(1) + ... + f(n - 1)`.
pub open spec fn fsum(n: nat, f: spec_fn(int) -> int) -> int
    decreases n,
{
    if n == 0 {
        0
    } else {
        fsum((n - 1) as nat, f) + f(n - 1)
    }
}

/// The value at `x` of the polynomial whose coefficients, lowest degree
/// first, are `c`: the sum of `c[k] * x^k`.
pub open spec fn peval(c: Seq<int>, x: int) -> int {
    fsum(c.len(), |k: int| c[k] * power(x, k as nat))
}

/// The first `n` entries of `c`, or all of them when there are fewer.
pub open spec fn trunc(c: Seq<int>, n: nat) -> Seq<int> {
    if c.len() <= n {
        c
    } else {
        c.take(n as int)
    }
}

/// The evaluations modulo `q` of the polynomial `c`, cut to its first `n`
/// coefficients, at `w^0, w^1, ..., w^(n-1)`.
pub open spec fn dft(c: Seq<int>, w: int, n: nat) -> Seq<int> {
    Seq::new(n, |i: int| fe(peval(trunc(c, n), power(w, i as nat))))
}

/// The inverse transform: `n_inv` times the evaluations of `v` (cut to `n`
/// entries) at the powers of `w_inv`, modulo `q`.
pub open spec fn idft(v: Seq<int>, w_inv: int, n_inv: int, n: nat) -> Seq<int> {
    Seq::new(n, |j: int| fe(n_inv * peval(trunc(v, n), power(w_inv, j as nat))))
}

/// `w` is a primitive `n`-th root of unity modulo `q`.
pub open spec fn is_primitive_root(w: int, n: nat) -> bool {
    &&& fe(power(w, n)) == 1
    &&& forall|k: nat| 0 < k < n ==> #[trigger] fe(power(w, k)) != 1
}

/// The field values of a sequence of scalars.
pub open spec fn values(s: Seq<Scalar>) -> Seq<int> {
    s.map_values(|x: Scalar| x.value())
}

/// The coefficients of `c(X) * (X - r)`.
pub open spec fn mul_linear(c: Seq<int>, r: int) -> Seq<int> {
    Seq::new(
        c.len() + 1,
        |k: int|
            (if k > 0 {
                c[k - 1]
            } else {
                0
            }) - r * (if k < c.len() {
                c[k]
            } else {
                0
            }),
    )
}

/// The coefficients of the monic polynomial whose roots, with multiplicity,
/// are `rs`: the product of `X - r` over `r` in `rs`.
pub open spec fn poly_from_roots(rs: Seq<int>) -> Seq<int>
    decreases rs.len(),
{
    if rs.len() == 0 {
        seq![1]
    } else {
        mul_linear(poly_from_roots(rs.drop_last()), rs.last())
    }
}

/// Coefficient `i` of `c` multiplied by `s^i`, modulo `q`: the polynomial
/// `c(s X)`.
pub open spec fn scale_powers(c: Seq<int>, s: int) -> Seq<int> {
    Seq::new(c.len(), |i: int| fe(c[i] * power(s, i as nat)))
}

/// Each entry modulo `q`.
pub open spec fn reduce(c: Seq<int>) -> Seq<int> {
    c.map_values(|x: int| fe(x))
}

/// `c` followed by zeros up to length `n` (unchanged when already that long).
pub open spec fn pad(c: Seq<int>, n: nat) -> Seq<int> {
    if c.len() >= n {
        c
    } else {
        c + Seq::new((n - c.len()) as nat, |i: int| 0int)
    }
}

/// The product of the linear factors of `rs` has degree `rs.len()` and is
/// monic.
pub proof fn lemma_poly_from_roots_monic(rs: Seq<int>)
    ensures
        poly_from_roots(rs).len() == rs.len() + 1,
        poly_from_roots(rs)[rs.len() as int] == 1,
    decreases rs.len(),
{
    if rs.len() > 0 {
        lemma_poly_from_roots_monic(rs.drop_last());
    }
}

/// Reducing the summands modulo `q` first does not change a sum modulo `q`.
pub proof fn lemma_fe_add(a: int, b: int)
    ensures
        fe(fe(a) + fe(b)) == fe(a + b),
{
    lemma_add_mod_noop(a, b, modulus());
}

/// Reducing the factors modulo `q` first does not change a product modulo `q`.
pub proof fn lemma_fe_mul(a: int, b: int)
    ensures
        fe(fe(a) * fe(b)) == fe(a * b),
{
    lemma_mul_mod_noop(a, b, modulus());
}

/// Reducing modulo `q` twice is reducing once.
pub proof fn lemma_fe_twice(a: int)
    ensures
        fe(fe(a)) == fe(a),
{
    lemma_mod_twice(a, modulus());
}

/// Writing one scalar of a sequence writes its value.
pub proof fn lemma_values_update(s: Seq<Scalar>, j: int, x: Scalar)
    requires
        0 <= j < s.len(),
    ensures
        values(s.update(j, x)) == values(s).update(j, x.value()),
{
    assert(values(s.update(j, x)) =~= values(s).update(j, x.value()));
}

/// Appending one scalar to a sequence appends its value.
pub proof fn lemma_values_push(s: Seq<Scalar>, x: Scalar)
    ensures
        values(s.push(x)) == values(s).push(x.value()),
{
    assert(values(s.push(x)) =~= values(s).push(x.value()));
}

/// Powers of two grow with the exponent.
pub proof fn lemma_power2_monotone(a: nat, b: nat)
    requires
        a <= b,
    ensures
        1 <= power(2, a) <= power(2, b),
    decreases b,
{
    if b > 0 {
        if a < b {
            lemma_power2_monotone(a, (b - 1) as nat);
        } else {
            lemma_power2_monotone((b - 1) as nat, (b - 1) as nat);
        }
    }
}

/// A power of two with exponent below 32 fits in 32 bits.
pub proof fn lemma_power2_below_32(k: nat)
    requires
        k < 32,
    ensures
        1 <= power(2, k) <= 0x8000_0000,
{
    lemma_power2_monotone(k, 31);
    lemma_power2_is_pow2(31);
    lemma2_to64();
}

/// `power(2, k)` is vstd's `pow2(k)`.
pub proof fn lemma_power2_is_pow2(k: nat)
    ensures
        power(2, k) == pow2(k),
    decreases k,
{
    if k == 0 {
        lemma2_to64();
    } else {
        lemma_power2_is_pow2((k - 1) as nat);
        lemma_pow2_unfold(k);
    }
}

} // verus!
