//! Reconstruction of a full set of erasure-coded evaluations from a subset
//! of them.

use vstd::prelude::*;
use vstd::arithmetic::div_mod::{lemma_mul_mod_noop_left, lemma_mul_mod_noop_right, lemma_small_mod};
use vstd::arithmetic::mul::lemma_mul_inequality;
use vstd::arithmetic::div_mod::lemma_fundamental_div_mod;
use crate::field::{Scalar, fe, modulus, field_add, field_sub, field_mul, field_invert};
use crate::domain::{Domain, domain_fft, domain_ifft};
use crate::algebra::lemma_inverse_unique;
use crate::laws::lemma_coset_zero_evals_nonzero;
use crate::poly::{
    power, values, dft, idft, reduce, scale_powers, pad, mul_linear, poly_from_roots, lemma_power2_below_32,
    lemma_poly_from_roots_monic, lemma_fe_add, lemma_fe_mul, lemma_fe_twice, lemma_values_update,
    lemma_values_push,
};

verus! {

broadcast use {crate::field::lemma_fe_bound, crate::field::Scalar::lemma_value_bound};

/// The inverse of 5 modulo `q`.
pub open spec fn five_inv() -> int {
    0x458e97984c2b4b2b51ef819e6c2de803323e959b66656a65cccccccc33333334int
}

/// Multiplies coefficient `i` by `5^-i`: the polynomial `p(X)` becomes
/// `p(X / 5)`.
fn shift_poly(poly: &mut Vec<Scalar>)
    ensures
        values(final(poly)@) == scale_powers(values(old(poly)@), five_inv()),
{
    let ghost orig = values(poly@);
    let shift_factor = Scalar::from_u64(5);
    let mut factor_power = Scalar::one();
    let inv_factor = field_invert(shift_factor).unwrap();
    proof {
        lemma_inverse_unique(5, inv_factor.value(), five_inv());
    }
    let n = poly.len();
    for i in 0..n
        invariant
            n == poly.len(),
            orig.len() == n,
            inv_factor.value() == five_inv(),
            factor_power.value() == fe(power(five_inv(), i as nat)),
            forall|k: int| 0 <= k < i ==> values(poly@)[k] == fe(orig[k] * power(five_inv(), k as nat)),
            forall|k: int| i <= k < n ==> values(poly@)[k] == orig[k],
    {
        let ghost before = poly@;
        let updated = field_mul(poly[i], factor_power);
        poly.set(i, updated);
        proof {
            assert(before[i as int].value() == values(before)[i as int]);
            assert(values(poly@)[i as int] == updated.value());
            lemma_mul_mod_noop_right(orig[i as int], power(five_inv(), i as nat), modulus());
            assert(updated.value() == fe(values(before)[i as int] * factor_power.value()));
            assert(values(before)[i as int] == orig[i as int]);
            assert(values(poly@)[i as int] == fe(orig[i as int] * power(five_inv(), i as nat)));
            assert forall|k: int| 0 <= k < n && k != i implies values(poly@)[k] == values(before)[k] by {
                assert(poly@[k] == before[k]);
            }
            assert forall|k: int| 0 <= k < i + 1 implies values(poly@)[k] == fe(orig[k] * power(five_inv(), k as nat)) by {
                if k < i {
                    assert(values(before)[k] == fe(orig[k] * power(five_inv(), k as nat)));
                }
            }
        }
        factor_power = field_mul(factor_power, inv_factor);
        proof {
            lemma_mul_mod_noop_left(power(five_inv(), i as nat), five_inv(), modulus());
            assert(power(five_inv(), (i + 1) as nat) == five_inv() * power(five_inv(), i as nat));
            assert(power(five_inv(), i as nat) * five_inv() == five_inv() * power(five_inv(), i as nat))
                by (nonlinear_arith);
        }
    }
    assert(values(poly@) =~= scale_powers(orig, five_inv()));
}

/// Multiplies coefficient `i` by `5^i`: the polynomial `p(X)` becomes
/// `p(5 X)`.
fn unshift_poly(poly: &mut Vec<Scalar>)
    ensures
        values(final(poly)@) == scale_powers(values(old(poly)@), 5),
{
    let ghost orig = values(poly@);
    let shift_factor = Scalar::from_u64(5);
    let mut factor_power = Scalar::one();
    let n = poly.len();
    for i in 0..n
        invariant
            n == poly.len(),
            orig.len() == n,
            shift_factor.value() == 5,
            factor_power.value() == fe(power(5, i as nat)),
            forall|k: int| 0 <= k < i ==> values(poly@)[k] == fe(orig[k] * power(5, k as nat)),
            forall|k: int| i <= k < n ==> values(poly@)[k] == orig[k],
    {
        let ghost before = poly@;
        let updated = field_mul(poly[i], factor_power);
        poly.set(i, updated);
        proof {
            assert(before[i as int].value() == values(before)[i as int]);
            assert(values(poly@)[i as int] == updated.value());
            lemma_mul_mod_noop_right(orig[i as int], power(5, i as nat), modulus());
            assert forall|k: int| 0 <= k < n && k != i implies values(poly@)[k] == values(before)[k] by {
                assert(poly@[k] == before[k]);
            }
            assert forall|k: int| 0 <= k < i + 1 implies values(poly@)[k] == fe(orig[k] * power(5, k as nat)) by {
                if k < i {
                    assert(values(before)[k] == fe(orig[k] * power(5, k as nat)));
                }
            }
        }
        factor_power = field_mul(factor_power, shift_factor);
        proof {
            lemma_mul_mod_noop_left(power(5, i as nat), 5, modulus());
            assert(power(5, (i + 1) as nat) == 5 * power(5, i as nat));
            assert(power(5, i as nat) * 5 == 5 * power(5, i as nat)) by (nonlinear_arith);
        }
    }
    assert(values(poly@) =~= scale_powers(orig, 5));
}

/// All powers `g^0, g^1, ..., g^size` of the domain's generator `g`; the
/// last one is `1` again.
fn expand_root_of_unity(eval_domain: &Domain) -> (roots: Vec<Scalar>)
    requires
        eval_domain.wf(),
    ensures
        roots.len() == eval_domain.spec_size() + 1,
        forall|j: int|
            0 <= j <= eval_domain.spec_size() ==> #[trigger] roots@[j].value() == fe(
                power(eval_domain.spec_gen(), j as nat),
            ),
{
    let ghost g = eval_domain.spec_gen();
    let ghost n = eval_domain.spec_size();
    let size = eval_domain.size();
    let root_of_unity = eval_domain.group_gen();
    let mut roots: Vec<Scalar> = Vec::new();
    roots.push(Scalar::one());
    roots.push(root_of_unity);
    let mut i: usize = 1;
    proof {
        lemma_power2_below_32(eval_domain.spec_log_size());
        assert(power(g, 1) == g * power(g, 0));
        lemma_small_mod(g as nat, modulus() as nat);
        assert(roots@[0].value() == fe(power(g, 0)));
    }
    while !roots[i].is_one()
        invariant
            eval_domain.wf(),
            g == eval_domain.spec_gen(),
            n == eval_domain.spec_size(),
            size == n,
            1 <= n <= 0x8000_0000,
            root_of_unity.value() == g,
            1 <= i <= n,
            roots.len() == i + 1,
            forall|j: int| 0 <= j <= i ==> #[trigger] roots@[j].value() == fe(power(g, j as nat)),
        decreases n - i,
    {
        proof {
            if i == n {
                assert(roots@[i as int].value() == fe(power(g, i as nat)));
            }
        }
        let next = field_mul(roots[i], root_of_unity);
        roots.push(next);
        proof {
            lemma_mul_mod_noop_left(power(g, i as nat), g, modulus());
            assert(power(g, (i + 1) as nat) == g * power(g, i as nat));
            assert(power(g, i as nat) * g == g * power(g, i as nat)) by (nonlinear_arith);
            assert(roots@[i as int + 1].value() == fe(power(g, (i + 1) as nat)));
        }
        i += 1;
    }
    proof {
        assert(roots@[i as int].value() == fe(power(g, i as nat)));
    }
    roots
}

/// The positions, in increasing order, that `subset` leaves empty.
pub open spec fn missing_positions(subset: Seq<Option<Scalar>>) -> Seq<int>
    decreases subset.len(),
{
    if subset.len() == 0 {
        seq![]
    } else if subset.last() is None {
        missing_positions(subset.drop_last()).push(subset.len() - 1)
    } else {
        missing_positions(subset.drop_last())
    }
}

/// The step between the domain elements that stand for consecutive
/// positions of `subset`: the domain size divided by the number of positions.
pub open spec fn position_stride(d: Domain, subset: Seq<Option<Scalar>>) -> int {
    d.spec_size() as int / subset.len() as int
}

/// The coefficients, modulo `q` and padded with zeros to one per position, of
/// the zero polynomial: the monic polynomial whose roots are the domain
/// elements of the empty positions.
pub open spec fn zero_poly_coeffs(d: Domain, subset: Seq<Option<Scalar>>) -> Seq<int> {
    pad(
        reduce(
            poly_from_roots(
                erased_roots(d.spec_gen(), missing_positions(subset), position_stride(d, subset)),
            ),
        ),
        subset.len(),
    )
}

/// The evaluations of the zero polynomial over the domain.
pub open spec fn zero_evals(d: Domain, subset: Seq<Option<Scalar>>) -> Seq<int> {
    dft(zero_poly_coeffs(d, subset), d.spec_gen(), d.spec_size())
}

/// Every empty position is a position of the domain where the zero
/// polynomial's evaluation is zero.
pub open spec fn zero_checks_pass(d: Domain, subset: Seq<Option<Scalar>>) -> bool {
    forall|i: int|
        0 <= i < subset.len() && #[trigger] subset[i] is None ==> i < d.spec_size()
            && zero_evals(d, subset)[i] == 0
}

/// The available values times the zero polynomial's evaluations, and zero
/// at the empty positions.
pub open spec fn evals_with_zero(d: Domain, subset: Seq<Option<Scalar>>) -> Seq<int> {
    Seq::new(
        subset.len(),
        |i: int|
            match subset[i] {
                Some(v) => fe(v.value() * zero_evals(d, subset)[i]),
                None => 0,
            },
    )
}

/// The coefficients that the inverse transform gives for the evaluations
/// with zeros.
pub open spec fn poly_with_zero(d: Domain, subset: Seq<Option<Scalar>>) -> Seq<int> {
    idft(evals_with_zero(d, subset), d.spec_gen_inv(), d.spec_size_inv(), d.spec_size())
}

/// The evaluations over the domain of that polynomial at `X / 5`.
pub open spec fn coset_evals_with_zero(d: Domain, subset: Seq<Option<Scalar>>) -> Seq<int> {
    dft(scale_powers(poly_with_zero(d, subset), five_inv()), d.spec_gen(), d.spec_size())
}

/// The evaluations over the domain of the zero polynomial at `X / 5`.
pub open spec fn coset_zero_evals(d: Domain, subset: Seq<Option<Scalar>>) -> Seq<int> {
    dft(scale_powers(zero_poly_coeffs(d, subset), five_inv()), d.spec_gen(), d.spec_size())
}

/// The inverse of `x` modulo `q` (any value when there is none).
pub open spec fn field_inverse(x: int) -> int {
    choose|y: int| 0 <= y < modulus() && #[trigger] fe(x * y) == 1
}

/// The pointwise quotient of the two sets of evaluations at `X / 5`.
pub open spec fn coset_quotient(d: Domain, subset: Seq<Option<Scalar>>) -> Seq<int> {
    Seq::new(
        d.spec_size(),
        |i: int|
            fe(coset_evals_with_zero(d, subset)[i] * field_inverse(coset_zero_evals(d, subset)[i])),
    )
}

/// The evaluations over the domain of the quotient polynomial, brought back
/// from `X / 5` to `X`: what reconstruction returns.
pub open spec fn reconstructed(d: Domain, subset: Seq<Option<Scalar>>) -> Seq<int> {
    dft(
        scale_powers(
            idft(coset_quotient(d, subset), d.spec_gen_inv(), d.spec_size_inv(), d.spec_size()),
            5,
        ),
        d.spec_gen(),
        d.spec_size(),
    )
}

/// The inputs on which reconstruction runs to its end: there is at least one
/// position; every empty position outside the domain comes after an empty
/// position that fails the zero check; and when all checks pass, there are
/// no more positions than domain elements.
pub open spec fn reconstruct_defined(d: Domain, subset: Seq<Option<Scalar>>) -> bool {
    &&& subset.len() > 0
    &&& forall|i: int|
        0 <= i < subset.len() && #[trigger] subset[i] is None && i >= d.spec_size() ==> exists|j: int|
            0 <= j < i && #[trigger] subset[j] is None && j < d.spec_size() && zero_evals(d, subset)[j]
                != 0
    &&& zero_checks_pass(d, subset) ==> subset.len() <= d.spec_size()
}

/// The integers held by a sequence of `u64`.
pub open spec fn u64s(s: Seq<u64>) -> Seq<int> {
    s.map_values(|v: u64| v as int)
}

/// The roots `g^(m * stride)`, modulo `q`, for the positions `m` in `missing`.
pub open spec fn erased_roots(g: int, missing: Seq<int>, stride: int) -> Seq<int> {
    missing.map_values(|m: int| fe(power(g, (m * stride) as nat)))
}

/// One step of building the zero polynomial: from the coefficients of `P`
/// below its leading one, those of `P (X - r)` below its leading one.
proof fn lemma_mul_linear_step(p: Seq<int>, r: int, k: int)
    requires
        1 <= k < p.len(),
    ensures
        fe(fe(fe(p[k]) * fe(-r)) + fe(p[k - 1])) == fe(mul_linear(p, r)[k]),
{
    lemma_fe_mul(p[k], -r);
    lemma_fe_add(p[k] * (-r), p[k - 1]);
    assert(p[k] * (-r) + p[k - 1] == p[k - 1] - r * p[k]) by (nonlinear_arith);
}

/// The coefficients of the polynomial that vanishes at `g^(m * stride)` for
/// each `m` of `missing_indices`, padded with zeros to `length` entries, and
/// its evaluations over the domain.
fn zero_poly_fn(eval_domain: &Domain, missing_indices: &Vec<u64>, length: u64) -> (res: (
    Vec<Scalar>,
    Vec<Scalar>,
))
    requires
        eval_domain.wf(),
        0 < length <= usize::MAX,
        forall|m: int| 0 <= m < missing_indices.len() ==> #[trigger] missing_indices@[m] < length,
    ensures
        values(res.0@) == pad(
            reduce(
                poly_from_roots(
                    erased_roots(
                        eval_domain.spec_gen(),
                        u64s(missing_indices@),
                        eval_domain.spec_size() as int / length as int,
                    ),
                ),
            ),
            length as nat,
        ),
        values(res.1@) == dft(values(res.0@), eval_domain.spec_gen(), eval_domain.spec_size()),
{
    let ghost g = eval_domain.spec_gen();
    let ghost n = eval_domain.spec_size();
    let expanded_r_o_u = expand_root_of_unity(eval_domain);
    let domain_stride = eval_domain.size() as u64 / length;
    let ghost rs = erased_roots(g, u64s(missing_indices@), domain_stride as int);
    let mut zero_poly: Vec<Scalar> = Vec::with_capacity(length as usize);
    let count = missing_indices.len();
    proof {
        lemma_power2_below_32(eval_domain.spec_log_size());
        lemma_fundamental_div_mod(n as int, length as int);
        assert(rs.take(0) =~= Seq::<int>::empty());
    }
    for i in 0..count
        invariant
            eval_domain.wf(),
            g == eval_domain.spec_gen(),
            n == eval_domain.spec_size(),
            1 <= n <= 0x8000_0000,
            0 < length,
            domain_stride == (n as int) / (length as int),
            length * domain_stride <= n,
            count == missing_indices.len(),
            rs == erased_roots(g, u64s(missing_indices@), domain_stride as int),
            forall|m: int| 0 <= m < missing_indices.len() ==> #[trigger] missing_indices@[m] < length,
            expanded_r_o_u.len() == n + 1,
            forall|j: int| 0 <= j <= n ==> #[trigger] expanded_r_o_u@[j].value() == fe(power(g, j as nat)),
            zero_poly.len() == i,
            forall|k: int|
                0 <= k < i ==> #[trigger] values(zero_poly@)[k] == fe(
                    poly_from_roots(rs.take(i as int))[k],
                ),
    {
        let v = missing_indices[i];
        proof {
            lemma_mul_inequality(v as int, length as int, domain_stride as int);
        }
        let root = expanded_r_o_u[(v * domain_stride) as usize];
        let ghost r = rs[i as int];
        let ghost p = poly_from_roots(rs.take(i as int));
        let ghost np = poly_from_roots(rs.take(i + 1));
        proof {
            assert(rs.take(i + 1).drop_last() =~= rs.take(i as int));
            assert(np == mul_linear(p, r));
            lemma_poly_from_roots_monic(rs.take(i as int));
            assert(root.value() == r);
        }
        let sub = field_sub(Scalar::zero(), root);
        let ghost before_push = zero_poly@;
        zero_poly.push(sub);
        proof {
            lemma_values_push(before_push, sub);
        }
        if i > 0 {
            let ghost z0 = zero_poly@;
            let t = field_add(zero_poly[i], zero_poly[i - 1]);
            zero_poly.set(i, t);
            proof {
                lemma_values_update(z0, i as int, t);
                assert(values(z0)[i - 1] == values(before_push)[i - 1]);
                assert(values(z0)[i as int] == sub.value());
                assert(t.value() == fe(fe(-r) + fe(p[i - 1])));
                assert(values(zero_poly@)[i as int] == t.value());
                // the leading coefficient of p is one
                lemma_fe_add(-r, p[i - 1]);
                lemma_fe_twice(p[i - 1]);
                assert(fe(-r + p[i - 1]) == fe(np[i as int]));
            }
            let mut j: usize = i - 1;
            while j >= 1
                invariant
                    1 <= i,
                    j < i,
                    zero_poly.len() == i + 1,
                    p.len() == i + 1,
                    sub.value() == fe(-r),
                    np == mul_linear(p, r),
                    forall|k: int| j < k <= i ==> #[trigger] values(zero_poly@)[k] == fe(np[k]),
                    forall|k: int| 0 <= k <= j ==> #[trigger] values(zero_poly@)[k] == fe(p[k]),
                decreases j,
            {
                let ghost z1 = zero_poly@;
                let a = field_mul(zero_poly[j], sub);
                zero_poly.set(j, a);
                proof {
                    lemma_values_update(z1, j as int, a);
                }
                let ghost z2 = zero_poly@;
                let b = field_add(zero_poly[j], zero_poly[j - 1]);
                zero_poly.set(j, b);
                proof {
                    lemma_values_update(z2, j as int, b);
                    assert(values(z1)[j as int] == fe(p[j as int]));
                    assert(values(z1)[j - 1] == fe(p[j - 1]));
                    assert(a.value() == fe(fe(p[j as int]) * fe(-r)));
                    assert(values(z2)[j - 1] == values(z1)[j - 1]);
                    assert(b.value() == fe(fe(fe(p[j as int]) * fe(-r)) + fe(p[j - 1])));
                    assert(values(zero_poly@)[j as int] == b.value());
                    lemma_mul_linear_step(p, r, j as int);
                    assert(values(zero_poly@)[j as int] == fe(np[j as int]));
                }
                j -= 1;
            }
            let ghost z3 = zero_poly@;
            let c = field_mul(zero_poly[0], sub);
            zero_poly.set(0, c);
            proof {
                lemma_values_update(z3, 0, c);
                assert(values(z3)[0] == fe(p[0]));
                assert(c.value() == fe(fe(p[0]) * fe(-r)));
                assert(values(zero_poly@)[0] == c.value());
                lemma_fe_mul(p[0], -r);
                assert(p[0] * (-r) == 0 - r * p[0]) by (nonlinear_arith);
                assert(values(zero_poly@)[0] == fe(np[0]));
            }
        } else {
            proof {
                assert(p =~= seq![1int]);
                assert(np[0] == -r);
            }
        }
        proof {
            assert forall|k: int| 0 <= k < i + 1 implies #[trigger] values(zero_poly@)[k] == fe(
                poly_from_roots(rs.take(i + 1))[k],
            ) by {
                assert(np == poly_from_roots(rs.take(i + 1)));
            }
        }
    }
    let ghost full = poly_from_roots(rs);
    proof {
        assert(rs.take(count as int) =~= rs);
        lemma_poly_from_roots_monic(rs);
    }
    let ghost before_one = zero_poly@;
    let one = Scalar::one();
    zero_poly.push(one);
    proof {
        lemma_values_push(before_one, one);
        assert(values(zero_poly@) =~= reduce(full));
    }
    let len = length as usize;
    while zero_poly.len() < len
        invariant
            values(zero_poly@) == pad(reduce(full), zero_poly.len() as nat),
            zero_poly.len() >= reduce(full).len(),
            zero_poly.len() <= len || zero_poly.len() == reduce(full).len(),
        decreases len - zero_poly.len(),
    {
        let ghost before_zero = zero_poly@;
        let zero = Scalar::zero();
        zero_poly.push(zero);
        proof {
            lemma_values_push(before_zero, zero);
            assert(values(zero_poly@) =~= pad(reduce(full), zero_poly.len() as nat));
        }
    }
    proof {
        assert(values(zero_poly@) =~= pad(reduce(full), length as nat));
    }
    let zero_eval = domain_fft(eval_domain, &zero_poly);
    (zero_poly, zero_eval)
}

/// Reconstructs the evaluations over `eval_domain` of the polynomial whose
/// evaluations `subset` holds in part (`None` where one is missing).
///
/// It builds the polynomial `Z` vanishing at the missing points, multiplies
/// the available evaluations by those of `Z`, interpolates the product,
/// divides by `Z` on the coset `X / 5` where `Z` has no root, and evaluates
/// the quotient over the domain again. It fails when `Z` does not vanish at
/// every missing point.
pub fn reconstruct_poly(eval_domain: Domain, subset: Vec<Option<Scalar>>) -> (res: Result<
    Vec<Scalar>,
    String,
>)
    requires
        reconstruct_defined(eval_domain, subset@),
    ensures
        res is Err <==> !zero_checks_pass(eval_domain, subset@),
        res matches Err(e) ==> e@ == "bad zero poly evaluation !"@,
        res matches Ok(v) ==> values(v@) == reconstructed(eval_domain, subset@),
{
    proof {
        use_type_invariant(&eval_domain);
        lemma_power2_below_32(eval_domain.spec_log_size());
    }
    let ghost d = eval_domain;
    let ghost s = subset@;
    let n = subset.len();
    let mut missing_indices: Vec<u64> = Vec::new();
    proof {
        assert(s.take(0) =~= Seq::<Option<Scalar>>::empty());
    }
    for i in 0..n
        invariant
            n == s.len(),
            s == subset@,
            u64s(missing_indices@) == missing_positions(s.take(i as int)),
            forall|m: int| 0 <= m < missing_indices.len() ==> #[trigger] missing_indices@[m] < i,
    {
        let ghost before = missing_indices@;
        proof {
            assert(s.take(i + 1).drop_last() =~= s.take(i as int));
        }
        if let None = subset[i] {
            missing_indices.push(i as u64);
            proof {
                assert(u64s(missing_indices@) =~= u64s(before).push(i as int));
            }
        }
    }
    proof {
        assert(s.take(n as int) =~= s);
    }
    let (mut zero_poly, zero_eval) = zero_poly_fn(&eval_domain, &missing_indices, n as u64);
    proof {
        assert(values(zero_poly@) == zero_poly_coeffs(d, s));
        assert(values(zero_eval@) == zero_evals(d, s));
        assert(values(zero_eval@).len() == zero_eval.len());
    }
    for i in 0..n
        invariant
            n == s.len(),
            s == subset@,
            reconstruct_defined(d, s),
            d == eval_domain,
            values(zero_eval@) == zero_evals(d, s),
            zero_eval.len() == d.spec_size(),
            forall|k: int|
                0 <= k < i && #[trigger] s[k] is None ==> k < d.spec_size() && zero_evals(d, s)[k]
                    == 0,
    {
        if let None = subset[i] {
            proof {
                if i >= d.spec_size() {
                    let j = choose|j: int|
                        0 <= j < i && #[trigger] s[j] is None && j < d.spec_size() && zero_evals(
                            d,
                            s,
                        )[j] != 0;
                    assert(false);
                }
            }
            if !zero_eval[i].is_zero() {
                proof {
                    assert(values(zero_eval@)[i as int] == zero_eval@[i as int].value());
                    assert(s[i as int] is None);
                    assert(!zero_checks_pass(d, s));
                    assert(d == eval_domain);
                    assert(s == subset@);
                }
                return Err("bad zero poly evaluation !".to_owned());
            }
            proof {
                assert(values(zero_eval@)[i as int] == zero_eval@[i as int].value());
            }
        }
    }
    assert(zero_checks_pass(d, s));
    proof {
        lemma_coset_zero_evals_nonzero(d, s);
    }
    let mut poly_evals_with_zero: Vec<Scalar> = Vec::new();
    for i in 0..n
        invariant
            n == s.len(),
            s == subset@,
            n <= d.spec_size(),
            values(zero_eval@) == zero_evals(d, s),
            zero_eval.len() == d.spec_size(),
            poly_evals_with_zero.len() == i,
            forall|k: int|
                0 <= k < i ==> #[trigger] values(poly_evals_with_zero@)[k] == evals_with_zero(d, s)[k],
    {
        let ghost before = poly_evals_with_zero@;
        if let Some(v) = subset[i] {
            let e = field_mul(v, zero_eval[i]);
            poly_evals_with_zero.push(e);
            proof {
                assert(values(zero_eval@)[i as int] == zero_eval@[i as int].value());
            }
        } else {
            poly_evals_with_zero.push(Scalar::zero());
        }
        proof {
            assert(values(poly_evals_with_zero@)[i as int] == poly_evals_with_zero@[i as int].value());
            assert forall|k: int| 0 <= k < i implies #[trigger] values(poly_evals_with_zero@)[k]
                == evals_with_zero(d, s)[k] by {
                assert(poly_evals_with_zero@[k] == before[k]);
                assert(values(before)[k] == before[k].value());
            }
        }
    }
    proof {
        assert(values(poly_evals_with_zero@) =~= evals_with_zero(d, s));
    }
    let mut poly_with_zero = domain_ifft(&eval_domain, &poly_evals_with_zero);
    shift_poly(&mut poly_with_zero);
    shift_poly(&mut zero_poly);
    let mut eval_shifted_poly_with_zero = domain_fft(&eval_domain, &poly_with_zero);
    let eval_shifted_zero_poly = domain_fft(&eval_domain, &zero_poly);
    proof {
        assert(values(eval_shifted_poly_with_zero@) == coset_evals_with_zero(d, s));
        assert(values(eval_shifted_zero_poly@) == coset_zero_evals(d, s));
        assert(values(eval_shifted_zero_poly@).len() == eval_shifted_zero_poly.len());
        assert(values(eval_shifted_poly_with_zero@).len() == eval_shifted_poly_with_zero.len());
    }
    let size = eval_shifted_poly_with_zero.len();
    for i in 0..size
        invariant
            size == d.spec_size(),
            eval_shifted_poly_with_zero.len() == size,
            eval_shifted_zero_poly.len() == size,
            values(eval_shifted_zero_poly@) == coset_zero_evals(d, s),
            forall|k: int| 0 <= k < size ==> #[trigger] coset_zero_evals(d, s)[k] != 0,
            forall|k: int|
                0 <= k < i ==> #[trigger] values(eval_shifted_poly_with_zero@)[k] == coset_quotient(
                    d,
                    s,
                )[k],
            forall|k: int|
                i <= k < size ==> #[trigger] values(eval_shifted_poly_with_zero@)[k]
                    == coset_evals_with_zero(d, s)[k],
    {
        let ghost before = eval_shifted_poly_with_zero@;
        let z = eval_shifted_zero_poly[i];
        proof {
            assert(values(eval_shifted_zero_poly@)[i as int] == z.value());
        }
        let inv = field_invert(z).unwrap();
        proof {
            let y = field_inverse(z.value());
            assert(fe(z.value() * inv.value()) == 1);
            lemma_inverse_unique(z.value(), inv.value(), y);
        }
        let quotient = field_mul(eval_shifted_poly_with_zero[i], inv);
        eval_shifted_poly_with_zero.set(i, quotient);
        proof {
            lemma_values_update(before, i as int, quotient);
            assert(values(before)[i as int] == before[i as int].value());
        }
    }
    proof {
        assert(values(eval_shifted_poly_with_zero@) =~= coset_quotient(d, s));
    }
    let mut shifted_reconstructed_poly = domain_ifft(&eval_domain, &eval_shifted_poly_with_zero);
    unshift_poly(&mut shifted_reconstructed_poly);
    let reconstructed_data = domain_fft(&eval_domain, &shifted_reconstructed_poly);
    Ok(reconstructed_data)
}

} // verus!
