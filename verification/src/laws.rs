//! What reconstruction guarantees: from at least half of the evaluations of
//! a polynomial of degree below half the domain size, it gives back all of
//! them.

use vstd::prelude::*;
use vstd::arithmetic::div_mod::lemma_fundamental_div_mod_converse;
use crate::field::{Scalar, fe, modulus};
use crate::domain::Domain;
use crate::poly::{
    power, dft, idft, reduce, scale_powers, pad, trunc, peval, poly_from_roots, mul_linear, lemma_fe_mul,
    lemma_fe_twice, lemma_poly_from_roots_monic,
};
use crate::algebra::{
    root_product, times_roots, repeated_square, lemma_peval_pad, lemma_peval_trunc, lemma_peval_reduce,
    lemma_peval_cong_point, lemma_peval_scale, lemma_peval_poly_from_roots, lemma_peval_times_roots,
    lemma_root_product_vanishes, lemma_idft_dft, lemma_dft_idft, lemma_inverse_unique,
};
use crate::recovery::{
    five_inv, missing_positions, erased_roots, position_stride, zero_poly_coeffs, zero_evals,
    zero_checks_pass, evals_with_zero, poly_with_zero, coset_evals_with_zero, coset_zero_evals,
    field_inverse, coset_quotient, reconstructed, reconstruct_defined,
};

verus! {

broadcast use {crate::field::lemma_fe_bound, crate::field::Scalar::lemma_value_bound};

/// The empty positions are listed in increasing order, each exactly where
/// `subset` is empty.
pub proof fn lemma_missing_positions(subset: Seq<Option<Scalar>>)
    ensures
        missing_positions(subset).len() <= subset.len(),
        forall|m: int|
            0 <= m < missing_positions(subset).len() ==> 0 <= #[trigger] missing_positions(subset)[m]
                < subset.len() && subset[missing_positions(subset)[m]] is None,
        forall|i: int|
            0 <= i < subset.len() && #[trigger] subset[i] is None ==> exists|m: int|
                0 <= m < missing_positions(subset).len() && #[trigger] missing_positions(subset)[m] == i,
    decreases subset.len(),
{
    if subset.len() > 0 {
        let rest = subset.drop_last();
        lemma_missing_positions(rest);
        let mr = missing_positions(rest);
        let ms = missing_positions(subset);
        assert forall|m: int| 0 <= m < ms.len() implies 0 <= #[trigger] ms[m] < subset.len()
            && subset[ms[m]] is None by {
            if m < mr.len() {
                assert(ms[m] == mr[m]);
                assert(rest[mr[m]] == subset[mr[m]]);
            }
        }
        assert forall|i: int| 0 <= i < subset.len() && #[trigger] subset[i] is None implies exists|m: int|
            0 <= m < ms.len() && #[trigger] ms[m] == i by {
            if i < subset.len() - 1 {
                assert(rest[i] == subset[i]);
                let m = choose|m: int| 0 <= m < mr.len() && #[trigger] mr[m] == i;
                assert(ms[m] == mr[m]);
            } else {
                assert(ms[mr.len() as int] == i);
            }
        }
    }
}

/// With as many positions as domain elements, the zero polynomial has one
/// coefficient per position and its value at any point is the product of
/// the point minus each root `g^m` of an empty position `m`.
proof fn lemma_zero_poly_value(d: Domain, subset: Seq<Option<Scalar>>, x: int)
    requires
        d.wf(),
        subset.len() == d.spec_size(),
        missing_positions(subset).len() < subset.len(),
    ensures
        zero_poly_coeffs(d, subset).len() == subset.len(),
        fe(peval(zero_poly_coeffs(d, subset), x)) == fe(
            root_product(erased_roots(d.spec_gen(), missing_positions(subset), 1), x),
        ),
{
    let n = subset.len();
    assert(position_stride(d, subset) == 1) by {
        vstd::arithmetic::div_mod::lemma_div_by_self(n as int);
    }
    let rs = erased_roots(d.spec_gen(), missing_positions(subset), 1);
    let z = poly_from_roots(rs);
    lemma_poly_from_roots_monic(rs);
    lemma_peval_pad(reduce(z), n, x);
    lemma_peval_reduce(z, x);
    lemma_peval_poly_from_roots(rs, x);
}

/// With as many positions as domain elements, the zero polynomial vanishes
/// at the domain element of every empty position, so every zero check
/// passes.
pub proof fn lemma_zero_checks_pass(d: Domain, subset: Seq<Option<Scalar>>)
    requires
        d.wf(),
        subset.len() == d.spec_size(),
        missing_positions(subset).len() < subset.len(),
    ensures
        zero_checks_pass(d, subset),
{
    let n = subset.len();
    let g = d.spec_gen();
    let ms = missing_positions(subset);
    let rs = erased_roots(g, ms, 1);
    lemma_missing_positions(subset);
    assert forall|i: int| 0 <= i < n && #[trigger] subset[i] is None implies i < d.spec_size()
        && zero_evals(d, subset)[i] == 0 by {
        let x = power(g, i as nat);
        lemma_zero_poly_value(d, subset, x);
        let zp = zero_poly_coeffs(d, subset);
        assert(trunc(zp, n) == zp);
        let m = choose|m: int| 0 <= m < ms.len() && #[trigger] ms[m] == i;
        assert(rs[m] == fe(power(g, (i * 1) as nat)));
        assert((i * 1) as nat == i as nat);
        lemma_fe_twice(x);
        vstd::arithmetic::div_mod::lemma_sub_mod_noop(x, x, modulus());
        assert(fe(x - rs[m]) == 0) by {
            vstd::arithmetic::div_mod::lemma_sub_mod_noop_right(x, x, modulus());
        }
        lemma_root_product_vanishes(rs, x, m);
    }
}

/// `2^32`, the order of the field's largest subgroup of power-of-two order.
spec fn two_adic_order() -> nat {
    0x1_0000_0000
}

/// `5^(2^32)` modulo `q`.
proof fn lemma_five_to_two_adic_order()
    ensures
        fe(power(5, two_adic_order())) == 0x6e6d8e33c2b4c0b392e4c4c82809b0355c32d41b93dd3bbfbd9bdcce92ba18feint,
{
    crate::algebra::lemma_repeated_square(5, 32);
    crate::poly::lemma_power2_is_pow2(32);
    vstd::arithmetic::power2::lemma2_to64();
    vstd::arithmetic::div_mod::lemma_small_mod(5, modulus() as nat);
    assert(repeated_square(5, 0) == 5);
    assert(repeated_square(5, 1) == 0x19int) by {
        lemma_fundamental_div_mod_converse(0x5int * 0x5int, modulus(), 0x0int, 0x19int);
    }
    assert(repeated_square(5, 2) == 0x271int) by {
        lemma_fundamental_div_mod_converse(0x19int * 0x19int, modulus(), 0x0int, 0x271int);
    }
    assert(repeated_square(5, 3) == 0x5f5e1int) by {
        lemma_fundamental_div_mod_converse(0x271int * 0x271int, modulus(), 0x0int, 0x5f5e1int);
    }
    assert(repeated_square(5, 4) == 0x2386f26fc1int) by {
        lemma_fundamental_div_mod_converse(0x5f5e1int * 0x5f5e1int, modulus(), 0x0int, 0x2386f26fc1int);
    }
    assert(repeated_square(5, 5) == 0x4ee2d6d415b85acef81int) by {
        lemma_fundamental_div_mod_converse(0x2386f26fc1int * 0x2386f26fc1int, modulus(), 0x0int, 0x4ee2d6d415b85acef81int);
    }
    assert(repeated_square(5, 6) == 0x184f03e93ff9f4daa797ed6e38ed64bf6a1f01int) by {
        lemma_fundamental_div_mod_converse(0x4ee2d6d415b85acef81int * 0x4ee2d6d415b85acef81int, modulus(), 0x0int, 0x184f03e93ff9f4daa797ed6e38ed64bf6a1f01int);
    }
    assert(repeated_square(5, 7) == 0x6ca7cc74fe750b34b92227468eaf76a9fa45e9fd1c5e2d7e661f0b24c12e13fint) by {
        lemma_fundamental_div_mod_converse(0x184f03e93ff9f4daa797ed6e38ed64bf6a1f01int * 0x184f03e93ff9f4daa797ed6e38ed64bf6a1f01int, modulus(), 0x518e2825cc2int, 0x6ca7cc74fe750b34b92227468eaf76a9fa45e9fd1c5e2d7e661f0b24c12e13fint);
    }
    assert(repeated_square(5, 8) == 0x60f840641ec0d0c0d2b77b2d5a393b329442721fad05ab78c7b98f2aa3c20ec9int) by {
        lemma_fundamental_div_mod_converse(0x6ca7cc74fe750b34b92227468eaf76a9fa45e9fd1c5e2d7e661f0b24c12e13fint * 0x6ca7cc74fe750b34b92227468eaf76a9fa45e9fd1c5e2d7e661f0b24c12e13fint, modulus(), 0x65d6bfb786a2291d5ac3179d5e9789e04e76d17428a7399c80c24b3749beb8int, 0x60f840641ec0d0c0d2b77b2d5a393b329442721fad05ab78c7b98f2aa3c20ec9int);
    }
    assert(repeated_square(5, 9) == 0x3fd1182c055d84e64f5b339209af382f87f43ec32ed8849db83a9271447a6e66int) by {
        lemma_fundamental_div_mod_converse(0x60f840641ec0d0c0d2b77b2d5a393b329442721fad05ab78c7b98f2aa3c20ec9int * 0x60f840641ec0d0c0d2b77b2d5a393b329442721fad05ab78c7b98f2aa3c20ec9int, modulus(), 0x511c8fbf1d2754b5382b6dc591f931ae212d4dd87d76539c303db2dc1b042b6bint, 0x3fd1182c055d84e64f5b339209af382f87f43ec32ed8849db83a9271447a6e66int);
    }
    assert(repeated_square(5, 10) == 0x53ec6b496ddd8e6f62317c901b7a890448c40faa5a23759464397ea30426eb67int) by {
        lemma_fundamental_div_mod_converse(0x3fd1182c055d84e64f5b339209af382f87f43ec32ed8849db83a9271447a6e66int * 0x3fd1182c055d84e64f5b339209af382f87f43ec32ed8849db83a9271447a6e66int, modulus(), 0x232152140dc0ff7ab9c94e930da7aa1cad2372889b4d010402fe79d994ace53dint, 0x53ec6b496ddd8e6f62317c901b7a890448c40faa5a23759464397ea30426eb67int);
    }
    assert(repeated_square(5, 11) == 0x5939873dc509fccb23fbc811a83d80d0cb3f7328a068624b6ab01983aa0f1406int) by {
        lemma_fundamental_div_mod_converse(0x53ec6b496ddd8e6f62317c901b7a890448c40faa5a23759464397ea30426eb67int * 0x53ec6b496ddd8e6f62317c901b7a890448c40faa5a23759464397ea30426eb67int, modulus(), 0x3cc12010053b6ee7b3a1dfdddd48e301369b0b70aeb34bb0c3837c5748fb2f6bint, 0x5939873dc509fccb23fbc811a83d80d0cb3f7328a068624b6ab01983aa0f1406int);
    }
    assert(repeated_square(5, 12) == 0x1a79ac5adda673a44c6943ed5122edceb12ac1cce4ff5d471be737332d90af90int) by {
        lemma_fundamental_div_mod_converse(0x5939873dc509fccb23fbc811a83d80d0cb3f7328a068624b6ab01983aa0f1406int * 0x5939873dc509fccb23fbc811a83d80d0cb3f7328a068624b6ab01983aa0f1406int, modulus(), 0x44ac13875f950e530f76576871bfd6e9c1196c8406780e0ff75cbb0024b44094int, 0x1a79ac5adda673a44c6943ed5122edceb12ac1cce4ff5d471be737332d90af90int);
    }
    assert(repeated_square(5, 13) == 0x2f58d1ba23871dcdecfb842ff08f0bd49954796547ac64eadd16f3b0f6d00662int) by {
        lemma_fundamental_div_mod_converse(0x1a79ac5adda673a44c6943ed5122edceb12ac1cce4ff5d471be737332d90af90int * 0x1a79ac5adda673a44c6943ed5122edceb12ac1cce4ff5d471be737332d90af90int, modulus(), 0x60bdc2d3270282d965d547feba66c227f62f2b02df60153579139cba3962a9eint, 0x2f58d1ba23871dcdecfb842ff08f0bd49954796547ac64eadd16f3b0f6d00662int);
    }
    assert(repeated_square(5, 14) == 0xd678f735114bd53310fadf7b54b2d7b64e281f050274a62c9f110a37e614da5int) by {
        lemma_fundamental_div_mod_converse(0x2f58d1ba23871dcdecfb842ff08f0bd49954796547ac64eadd16f3b0f6d00662int * 0x2f58d1ba23871dcdecfb842ff08f0bd49954796547ac64eadd16f3b0f6d00662int, modulus(), 0x1356552bfa4483c325a1ea272f66c70654a4c4700df2e997f409a74a39076fdfint, 0xd678f735114bd53310fadf7b54b2d7b64e281f050274a62c9f110a37e614da5int);
    }
    assert(repeated_square(5, 15) == 0x4f2e223db9615721033c9ad2e2073ccae536fbf669013919cb965042fb61f2b1int) by {
        lemma_fundamental_div_mod_converse(0xd678f735114bd53310fadf7b54b2d7b64e281f050274a62c9f110a37e614da5int * 0xd678f735114bd53310fadf7b54b2d7b64e281f050274a62c9f110a37e614da5int, modulus(), 0x18cc89a7e0e29d190dc757f1d201f2b7284c6438a1b65273649d6ed5f34b9a8int, 0x4f2e223db9615721033c9ad2e2073ccae536fbf669013919cb965042fb61f2b1int);
    }
    assert(repeated_square(5, 16) == 0x46f47753f3bb12acf1efb45dbc49ee7d53daa9fb12c0017cfae32b16c4a78fbaint) by {
        lemma_fundamental_div_mod_converse(0x4f2e223db9615721033c9ad2e2073ccae536fbf669013919cb965042fb61f2b1int * 0x4f2e223db9615721033c9ad2e2073ccae536fbf669013919cb965042fb61f2b1int, modulus(), 0x3614b4294db4ea639873434ba0a472ae5eef422b8ee2fc42111f5e35218d8ea7int, 0x46f47753f3bb12acf1efb45dbc49ee7d53daa9fb12c0017cfae32b16c4a78fbaint);
    }
    assert(repeated_square(5, 17) == 0x24fe80aa7f5b85df9bd343f94b46d213faa3a1cef8fc03d3c21845058ae7b528int) by {
        lemma_fundamental_div_mod_converse(0x46f47753f3bb12acf1efb45dbc49ee7d53daa9fb12c0017cfae32b16c4a78fbaint * 0x46f47753f3bb12acf1efb45dbc49ee7d53daa9fb12c0017cfae32b16c4a78fbaint, modulus(), 0x2b6db8340d449db63632727ff761aad29c0ed8f4c535f2ff325f8ab01a759dfcint, 0x24fe80aa7f5b85df9bd343f94b46d213faa3a1cef8fc03d3c21845058ae7b528int);
    }
    assert(repeated_square(5, 18) == 0x5d010ba54882f1880a78e894f430eec05dcf22610bbf54b2fc65e31dd739e750int) by {
        lemma_fundamental_div_mod_converse(0x24fe80aa7f5b85df9bd343f94b46d213faa3a1cef8fc03d3c21845058ae7b528int * 0x24fe80aa7f5b85df9bd343f94b46d213faa3a1cef8fc03d3c21845058ae7b528int, modulus(), 0xbce274044e907096e32b98c71a74cfad5217a26b1dff198f2551069b727aef0int, 0x5d010ba54882f1880a78e894f430eec05dcf22610bbf54b2fc65e31dd739e750int);
    }
    assert(repeated_square(5, 19) == 0x6437cb64bc0327c4ab55b74b8f3d7b06af0869ad0faf34e7f27971b927979be1int) by {
        lemma_fundamental_div_mod_converse(0x5d010ba54882f1880a78e894f430eec05dcf22610bbf54b2fc65e31dd739e750int * 0x5d010ba54882f1880a78e894f430eec05dcf22610bbf54b2fc65e31dd739e750int, modulus(), 0x4a9cece5dcbb680eb9b712eabbb421c7de51806d849074df45f903270b09dd1fint, 0x6437cb64bc0327c4ab55b74b8f3d7b06af0869ad0faf34e7f27971b927979be1int);
    }
    assert(repeated_square(5, 20) == 0x312a891c3a47cafb15096c0035878b3513485d8f16bae21883caaa81722e5ecaint) by {
        lemma_fundamental_div_mod_converse(0x6437cb64bc0327c4ab55b74b8f3d7b06af0869ad0faf34e7f27971b927979be1int * 0x6437cb64bc0327c4ab55b74b8f3d7b06af0869ad0faf34e7f27971b927979be1int, modulus(), 0x56a2f8579d72457c6f58c650925afac6ee2a4437eed4a4c0afecaaef5e29dcf7int, 0x312a891c3a47cafb15096c0035878b3513485d8f16bae21883caaa81722e5ecaint);
    }
    assert(repeated_square(5, 21) == 0x5364bdf331653c577fc8152b8d1b56550ca69bb154c1ece409d5903d25ea9b0fint) by {
        lemma_fundamental_div_mod_converse(0x312a891c3a47cafb15096c0035878b3513485d8f16bae21883caaa81722e5ecaint * 0x312a891c3a47cafb15096c0035878b3513485d8f16bae21883caaa81722e5ecaint, modulus(), 0x14da0d7bba0f050b6d717b29d1e8ac6867efa649e91015191a45f07df5c65c55int, 0x5364bdf331653c577fc8152b8d1b56550ca69bb154c1ece409d5903d25ea9b0fint);
    }
    assert(repeated_square(5, 22) == 0x676826a2219c48a4a7c8043e9f6598aed6340e2b3018eb05f5e7d5a80e47fa3cint) by {
        lemma_fundamental_div_mod_converse(0x5364bdf331653c577fc8152b8d1b56550ca69bb154c1ece409d5903d25ea9b0fint * 0x5364bdf331653c577fc8152b8d1b56550ca69bb154c1ece409d5903d25ea9b0fint, modulus(), 0x3bfd4e22ada93dc68fb8f460977090a420f2bbc37ad50cdc41f9c7f51d0f30a5int, 0x676826a2219c48a4a7c8043e9f6598aed6340e2b3018eb05f5e7d5a80e47fa3cint);
    }
    assert(repeated_square(5, 23) == 0x63bd5475e77232f8e1d9514d05fd2a850f7892c19474b92950f8eb8724db922eint) by {
        lemma_fundamental_div_mod_converse(0x676826a2219c48a4a7c8043e9f6598aed6340e2b3018eb05f5e7d5a80e47fa3cint * 0x676826a2219c48a4a7c8043e9f6598aed6340e2b3018eb05f5e7d5a80e47fa3cint, modulus(), 0x5c3ce06bd2b66513ee3842b181b866e3b61f8212cafb44b9d200fab62d05abe2int, 0x63bd5475e77232f8e1d9514d05fd2a850f7892c19474b92950f8eb8724db922eint);
    }
    assert(repeated_square(5, 24) == 0xfe18eea977204704ec7b418e796a694025861e7f1f1c2762020bdd32c7f18ccint) by {
        lemma_fundamental_div_mod_converse(0x63bd5475e77232f8e1d9514d05fd2a850f7892c19474b92950f8eb8724db922eint * 0x63bd5475e77232f8e1d9514d05fd2a850f7892c19474b92950f8eb8724db922eint, modulus(), 0x55cfbd154d04a9627c19595455cf712cb236bd164249a5220defc79931ad6778int, 0xfe18eea977204704ec7b418e796a694025861e7f1f1c2762020bdd32c7f18ccint);
    }
    assert(repeated_square(5, 25) == 0x71d5f88affe9cc0ef432caaa7d02f9f8468f5d882a663ca427ccc3bff3d9b3baint) by {
        lemma_fundamental_div_mod_converse(0xfe18eea977204704ec7b418e796a694025861e7f1f1c2762020bdd32c7f18ccint * 0xfe18eea977204704ec7b418e796a694025861e7f1f1c2762020bdd32c7f18ccint, modulus(), 0x22cf16e292c3c5556561072de508df99be369abfaeeed1ee00472fdc8f52ed6int, 0x71d5f88affe9cc0ef432caaa7d02f9f8468f5d882a663ca427ccc3bff3d9b3baint);
    }
    assert(repeated_square(5, 26) == 0x574512c7ca3c6845c6dafd0c68b94a66bb685e3c201b6fbead29435fab810b9eint) by {
        lemma_fundamental_div_mod_converse(0x71d5f88affe9cc0ef432caaa7d02f9f8468f5d882a663ca427ccc3bff3d9b3baint * 0x71d5f88affe9cc0ef432caaa7d02f9f8468f5d882a663ca427ccc3bff3d9b3baint, modulus(), 0x6fc7f50c87f3f129afda305037fc7b3718de62bdbdff4f437e35e407a0009786int, 0x574512c7ca3c6845c6dafd0c68b94a66bb685e3c201b6fbead29435fab810b9eint);
    }
    assert(repeated_square(5, 27) == 0x461f9095a064d8124e2d76ded8df0a9215fd7891016f38b845a0cba7dd5db03dint) by {
        lemma_fundamental_div_mod_converse(0x574512c7ca3c6845c6dafd0c68b94a66bb685e3c201b6fbead29435fab810b9eint * 0x574512c7ca3c6845c6dafd0c68b94a66bb685e3c201b6fbead29435fab810b9eint, modulus(), 0x41b2293c83b6a50f97cbf34fd7669686acb600a2a7e0cf1b34217374ec654547int, 0x461f9095a064d8124e2d76ded8df0a9215fd7891016f38b845a0cba7dd5db03dint);
    }
    assert(repeated_square(5, 28) == 0xcc0d0928237999213dae9af501dca37e05c0ecf8fe3433f9c0ec1e62b0e3836int) by {
        lemma_fundamental_div_mod_converse(0x461f9095a064d8124e2d76ded8df0a9215fd7891016f38b845a0cba7dd5db03dint * 0x461f9095a064d8124e2d76ded8df0a9215fd7891016f38b845a0cba7dd5db03dint, modulus(), 0x2a6aa1701f3c4ff158e8f9104ffaa303638e8f399ba00a9b63f08695ac97b653int, 0xcc0d0928237999213dae9af501dca37e05c0ecf8fe3433f9c0ec1e62b0e3836int);
    }
    assert(repeated_square(5, 29) == 0x6759acd345a814b5b038d67b9b1d33a837b0cc8d2849ddd431cb9eb4f4e5cce9int) by {
        lemma_fundamental_div_mod_converse(0xcc0d0928237999213dae9af501dca37e05c0ecf8fe3433f9c0ec1e62b0e3836int * 0xcc0d0928237999213dae9af501dca37e05c0ecf8fe3433f9c0ec1e62b0e3836int, modulus(), 0x16728dde12ef5d937de67c2f56e5a4889f1122a97c715a1fb02747a6159de7bint, 0x6759acd345a814b5b038d67b9b1d33a837b0cc8d2849ddd431cb9eb4f4e5cce9int);
    }
    assert(repeated_square(5, 30) == 0x69301d4609aa6baba7cddbd3c54ec17db43bd6cf3f594b0c7ad0df860a55652dint) by {
        lemma_fundamental_div_mod_converse(0x6759acd345a814b5b038d67b9b1d33a837b0cc8d2849ddd431cb9eb4f4e5cce9int * 0x6759acd345a814b5b038d67b9b1d33a837b0cc8d2849ddd431cb9eb4f4e5cce9int, modulus(), 0x5c230f256a52d892d407c26197e0bc0c9b4c2ebceb81fac3019c87ea5a88c6e4int, 0x69301d4609aa6baba7cddbd3c54ec17db43bd6cf3f594b0c7ad0df860a55652dint);
    }
    assert(repeated_square(5, 31) == 0xf20b4bfb3ecaccd60214e85d68e774b5bfbef490bb1809afea87b9d013b91b6int) by {
        lemma_fundamental_div_mod_converse(0x69301d4609aa6baba7cddbd3c54ec17db43bd6cf3f594b0c7ad0df860a55652dint * 0x69301d4609aa6baba7cddbd3c54ec17db43bd6cf3f594b0c7ad0df860a55652dint, modulus(), 0x5f714fa20e0d4434bf2612636486f680d45dcc392ebd8f48c12f9615daa2f833int, 0xf20b4bfb3ecaccd60214e85d68e774b5bfbef490bb1809afea87b9d013b91b6int);
    }
    assert(repeated_square(5, 32) == 0x6e6d8e33c2b4c0b392e4c4c82809b0355c32d41b93dd3bbfbd9bdcce92ba18feint) by {
        lemma_fundamental_div_mod_converse(0xf20b4bfb3ecaccd60214e85d68e774b5bfbef490bb1809afea87b9d013b91b6int * 0xf20b4bfb3ecaccd60214e85d68e774b5bfbef490bb1809afea87b9d013b91b6int, modulus(), 0x1f95bc170776ec0c383f8881329e32f1a28d507b169ec3fc074d9d356199466int, 0x6e6d8e33c2b4c0b392e4c4c82809b0355c32d41b93dd3bbfbd9bdcce92ba18feint);
    }
}

/// The quotient `(x^n - y^n) / (x - y)`: the sum of `x^k y^(n-1-k)` for `k < n`.
spec fn diff_quot(x: int, y: int, n: nat) -> int
    decreases n,
{
    if n == 0 {
        0
    } else {
        power(x, (n - 1) as nat) + y * diff_quot(x, y, (n - 1) as nat)
    }
}

/// `(x - y) (x^(n-1) + x^(n-2) y + ... + y^(n-1)) = x^n - y^n`.
proof fn lemma_diff_powers(x: int, y: int, n: nat)
    ensures
        (x - y) * diff_quot(x, y, n) == power(x, n) - power(y, n),
    decreases n,
{
    if n > 0 {
        let n1 = (n - 1) as nat;
        lemma_diff_powers(x, y, n1);
        let px = power(x, n1);
        let py = power(y, n1);
        let dq = diff_quot(x, y, n1);
        assert((x - y) * (px + y * dq) == x * px - y * py) by (nonlinear_arith)
            requires
                (x - y) * dq == px - py,
        ;
    }
}

/// `x` has a multiplicative inverse modulo `q`.
spec fn has_inverse(x: int) -> bool {
    exists|y: int| 0 <= y < modulus() && #[trigger] fe(x * y) == 1
}

/// Invertibility depends on the residue only.
proof fn lemma_has_inverse_cong(a: int, b: int)
    requires
        has_inverse(a),
        fe(a) == fe(b),
    ensures
        has_inverse(b),
{
    let y = choose|y: int| 0 <= y < modulus() && #[trigger] fe(a * y) == 1;
    vstd::arithmetic::div_mod::lemma_mul_mod_noop_left(a, y, modulus());
    vstd::arithmetic::div_mod::lemma_mul_mod_noop_left(b, y, modulus());
    assert(fe(b * y) == 1);
}

/// A product of invertible factors is invertible.
proof fn lemma_root_product_invertible(rs: Seq<int>, x: int)
    requires
        forall|m: int| 0 <= m < rs.len() ==> has_inverse(x - #[trigger] rs[m]),
    ensures
        has_inverse(root_product(rs, x)),
    decreases rs.len(),
{
    let q = modulus();
    if rs.len() == 0 {
        assert(fe(1int * 1int) == 1);
    } else {
        let init = rs.drop_last();
        assert forall|m: int| 0 <= m < init.len() implies has_inverse(x - #[trigger] init[m]) by {
            assert(init[m] == rs[m]);
        }
        lemma_root_product_invertible(init, x);
        let a = root_product(init, x);
        let b = x - rs.last();
        assert(has_inverse(x - rs[rs.len() - 1]));
        let ia = choose|y: int| 0 <= y < q && #[trigger] fe(a * y) == 1;
        let ib = choose|y: int| 0 <= y < q && #[trigger] fe(b * y) == 1;
        let w = fe(ia * ib);
        assert((a * b) * (ia * ib) == (a * ia) * (b * ib)) by (nonlinear_arith);
        vstd::arithmetic::div_mod::lemma_mul_mod_noop_right(a * b, ia * ib, q);
        lemma_fe_mul(a * ia, b * ib);
        assert(fe(1int * 1int) == 1);
        assert(fe((a * b) * w) == 1);
    }
}

/// For `x` and `r` in the subgroup of order `2^32`, `x / 5 - r` is
/// invertible: `5` lies outside that subgroup, and `1 - 5^(2^32)` is
/// invertible.
proof fn lemma_coset_factor_invertible(x: int, r: int)
    requires
        fe(power(x, two_adic_order())) == 1,
        fe(power(r, two_adic_order())) == 1,
    ensures
        has_inverse(five_inv() * x - r),
{
    let q = modulus();
    let nn = two_adic_order();
    let f = five_inv();
    let z = 5 * r;
    let p5: int = 0x6e6d8e33c2b4c0b392e4c4c82809b0355c32d41b93dd3bbfbd9bdcce92ba18feint;
    let c: int = 0x4a55a71525542b61a5573fda6e8b6fabd0d03d3bc22222651ebf32f9c8284618int;
    // z^N = 5^N r^N = 5^N
    lemma_five_to_two_adic_order();
    crate::algebra::lemma_power_distributes(5, r, nn);
    lemma_fe_mul(power(5, nn), power(r, nn));
    vstd::arithmetic::div_mod::lemma_small_mod(p5 as nat, q as nat);
    assert(fe(power(z, nn)) == p5);
    // (x - z) D = x^N - z^N = 1 - 5^N
    let dq = diff_quot(x, z, nn);
    lemma_diff_powers(x, z, nn);
    vstd::arithmetic::div_mod::lemma_sub_mod_noop(power(x, nn), power(z, nn), q);
    assert(fe((x - z) * dq) == fe(1 - p5));
    // and 1 - 5^N has the inverse c
    assert(fe((1 - p5) * c) == 1) by {
        lemma_fundamental_div_mod_converse(
            (1 - p5) * c,
            q,
            -0x46cec39288fb807785393575f5df52c543e7e319761d0f77d65bbde433cf85b9int,
            1,
        );
    }
    // (f x - r) 5 = x - z + (5 f - 1) x
    let t = f * x - r;
    let k: int = 3;
    assert(5 * f - 1 == k * q);
    assert(t * 5 == (x - z) + (k * x) * q) by (nonlinear_arith)
        requires
            t == f * x - r,
            z == 5 * r,
            5 * f - 1 == k * q,
    ;
    vstd::arithmetic::div_mod::lemma_mod_multiples_vanish(k * x, x - z, q);
    assert(fe(t * 5) == fe(x - z));
    // so 5 D c is an inverse of t
    let w = fe(5 * (dq * c));
    assert(t * (5 * (dq * c)) == ((t * 5) * dq) * c) by (nonlinear_arith);
    vstd::arithmetic::div_mod::lemma_mul_mod_noop_right(t, 5 * (dq * c), q);
    vstd::arithmetic::div_mod::lemma_mul_mod_noop_left(t * 5, dq, q);
    vstd::arithmetic::div_mod::lemma_mul_mod_noop_left(x - z, dq, q);
    vstd::arithmetic::div_mod::lemma_mul_mod_noop_left((t * 5) * dq, c, q);
    vstd::arithmetic::div_mod::lemma_mul_mod_noop_left((x - z) * dq, c, q);
    vstd::arithmetic::div_mod::lemma_mul_mod_noop_left(1 - p5, c, q);
    assert(fe(t * w) == 1);
}

/// The number of positions of `subset` that hold a value.
pub open spec fn available_count(subset: Seq<Option<Scalar>>) -> nat {
    (subset.len() - missing_positions(subset).len()) as nat
}

/// The data polynomial cut to as many coefficients as there are available
/// values.
pub open spec fn low_part(data: Seq<int>, subset: Seq<Option<Scalar>>) -> Seq<int> {
    trunc(data, available_count(subset))
}

/// The hypotheses of the general recovery law: `subset` has one position per
/// domain element, at least one of them holds a value, and each available
/// value is the evaluation at its domain element of `data`, a polynomial of
/// at most `n` coefficients whose degree is below the number of available
/// values.
pub open spec fn low_degree_inputs(d: Domain, data: Seq<int>, subset: Seq<Option<Scalar>>) -> bool {
    &&& d.wf()
    &&& subset.len() == d.spec_size()
    &&& data.len() <= d.spec_size()
    &&& missing_positions(subset).len() < subset.len()
    &&& forall|k: int| available_count(subset) <= k < data.len() ==> #[trigger] data[k] == 0
    &&& forall|i: int|
        0 <= i < subset.len() && #[trigger] subset[i] is Some ==> subset[i]->0.value() == dft(
            data,
            d.spec_gen(),
            d.spec_size(),
        )[i]
}

/// The hypotheses of the recovery law: `subset` has one position per domain
/// element, at most half of them are empty, and each available value is the
/// evaluation at its domain element of `data`, a polynomial of at most `n`
/// coefficients whose upper half is zero.
pub open spec fn recovery_inputs(d: Domain, data: Seq<int>, subset: Seq<Option<Scalar>>) -> bool {
    &&& d.wf()
    &&& subset.len() == d.spec_size()
    &&& data.len() <= d.spec_size()
    &&& forall|k: int| d.spec_size() / 2 <= k < data.len() ==> #[trigger] data[k] == 0
    &&& missing_positions(subset).len() <= subset.len() / 2
    &&& forall|i: int|
        0 <= i < subset.len() && #[trigger] subset[i] is Some ==> subset[i]->0.value() == dft(
            data,
            d.spec_gen(),
            d.spec_size(),
        )[i]
}

/// Under the general recovery inputs, the data polynomial and its low part.
proof fn lemma_data_facts(d: Domain, data: Seq<int>, subset: Seq<Option<Scalar>>, x: int)
    requires
        low_degree_inputs(d, data, subset),
    ensures
        low_part(data, subset).len() <= available_count(subset),
        peval(low_part(data, subset), x) == peval(data, x),
        missing_positions(subset).len() < subset.len(),
{
    lemma_peval_trunc(data, available_count(subset), x);
}

/// The available values times the zero polynomial's evaluations are the
/// evaluations of the product of the data polynomial and the zero
/// polynomial.
proof fn lemma_evals_with_zero(d: Domain, data: Seq<int>, subset: Seq<Option<Scalar>>)
    requires
        low_degree_inputs(d, data, subset),
    ensures
        evals_with_zero(d, subset) == dft(
            times_roots(
                low_part(data, subset),
                erased_roots(d.spec_gen(), missing_positions(subset), 1),
            ),
            d.spec_gen(),
            d.spec_size(),
        ),
        times_roots(
            low_part(data, subset),
            erased_roots(d.spec_gen(), missing_positions(subset), 1),
        ).len() <= d.spec_size(),
{
    let n = d.spec_size();
    let g = d.spec_gen();
    let dl = low_part(data, subset);
    let rs = erased_roots(g, missing_positions(subset), 1);
    let p = times_roots(dl, rs);
    lemma_data_facts(d, data, subset, 0);
    lemma_peval_times_roots(dl, rs, 0);
    assert(p.len() <= n);
    lemma_zero_checks_pass(d, subset);
    let lhs = evals_with_zero(d, subset);
    let rhs = dft(p, g, n);
    assert forall|i: int| 0 <= i < n implies #[trigger] lhs[i] == rhs[i] by {
        let x = power(g, i as nat);
        lemma_data_facts(d, data, subset, x);
        lemma_peval_times_roots(dl, rs, x);
        lemma_zero_poly_value(d, subset, x);
        let zp = zero_poly_coeffs(d, subset);
        assert(trunc(zp, n) == zp);
        assert(trunc(p, n) == p);
        assert(trunc(data, n) == data);
        let a = peval(dl, x);
        let b = root_product(rs, x);
        assert(rhs[i] == fe(a * b));
        assert(zero_evals(d, subset)[i] == fe(b));
        lemma_fe_mul(a, b);
        if subset[i] is Some {
            assert(subset[i]->0.value() == fe(a));
        } else {
            assert(zero_evals(d, subset)[i] == 0);
            assert(fe(fe(a) * 0) == 0);
        }
    }
    assert(lhs =~= rhs);
}

/// The transform facts that a well-formed domain supplies.
proof fn lemma_domain_transform_facts(d: Domain)
    requires
        d.wf(),
    ensures
        fe(power(d.spec_gen(), d.spec_size())) == 1,
        0 <= d.spec_gen() < modulus(),
        0 <= d.spec_gen_inv() < modulus(),
{
    d.lemma_gen_inv_bound();
}

/// Transforming back at most `n` coefficients after transforming them over
/// a well-formed domain gives them again, reduced and padded.
proof fn lemma_domain_idft_dft(d: Domain, c: Seq<int>)
    requires
        d.wf(),
        c.len() <= d.spec_size(),
    ensures
        idft(dft(c, d.spec_gen(), d.spec_size()), d.spec_gen_inv(), d.spec_size_inv(), d.spec_size())
            == reduce(pad(c, d.spec_size())),
{
    lemma_domain_transform_facts(d);
    lemma_idft_dft(
        c,
        d.spec_gen(),
        d.spec_gen_inv(),
        d.spec_size_inv(),
        d.spec_log_size(),
        d.spec_size(),
    );
}

/// The quotient taken on the coset `X / 5` is the data polynomial's low half
/// evaluated there.
proof fn lemma_coset_quotient(d: Domain, data: Seq<int>, subset: Seq<Option<Scalar>>)
    requires
        low_degree_inputs(d, data, subset),
        forall|i: int| 0 <= i < d.spec_size() ==> has_inverse(#[trigger] coset_zero_evals(d, subset)[i]),
    ensures
        coset_quotient(d, subset) == dft(
            scale_powers(low_part(data, subset), five_inv()),
            d.spec_gen(),
            d.spec_size(),
        ),
{
    let n = d.spec_size();
    let g = d.spec_gen();
    let f = five_inv();
    let dl = low_part(data, subset);
    let rs = erased_roots(g, missing_positions(subset), 1);
    let p = times_roots(dl, rs);
    lemma_evals_with_zero(d, data, subset);
    lemma_domain_idft_dft(d, p);
    lemma_data_facts(d, data, subset, 0);
    let pwz = poly_with_zero(d, subset);
    assert(pwz == reduce(pad(p, n)));
    let lhs = coset_quotient(d, subset);
    let rhs = dft(scale_powers(dl, f), g, n);
    assert forall|i: int| 0 <= i < n implies #[trigger] lhs[i] == rhs[i] by {
        let y = power(g, i as nat);
        let fy = f * y;
        let a = peval(dl, fy);
        let b = root_product(rs, fy);
        // the product polynomial on the coset
        assert(trunc(scale_powers(pwz, f), n) == scale_powers(pwz, f));
        lemma_peval_scale(pwz, f, y);
        lemma_peval_reduce(pad(p, n), fy);
        lemma_peval_pad(p, n, fy);
        lemma_peval_times_roots(dl, rs, fy);
        let cewz = coset_evals_with_zero(d, subset)[i];
        assert(cewz == fe(a * b));
        // the zero polynomial on the coset
        let zp = zero_poly_coeffs(d, subset);
        lemma_zero_poly_value(d, subset, fy);
        assert(trunc(scale_powers(zp, f), n) == scale_powers(zp, f));
        lemma_peval_scale(zp, f, y);
        let z = coset_zero_evals(d, subset)[i];
        assert(z == fe(b));
        // dividing by it
        assert(has_inverse(z));
        let inv = field_inverse(z);
        assert(0 <= inv < modulus() && fe(z * inv) == 1);
        vstd::arithmetic::div_mod::lemma_mul_mod_noop_left(a * b, inv, modulus());
        vstd::arithmetic::div_mod::lemma_mul_mod_noop_right(a, b * inv, modulus());
        vstd::arithmetic::div_mod::lemma_mul_mod_noop_left(b, inv, modulus());
        assert((a * b) * inv == a * (b * inv)) by (nonlinear_arith);
        assert(lhs[i] == fe(cewz * inv));
        assert(fe(cewz * inv) == fe((a * b) * inv));
        assert(fe(b * inv) == fe(z * inv));
        assert(fe(b * inv) == 1);
        assert(fe(a * (b * inv)) == fe(a * 1));
        assert(lhs[i] == fe(a));
        // the low half on the coset
        assert(trunc(scale_powers(dl, f), n) == scale_powers(dl, f));
        lemma_peval_scale(dl, f, y);
    }
    assert(lhs =~= rhs);
}

/// A power of the domain's generator, raised to `2^32`, is one.
proof fn lemma_subgroup_power(d: Domain, a: nat)
    requires
        d.wf(),
    ensures
        fe(power(power(d.spec_gen(), a), two_adic_order())) == 1,
{
    let g = d.spec_gen();
    let n = d.spec_size();
    let log = d.spec_log_size();
    let nn = two_adic_order();
    // 2^32 = n 2^(32 - log)
    crate::algebra::lemma_power_add(2, log, (32 - log) as nat);
    assert((log + (32 - log) as nat) as nat == 32);
    crate::poly::lemma_power2_is_pow2(32);
    vstd::arithmetic::power2::lemma2_to64();
    crate::algebra::lemma_power2_positive((32 - log) as nat);
    crate::algebra::lemma_power2_positive(log);
    let e = power(2, (32 - log) as nat);
    assert(nn == n * e);
    // g^(a 2^32) = g^(n (a e)), a power of g^n
    crate::algebra::lemma_power_mul(g, a, nn);
    assert(a * nn == (a * e) * n) by (nonlinear_arith)
        requires
            nn == n * e,
    ;
    crate::algebra::lemma_power_cycle(g, n, a * nn);
    vstd::arithmetic::div_mod::lemma_mod_multiples_basic(a * e, n as int);
    assert(power(g, 0) == 1);
    vstd::arithmetic::div_mod::lemma_small_mod(1, modulus() as nat);
}

/// When every position is empty, the empty positions are `0, 1, ...`.
proof fn lemma_all_missing(subset: Seq<Option<Scalar>>)
    requires
        missing_positions(subset).len() == subset.len(),
    ensures
        forall|m: int| 0 <= m < subset.len() ==> #[trigger] missing_positions(subset)[m] == m,
    decreases subset.len(),
{
    if subset.len() > 0 {
        let rest = subset.drop_last();
        lemma_missing_positions(rest);
        if subset.last() is Some {
            assert(missing_positions(subset) == missing_positions(rest));
        } else {
            lemma_all_missing(rest);
        }
    }
}

/// Splitting off the last coefficient.
proof fn lemma_peval_last(c: Seq<int>, x: int)
    requires
        c.len() > 0,
    ensures
        peval(c, x) == peval(c.take(c.len() - 1), x) + c[c.len() - 1] * power(x, (c.len() - 1) as nat),
{
    let t = c.take(c.len() - 1);
    crate::algebra::lemma_fsum_ext(
        t.len(),
        |k: int| c[k] * power(x, k as nat),
        |k: int| t[k] * power(x, k as nat),
    );
}

/// With every position of a domain-long subset empty, the zero check at
/// position `0` fails: the zero polynomial `X^n - 1`, cut to `n` coefficients,
/// is `-1` at the point `1`.
proof fn lemma_all_missing_fails(d: Domain, subset: Seq<Option<Scalar>>)
    requires
        d.wf(),
        subset.len() == d.spec_size(),
        missing_positions(subset).len() == subset.len(),
    ensures
        !zero_checks_pass(d, subset),
{
    let n = d.spec_size();
    let g = d.spec_gen();
    let q = modulus();
    let ms = missing_positions(subset);
    lemma_missing_positions(subset);
    lemma_all_missing(subset);
    crate::algebra::lemma_power2_positive(d.spec_log_size());
    assert(position_stride(d, subset) == 1) by {
        vstd::arithmetic::div_mod::lemma_div_by_self(n as int);
    }
    let rs = erased_roots(g, ms, 1);
    let full = poly_from_roots(rs);
    lemma_poly_from_roots_monic(rs);
    let c = reduce(full);
    let zp = zero_poly_coeffs(d, subset);
    assert(zp == c);
    let t = trunc(c, n);
    assert(t == c.take(c.len() - 1));
    assert(power(g, 0) == 1);
    // the full product vanishes at 1, since 1 = g^0 is a root
    lemma_peval_reduce(full, 1);
    lemma_peval_poly_from_roots(rs, 1);
    assert(ms[0] == 0);
    assert(rs[0] == fe(power(g, 0)));
    vstd::arithmetic::div_mod::lemma_small_mod(1, q as nat);
    vstd::arithmetic::div_mod::lemma_small_mod(0, q as nat);
    lemma_root_product_vanishes(rs, 1, 0);
    // so the product cut before its leading 1 is -1
    lemma_peval_last(c, 1);
    crate::algebra::lemma_power_one(n);
    assert(c[n as int] == 1);
    let a = peval(t, 1);
    assert(fe(a + 1) == 0);
    vstd::arithmetic::div_mod::lemma_add_mod_noop(a, 1, q);
    assert(fe(a) != 0);
    assert(zero_evals(d, subset)[0] == fe(a));
    assert(subset[0] is None);
}

/// The value of the zero polynomial at a point `x / 5`, when it has no more
/// coefficients than domain elements.
proof fn lemma_coset_zero_value(d: Domain, subset: Seq<Option<Scalar>>, i: int)
    requires
        d.wf(),
        0 < subset.len() <= d.spec_size(),
        zero_poly_coeffs(d, subset).len() <= d.spec_size(),
        0 <= i < d.spec_size(),
    ensures
        coset_zero_evals(d, subset)[i] == fe(
            root_product(
                erased_roots(d.spec_gen(), missing_positions(subset), position_stride(d, subset)),
                five_inv() * power(d.spec_gen(), i as nat),
            ),
        ),
{
    let n = d.spec_size();
    let f = five_inv();
    let y = power(d.spec_gen(), i as nat);
    let rs = erased_roots(d.spec_gen(), missing_positions(subset), position_stride(d, subset));
    let full = poly_from_roots(rs);
    let zp = zero_poly_coeffs(d, subset);
    assert(trunc(scale_powers(zp, f), n) == scale_powers(zp, f));
    lemma_peval_scale(zp, f, y);
    lemma_peval_pad(reduce(full), subset.len(), f * y);
    lemma_peval_reduce(full, f * y);
    lemma_peval_poly_from_roots(rs, f * y);
}

/// The zero polynomial has an invertible value at every point `g^i / 5`.
proof fn lemma_coset_zero_evals_invertible(d: Domain, subset: Seq<Option<Scalar>>)
    requires
        d.wf(),
        0 < subset.len() <= d.spec_size(),
        zero_checks_pass(d, subset),
    ensures
        forall|i: int| 0 <= i < d.spec_size() ==> has_inverse(#[trigger] coset_zero_evals(d, subset)[i]),
{
    let n = d.spec_size();
    let g = d.spec_gen();
    let f = five_inv();
    let nn = two_adic_order();
    let ms = missing_positions(subset);
    let stride = position_stride(d, subset);
    let rs = erased_roots(g, ms, stride);
    lemma_missing_positions(subset);
    lemma_poly_from_roots_monic(rs);
    if ms.len() == subset.len() && subset.len() == n {
        lemma_all_missing_fails(d, subset);
    }
    assert(zero_poly_coeffs(d, subset).len() <= n);
    assert(stride >= 0) by {
        vstd::arithmetic::div_mod::lemma_div_pos_is_pos(n as int, subset.len() as int);
    }
    assert forall|i: int| 0 <= i < n implies has_inverse(#[trigger] coset_zero_evals(d, subset)[i]) by {
        let y = power(g, i as nat);
        lemma_coset_zero_value(d, subset, i);
        lemma_subgroup_power(d, i as nat);
        assert forall|m: int| 0 <= m < rs.len() implies has_inverse(f * y - #[trigger] rs[m]) by {
            let e = (ms[m] * stride) as nat;
            let pm = power(g, e);
            assert(ms[m] * stride >= 0) by (nonlinear_arith)
                requires
                    ms[m] >= 0,
                    stride >= 0,
            ;
            assert(rs[m] == fe(pm));
            lemma_subgroup_power(d, e);
            lemma_fe_twice(pm);
            crate::algebra::lemma_power_cong(fe(pm), pm, nn);
            lemma_coset_factor_invertible(y, rs[m]);
        }
        let rp = root_product(rs, f * y);
        lemma_root_product_invertible(rs, f * y);
        lemma_fe_twice(rp);
        lemma_has_inverse_cong(rp, coset_zero_evals(d, subset)[i]);
    }
}

/// Once every zero check passes on at most as many positions as domain
/// elements, no value of the zero polynomial at the points `g^i / 5` is zero:
/// `5` lies outside the subgroup of order `2^32`, so no such point is a root.
pub proof fn lemma_coset_zero_evals_nonzero(d: Domain, subset: Seq<Option<Scalar>>)
    requires
        d.wf(),
        0 < subset.len() <= d.spec_size(),
        zero_checks_pass(d, subset),
    ensures
        forall|i: int| 0 <= i < d.spec_size() ==> #[trigger] coset_zero_evals(d, subset)[i] != 0,
{
    lemma_coset_zero_evals_invertible(d, subset);
    assert forall|i: int| 0 <= i < d.spec_size() implies #[trigger] coset_zero_evals(d, subset)[i] != 0 by {
        assert(has_inverse(coset_zero_evals(d, subset)[i]));
        if coset_zero_evals(d, subset)[i] == 0 {
            let y = choose|y: int| 0 <= y < modulus() && #[trigger] fe(0 * y) == 1;
            assert(fe(0 * y) == 0);
        }
    }
}

/// Erasure recovery, in general: when the available values of `subset` are
/// the evaluations over the domain of a polynomial whose degree is below the
/// number of available values, reconstruction runs to its end without the
/// zero-check error and gives back the evaluations at every position; the
/// inverse transform of what it gives back is the polynomial's coefficients
/// modulo `q`.
pub proof fn lemma_reconstruction_recovers_low_degree(
    d: Domain,
    data: Seq<int>,
    subset: Seq<Option<Scalar>>,
)
    requires
        low_degree_inputs(d, data, subset),
    ensures
        reconstruct_defined(d, subset),
        zero_checks_pass(d, subset),
        reconstructed(d, subset) == dft(data, d.spec_gen(), d.spec_size()),
        idft(reconstructed(d, subset), d.spec_gen_inv(), d.spec_size_inv(), d.spec_size()) == reduce(
            pad(data, d.spec_size()),
        ),
{
    lemma_domain_idft_dft(d, data);
    lemma_data_facts(d, data, subset, 0);
    lemma_zero_checks_pass(d, subset);
    lemma_coset_zero_evals_invertible(d, subset);
    let n = d.spec_size();
    let g = d.spec_gen();
    let f = five_inv();
    let dl = low_part(data, subset);
    lemma_data_facts(d, data, subset, 0);
    lemma_zero_checks_pass(d, subset);
    lemma_coset_quotient(d, data, subset);
    let sd = scale_powers(dl, f);
    lemma_domain_idft_dft(d, sd);
    let r = idft(coset_quotient(d, subset), d.spec_gen_inv(), d.spec_size_inv(), n);
    assert(r == reduce(pad(sd, n)));
    let lhs = reconstructed(d, subset);
    let rhs = dft(data, g, n);
    assert forall|i: int| 0 <= i < n implies #[trigger] lhs[i] == rhs[i] by {
        let y = power(g, i as nat);
        assert(trunc(scale_powers(r, 5), n) == scale_powers(r, 5));
        lemma_peval_scale(r, 5, y);
        lemma_peval_reduce(pad(sd, n), 5 * y);
        lemma_peval_pad(sd, n, 5 * y);
        lemma_peval_scale(dl, f, 5 * y);
        // 5^-1 * 5 * y = y
        vstd::arithmetic::div_mod::lemma_mul_mod_noop_left(f * 5, y, modulus());
        assert(f * (5 * y) == (f * 5) * y) by (nonlinear_arith);
        assert(fe(f * 5) == 1);
        lemma_peval_cong_point(dl, f * (5 * y), y);
        lemma_data_facts(d, data, subset, y);
        assert(trunc(data, n) == data);
    }
    assert(lhs =~= rhs);
}

/// Erasure recovery from half: when the available values of `subset` are
/// the evaluations over the domain of a polynomial whose coefficients from
/// half the domain size on are zero, and at least half of the positions are
/// available, reconstruction runs to its end without the zero-check error
/// and gives back the evaluations at every position; the inverse transform
/// of what it gives back is the polynomial's coefficients modulo `q`.
pub proof fn lemma_reconstruction_recovers_evaluations(
    d: Domain,
    data: Seq<int>,
    subset: Seq<Option<Scalar>>,
)
    requires
        recovery_inputs(d, data, subset),
    ensures
        reconstruct_defined(d, subset),
        zero_checks_pass(d, subset),
        reconstructed(d, subset) == dft(data, d.spec_gen(), d.spec_size()),
        idft(reconstructed(d, subset), d.spec_gen_inv(), d.spec_size_inv(), d.spec_size()) == reduce(
            pad(data, d.spec_size()),
        ),
{
    let n = d.spec_size();
    crate::algebra::lemma_power2_positive(d.spec_log_size());
    assert(available_count(subset) >= n / 2);
    lemma_reconstruction_recovers_low_degree(d, data, subset);
}

/// The values held at the positions of `subset` (zero where it is empty).
pub open spec fn available_values(subset: Seq<Option<Scalar>>) -> Seq<int> {
    Seq::new(
        subset.len(),
        |i: int|
            match subset[i] {
                Some(v) => v.value(),
                None => 0,
            },
    )
}

/// With no empty position, the zero polynomial is the constant one.
proof fn lemma_complete_zero_poly(d: Domain, subset: Seq<Option<Scalar>>, x: int)
    requires
        d.wf(),
        0 < subset.len() <= d.spec_size(),
        forall|i: int| 0 <= i < subset.len() ==> #[trigger] subset[i] is Some,
    ensures
        missing_positions(subset).len() == 0,
        zero_poly_coeffs(d, subset).len() == subset.len(),
        fe(peval(zero_poly_coeffs(d, subset), x)) == 1,
{
    lemma_missing_positions(subset);
    let ms = missing_positions(subset);
    if ms.len() > 0 {
        assert(subset[ms[0]] is None);
    }
    let rs = erased_roots(d.spec_gen(), ms, position_stride(d, subset));
    assert(rs.len() == 0);
    let z = poly_from_roots(rs);
    assert(z == seq![1int]);
    lemma_peval_pad(reduce(z), subset.len(), x);
    lemma_peval_reduce(z, x);
    lemma_peval_poly_from_roots(rs, x);
    vstd::arithmetic::div_mod::lemma_small_mod(1, modulus() as nat);
}

/// Reconstruction from complete data: when no position of `subset` is empty
/// and there are no more positions than domain elements, reconstruction
/// runs to its end without the zero-check error and gives back the given
/// values, followed by zeros up to the domain size.
pub proof fn lemma_reconstruction_of_complete_subset(d: Domain, subset: Seq<Option<Scalar>>)
    requires
        d.wf(),
        0 < subset.len() <= d.spec_size(),
        forall|i: int| 0 <= i < subset.len() ==> #[trigger] subset[i] is Some,
    ensures
        reconstruct_defined(d, subset),
        zero_checks_pass(d, subset),
        reconstructed(d, subset) == pad(available_values(subset), d.spec_size()),
{
    let n = d.spec_size();
    let g = d.spec_gen();
    let f = five_inv();
    let q = modulus();
    lemma_domain_transform_facts(d);
    let zp = zero_poly_coeffs(d, subset);
    lemma_complete_zero_poly(d, subset, 0);
    assert(trunc(zp, n) == zp);
    // the zero polynomial evaluates to one everywhere, on the domain and on the coset
    let vals = available_values(subset);
    assert(evals_with_zero(d, subset) =~= vals) by {
        assert forall|i: int| 0 <= i < subset.len() implies #[trigger] evals_with_zero(d, subset)[i]
            == vals[i] by {
            lemma_complete_zero_poly(d, subset, power(g, i as nat));
            assert(zero_evals(d, subset)[i] == 1);
            let v = subset[i]->0.value();
            vstd::arithmetic::div_mod::lemma_small_mod(v as nat, q as nat);
        }
    }
    let czev = coset_zero_evals(d, subset);
    assert forall|i: int| 0 <= i < n implies #[trigger] czev[i] == 1 by {
        let y = power(g, i as nat);
        assert(trunc(scale_powers(zp, f), n) == scale_powers(zp, f));
        lemma_peval_scale(zp, f, y);
        lemma_complete_zero_poly(d, subset, f * y);
    }
    // dividing by one changes nothing
    let pwz = poly_with_zero(d, subset);
    let sp = scale_powers(pwz, f);
    let cewz = coset_evals_with_zero(d, subset);
    assert(coset_quotient(d, subset) =~= cewz) by {
        assert forall|i: int| 0 <= i < n implies #[trigger] coset_quotient(d, subset)[i] == cewz[i] by {
            let inv = field_inverse(czev[i]);
            assert(fe(1int * 1int) == 1);
            assert(0 <= inv < q && fe(1 * inv) == 1);
            lemma_inverse_unique(1, inv, 1);
            vstd::arithmetic::div_mod::lemma_small_mod(cewz[i] as nat, q as nat);
        }
    }
    // back from the coset
    assert(sp.len() == n);
    lemma_domain_idft_dft(d, sp);
    let r = idft(cewz, d.spec_gen_inv(), d.spec_size_inv(), n);
    assert(r =~= sp) by {
        assert forall|k: int| 0 <= k < n implies #[trigger] r[k] == sp[k] by {
            lemma_fe_twice(pwz[k] * power(f, k as nat));
        }
    }
    // the values come back
    lemma_dft_idft(vals, g, d.spec_gen_inv(), d.spec_size_inv(), d.spec_log_size(), n);
    let lhs = reconstructed(d, subset);
    let rhs = pad(vals, n);
    assert forall|i: int| 0 <= i < n implies #[trigger] lhs[i] == rhs[i] by {
        let y = power(g, i as nat);
        assert(trunc(scale_powers(r, 5), n) == scale_powers(r, 5));
        lemma_peval_scale(r, 5, y);
        lemma_peval_scale(pwz, f, 5 * y);
        vstd::arithmetic::div_mod::lemma_mul_mod_noop_left(f * 5, y, q);
        assert(f * (5 * y) == (f * 5) * y) by (nonlinear_arith);
        assert(fe(f * 5) == 1);
        lemma_peval_cong_point(pwz, f * (5 * y), y);
        assert(trunc(pwz, n) == pwz);
        assert(dft(pwz, g, n)[i] == fe(peval(pwz, y)));
        assert(reduce(rhs)[i] == fe(rhs[i]));
        if i < vals.len() {
            vstd::arithmetic::div_mod::lemma_small_mod(vals[i] as nat, q as nat);
        }
    }
    assert(lhs =~= rhs);
}

/// Unshifting undoes shifting: multiplying coefficient `i` by `5^-i` and
/// then by `5^i` gives every coefficient back, modulo `q`.
pub proof fn lemma_unshift_undoes_shift(c: Seq<int>)
    ensures
        scale_powers(scale_powers(c, five_inv()), 5) == reduce(c),
{
    let q = modulus();
    let f = five_inv();
    let lhs = scale_powers(scale_powers(c, f), 5);
    assert forall|i: int| 0 <= i < c.len() implies #[trigger] lhs[i] == reduce(c)[i] by {
        let k = i as nat;
        let pf = power(f, k);
        let p5 = power(5, k);
        vstd::arithmetic::div_mod::lemma_mul_mod_noop_left(c[i] * pf, p5, q);
        assert((c[i] * pf) * p5 == c[i] * (pf * p5)) by (nonlinear_arith);
        crate::algebra::lemma_power_distributes(f, 5, k);
        assert(fe(f * 5) == 1);
        vstd::arithmetic::div_mod::lemma_small_mod(1, q as nat);
        crate::algebra::lemma_power_cong(f * 5, 1, k);
        crate::algebra::lemma_power_one(k);
        lemma_fe_mul(c[i], pf * p5);
        lemma_fe_mul(c[i], 1);
    }
    assert(lhs =~= reduce(c));
}

/// Shifting undoes unshifting: multiplying coefficient `i` by `5^i` and
/// then by `5^-i` gives every coefficient back, modulo `q`.
pub proof fn lemma_shift_undoes_unshift(c: Seq<int>)
    ensures
        scale_powers(scale_powers(c, 5), five_inv()) == reduce(c),
{
    let q = modulus();
    let f = five_inv();
    let lhs = scale_powers(scale_powers(c, 5), f);
    assert forall|i: int| 0 <= i < c.len() implies #[trigger] lhs[i] == reduce(c)[i] by {
        let k = i as nat;
        let pf = power(f, k);
        let p5 = power(5, k);
        vstd::arithmetic::div_mod::lemma_mul_mod_noop_left(c[i] * p5, pf, q);
        assert((c[i] * p5) * pf == c[i] * (pf * p5)) by (nonlinear_arith);
        crate::algebra::lemma_power_distributes(f, 5, k);
        assert(fe(f * 5) == 1);
        vstd::arithmetic::div_mod::lemma_small_mod(1, q as nat);
        crate::algebra::lemma_power_cong(f * 5, 1, k);
        crate::algebra::lemma_power_one(k);
        lemma_fe_mul(c[i], pf * p5);
        lemma_fe_mul(c[i], 1);
    }
    assert(lhs =~= reduce(c));
}

/// Multiplying by two linear factors in either order gives the same
/// coefficients.
proof fn lemma_mul_linear_swap(c: Seq<int>, r1: int, r2: int)
    ensures
        mul_linear(mul_linear(c, r1), r2) == mul_linear(mul_linear(c, r2), r1),
{
    let a = mul_linear(mul_linear(c, r1), r2);
    let b = mul_linear(mul_linear(c, r2), r1);
    let n = c.len();
    assert forall|k: int| 0 <= k < n + 2 implies #[trigger] a[k] == b[k] by {
        let c2 = if k >= 2 { c[k - 2] } else { 0 };
        let c1 = if 1 <= k && k - 1 < n { c[k - 1] } else { 0 };
        let c0 = if k < n { c[k] } else { 0 };
        let m1 = mul_linear(c, r1);
        let m2 = mul_linear(c, r2);
        let a1 = if k > 0 { m1[k - 1] } else { 0 };
        let b1 = if k < n + 1 { m1[k] } else { 0 };
        let a2 = if k > 0 { m2[k - 1] } else { 0 };
        let b2 = if k < n + 1 { m2[k] } else { 0 };
        assert(a1 == c2 - r1 * c1);
        assert(b1 == c1 - r1 * c0);
        assert(a2 == c2 - r2 * c1);
        assert(b2 == c1 - r2 * c0);
        assert(a[k] == a1 - r2 * b1);
        assert(b[k] == a2 - r1 * b2);
        assert((c2 - r1 * c1) - r2 * (c1 - r1 * c0) == (c2 - r2 * c1) - r1 * (c1 - r2 * c0))
            by (nonlinear_arith);
    }
    assert(a =~= b);
}

/// Any one root may be taken last.
proof fn lemma_poly_from_roots_move(rs: Seq<int>, j: int)
    requires
        0 <= j < rs.len(),
    ensures
        poly_from_roots(rs) == mul_linear(poly_from_roots(rs.remove(j)), rs[j]),
    decreases rs.len(),
{
    let last = rs.len() - 1;
    if j == last {
        assert(rs.remove(j) =~= rs.drop_last());
    } else {
        let init = rs.drop_last();
        lemma_poly_from_roots_move(init, j);
        assert(rs.remove(j).drop_last() =~= init.remove(j));
        assert(rs.remove(j).last() == rs.last());
        assert(init[j] == rs[j]);
        lemma_mul_linear_swap(poly_from_roots(init.remove(j)), rs[j], rs.last());
    }
}

/// The order of the empty positions does not matter: two lists of the same
/// positions, in any order, give the same zero polynomial.
pub proof fn lemma_zero_poly_order(g: int, p: Seq<int>, m: Seq<int>, stride: int)
    requires
        p.to_multiset() == m.to_multiset(),
    ensures
        poly_from_roots(erased_roots(g, p, stride)) == poly_from_roots(erased_roots(g, m, stride)),
    decreases p.len(),
{
    broadcast use vstd::seq_lib::group_to_multiset_ensures, vstd::multiset::group_multiset_axioms;
    vstd::seq_lib::to_multiset_len(p);
    vstd::seq_lib::to_multiset_len(m);
    if p.len() > 0 {
        let x = p.last();
        let pi = p.drop_last();
        assert(p =~= pi.push(x));
        vstd::seq_lib::to_multiset_build(pi, x);
        assert(p.to_multiset().count(x) > 0);
        vstd::seq_lib::to_multiset_contains(m, x);
        let j = choose|j: int| 0 <= j < m.len() && m[j] == x;
        vstd::seq_lib::to_multiset_remove(m, j);
        assert(pi.to_multiset() =~= m.remove(j).to_multiset());
        lemma_zero_poly_order(g, pi, m.remove(j), stride);
        let rm = erased_roots(g, m, stride);
        lemma_poly_from_roots_move(rm, j);
        assert(rm.remove(j) =~= erased_roots(g, m.remove(j), stride));
        assert(erased_roots(g, p, stride).drop_last() =~= erased_roots(g, pi, stride));
    } else {
        assert(m.len() == 0);
        assert(erased_roots(g, p, stride) =~= erased_roots(g, m, stride));
    }
}

/// `c` folded onto `n` coefficients: coefficient `j` plus coefficient
/// `j + n`. Over the `n`-th roots of unity it has the values of `c`.
spec fn fold(c: Seq<int>, n: nat) -> Seq<int> {
    Seq::new(
        n,
        |j: int|
            (if j < c.len() {
                c[j]
            } else {
                0
            }) + (if j + n < c.len() {
                c[j + n]
            } else {
                0
            }),
    )
}

/// Splitting a polynomial into its first `n` coefficients and the rest.
proof fn lemma_peval_split(c: Seq<int>, n: nat, x: int)
    requires
        n <= c.len(),
    ensures
        peval(c, x) == peval(c.take(n as int), x) + power(x, n) * peval(c.skip(n as int), x),
{
    let len = c.len();
    let m = (len - n) as nat;
    let f = |k: int| c[k] * power(x, k as nat);
    crate::algebra::lemma_fsum_split(n, m, f);
    assert((n + m) as nat == len);
    let lo = c.take(n as int);
    let hi = c.skip(n as int);
    crate::algebra::lemma_fsum_ext(n, f, |k: int| lo[k] * power(x, k as nat));
    let shifted = |i: int| f(n + i);
    let fh = |i: int| hi[i] * power(x, i as nat);
    assert forall|i: int| 0 <= i < m implies #[trigger] shifted(i) == power(x, n) * fh(i) by {
        crate::algebra::lemma_power_add(x, n, i as nat);
        assert((n + i) as nat == (n + (i as nat)) as nat);
        assert(hi[i] == c[n + i]);
        let a = c[n + i];
        let pn = power(x, n);
        let pi = power(x, i as nat);
        assert(a * (pn * pi) == pn * (a * pi)) by (nonlinear_arith);
    }
    crate::algebra::lemma_fsum_ext(m, shifted, |i: int| power(x, n) * fh(i));
    crate::algebra::lemma_fsum_scale(m, power(x, n), fh);
}

/// A polynomial of at most `2n` coefficients differs from its fold by
/// `x^n - 1` times its part from `n` on.
proof fn lemma_peval_fold(c: Seq<int>, n: nat, x: int)
    requires
        n <= c.len() <= 2 * n,
    ensures
        peval(c, x) == peval(fold(c, n), x) + (power(x, n) - 1) * peval(c.skip(n as int), x),
{
    lemma_peval_split(c, n, x);
    let lo = c.take(n as int);
    let hi = c.skip(n as int);
    let hp = pad(hi, n);
    let fl = fold(c, n);
    let ff = |k: int| fl[k] * power(x, k as nat);
    let fa = |k: int| lo[k] * power(x, k as nat);
    let fb = |k: int| hp[k] * power(x, k as nat);
    assert forall|k: int| 0 <= k < n implies #[trigger] ff(k) == fa(k) + fb(k) by {
        assert(fl[k] == lo[k] + hp[k]);
        let p = power(x, k as nat);
        assert((lo[k] + hp[k]) * p == lo[k] * p + hp[k] * p) by (nonlinear_arith);
    }
    crate::algebra::lemma_fsum_ext(n, ff, |k: int| fa(k) + fb(k));
    crate::algebra::lemma_fsum_add(n, fa, fb);
    lemma_peval_pad(hi, n, x);
    let pl = peval(lo, x);
    let ph = peval(hi, x);
    let xn = power(x, n);
    assert(pl + xn * ph == (pl + ph) + (xn - 1) * ph) by (nonlinear_arith);
}

/// `x |-> x^n` at a point `y / 5` with `y^n = 1` is never one: `5^n` is not
/// one, since `1 - 5^(2^32)` is invertible.
proof fn lemma_coset_power_invertible(d: Domain, y: int)
    requires
        d.wf(),
        fe(power(y, d.spec_size())) == 1,
    ensures
        has_inverse(power(five_inv() * y, d.spec_size()) - 1),
{
    let q = modulus();
    let n = d.spec_size();
    let log = d.spec_log_size();
    let f = five_inv();
    let nn = two_adic_order();
    // 2^32 = n e
    crate::algebra::lemma_power_add(2, log, (32 - log) as nat);
    assert((log + (32 - log) as nat) as nat == 32);
    crate::poly::lemma_power2_is_pow2(32);
    vstd::arithmetic::power2::lemma2_to64();
    crate::algebra::lemma_power2_positive((32 - log) as nat);
    let e = power(2, (32 - log) as nat) as nat;
    assert(nn == n * e);
    // (1 - 5^n) D = 1 - 5^(2^32) = 1 - p5
    let u = power(5, n);
    let dq = diff_quot(1, u, e);
    lemma_diff_powers(1, u, e);
    crate::algebra::lemma_power_one(e);
    crate::algebra::lemma_power_mul(5, n, e);
    lemma_five_to_two_adic_order();
    let p5: int = 0x6e6d8e33c2b4c0b392e4c4c82809b0355c32d41b93dd3bbfbd9bdcce92ba18feint;
    let c: int = 0x4a55a71525542b61a5573fda6e8b6fabd0d03d3bc22222651ebf32f9c8284618int;
    vstd::arithmetic::div_mod::lemma_sub_mod_noop(1, power(u, e), q);
    vstd::arithmetic::div_mod::lemma_sub_mod_noop(1, p5, q);
    vstd::arithmetic::div_mod::lemma_small_mod(p5 as nat, q as nat);
    assert(fe((1 - u) * dq) == fe(1 - p5));
    assert(fe((1 - p5) * c) == 1) by {
        lemma_fundamental_div_mod_converse(
            (1 - p5) * c,
            q,
            -0x46cec39288fb807785393575f5df52c543e7e319761d0f77d65bbde433cf85b9int,
            1,
        );
    }
    // ((y / 5)^n - 1) 5^n = y^n - 5^n = 1 - 5^n
    let a = power(f * y, n) - 1;
    crate::algebra::lemma_power_distributes(f * y, 5, n);
    assert(f * y * 5 == y + (3 * y) * q) by (nonlinear_arith)
        requires
            5 * f == 3 * q + 1,
    ;
    vstd::arithmetic::div_mod::lemma_mod_multiples_vanish(3 * y, y, q);
    crate::algebra::lemma_power_cong(f * y * 5, y, n);
    assert(a * u == power(f * y * 5, n) - u) by (nonlinear_arith)
        requires
            a == power(f * y, n) - 1,
            power(f * y * 5, n) == power(f * y, n) * u,
    ;
    vstd::arithmetic::div_mod::lemma_sub_mod_noop(power(f * y * 5, n), u, q);
    vstd::arithmetic::div_mod::lemma_sub_mod_noop(1, u, q);
    vstd::arithmetic::div_mod::lemma_small_mod(1, q as nat);
    assert(fe(a * u) == fe(1 - u));
    // so u D c is an inverse
    let w = fe(u * (dq * c));
    assert(a * (u * (dq * c)) == ((a * u) * dq) * c) by (nonlinear_arith);
    vstd::arithmetic::div_mod::lemma_mul_mod_noop_right(a, u * (dq * c), q);
    vstd::arithmetic::div_mod::lemma_mul_mod_noop_left(a * u, dq, q);
    vstd::arithmetic::div_mod::lemma_mul_mod_noop_left(1 - u, dq, q);
    vstd::arithmetic::div_mod::lemma_mul_mod_noop_left((a * u) * dq, c, q);
    vstd::arithmetic::div_mod::lemma_mul_mod_noop_left((1 - u) * dq, c, q);
    vstd::arithmetic::div_mod::lemma_mul_mod_noop_left(1 - p5, c, q);
    assert(fe(a * w) == 1);
}

/// A value whose product with an invertible one is zero is zero.
proof fn lemma_zero_factor(a: int, h: int)
    requires
        has_inverse(a),
        fe(a * h) == 0,
    ensures
        fe(h) == 0,
{
    let q = modulus();
    let w = choose|y: int| 0 <= y < q && #[trigger] fe(a * y) == 1;
    vstd::arithmetic::div_mod::lemma_mul_mod_noop_right(h, a * w, q);
    assert(h * (a * w) == (a * h) * w) by (nonlinear_arith);
    vstd::arithmetic::div_mod::lemma_mul_mod_noop_left(a * h, w, q);
    vstd::arithmetic::div_mod::lemma_small_mod(1, q as nat);
    assert(fe(h * 1) == fe(h));
}

/// The powers of `5^-1` are invertible.
proof fn lemma_five_inv_power_invertible(j: nat)
    ensures
        has_inverse(power(five_inv(), j)),
{
    let q = modulus();
    let f = five_inv();
    crate::algebra::lemma_power_distributes(f, 5, j);
    assert(fe(f * 5) == 1);
    vstd::arithmetic::div_mod::lemma_small_mod(1, q as nat);
    crate::algebra::lemma_power_cong(f * 5, 1, j);
    crate::algebra::lemma_power_one(j);
    vstd::arithmetic::div_mod::lemma_mul_mod_noop_right(power(f, j), power(5, j), q);
    assert(fe(power(f, j) * fe(power(5, j))) == 1);
}

/// A polynomial of at most `n` coefficients that vanishes at every point
/// `g^i / 5` has all its coefficients zero modulo `q`.
proof fn lemma_coset_vanishing(d: Domain, h: Seq<int>)
    requires
        d.wf(),
        h.len() <= d.spec_size(),
        forall|i: int|
            0 <= i < d.spec_size() ==> fe(#[trigger] peval(h, five_inv() * power(d.spec_gen(), i as nat)))
                == 0,
    ensures
        forall|j: int| 0 <= j < h.len() ==> #[trigger] fe(h[j]) == 0,
{
    let n = d.spec_size();
    let g = d.spec_gen();
    let gi = d.spec_gen_inv();
    let ni = d.spec_size_inv();
    let f = five_inv();
    let q = modulus();
    let sh = scale_powers(h, f);
    let v = dft(sh, g, n);
    assert forall|i: int| 0 <= i < n implies #[trigger] v[i] == 0 by {
        let y = power(g, i as nat);
        assert(trunc(sh, n) == sh);
        lemma_peval_scale(h, f, y);
        assert(fe(peval(h, f * y)) == 0);
    }
    lemma_domain_idft_dft(d, sh);
    let iv = idft(v, gi, ni, n);
    assert forall|j: int| 0 <= j < n implies #[trigger] iv[j] == 0 by {
        let x = power(gi, j as nat);
        assert(trunc(v, n) == v);
        crate::algebra::lemma_fsum_zero(n, |k: int| v[k] * power(x, k as nat));
        assert(fe(ni * 0) == 0);
    }
    assert forall|j: int| 0 <= j < h.len() implies #[trigger] fe(h[j]) == 0 by {
        assert(iv[j] == reduce(pad(sh, n))[j]);
        let pj = power(f, j as nat);
        lemma_fe_twice(h[j] * pj);
        assert(h[j] * pj == pj * h[j]) by (nonlinear_arith);
        lemma_five_inv_power_invertible(j as nat);
        lemma_zero_factor(pj, h[j]);
    }
}

/// The last index at or above `k` where `c` is nonzero modulo `q`.
proof fn lemma_top_index(c: Seq<int>, k: int) -> (t: int)
    requires
        0 <= k,
        exists|j: int| k <= j < c.len() && fe(#[trigger] c[j]) != 0,
    ensures
        k <= t < c.len(),
        fe(c[t]) != 0,
        forall|j: int| t < j < c.len() ==> fe(#[trigger] c[j]) == 0,
    decreases c.len(),
{
    let j0 = choose|j: int| k <= j < c.len() && fe(#[trigger] c[j]) != 0;
    let last = c.len() - 1;
    if fe(c[last]) != 0 {
        last
    } else {
        let init = c.drop_last();
        assert(init[j0] == c[j0]);
        let t = lemma_top_index(init, k);
        assert forall|j: int| t < j < c.len() implies fe(#[trigger] c[j]) == 0 by {
            if j < last {
                assert(init[j] == c[j]);
            }
        }
        t
    }
}

/// Subtracting a multiple of zero modulo `q` changes nothing.
proof fn lemma_fe_sub_zero(a: int, r: int, b: int)
    requires
        fe(b) == 0,
    ensures
        fe(a - r * b) == fe(a),
{
    let q = modulus();
    vstd::arithmetic::div_mod::lemma_mul_mod_noop_right(r, b, q);
    assert(fe(r * 0) == 0);
    vstd::arithmetic::div_mod::lemma_sub_mod_noop(a, r * b, q);
    vstd::arithmetic::div_mod::lemma_small_mod(0, q as nat);
    lemma_fe_twice(a);
}

/// Multiplying by linear factors moves the top coefficient (modulo `q`) up
/// by one place per factor, and leaves zeros above it.
proof fn lemma_times_roots_top(c: Seq<int>, rs: Seq<int>, t: int)
    requires
        0 <= t < c.len(),
        forall|j: int| t < j < c.len() ==> fe(#[trigger] c[j]) == 0,
    ensures
        times_roots(c, rs).len() == c.len() + rs.len(),
        fe(times_roots(c, rs)[t + rs.len()]) == fe(c[t]),
        forall|j: int|
            t + rs.len() < j < c.len() + rs.len() ==> fe(#[trigger] times_roots(c, rs)[j]) == 0,
    decreases rs.len(),
{
    if rs.len() > 0 {
        let init = rs.drop_last();
        let r = rs.last();
        lemma_times_roots_top(c, init, t);
        let tp = times_roots(c, init);
        let tt = times_roots(c, rs);
        let l1 = init.len();
        assert(tt == mul_linear(tp, r));
        let k = t + rs.len();
        if k < tp.len() {
            lemma_fe_sub_zero(tp[k - 1], r, tp[k]);
        } else {
            assert(tt[k] == tp[k - 1] - r * 0);
        }
        assert forall|j: int| k < j < c.len() + rs.len() implies fe(#[trigger] tt[j]) == 0 by {
            assert(fe(tp[j - 1]) == 0);
            if j < tp.len() {
                lemma_fe_sub_zero(tp[j - 1], r, tp[j]);
            } else {
                assert(tt[j] == tp[j - 1] - r * 0);
            }
        }
    }
}

/// Transforming what the inverse transform gives over a well-formed domain
/// gives the values again, reduced and padded.
proof fn lemma_domain_dft_idft(d: Domain, v: Seq<int>)
    requires
        d.wf(),
        v.len() <= d.spec_size(),
    ensures
        dft(idft(v, d.spec_gen_inv(), d.spec_size_inv(), d.spec_size()), d.spec_gen(), d.spec_size())
            == reduce(pad(v, d.spec_size())),
{
    lemma_domain_transform_facts(d);
    lemma_dft_idft(v, d.spec_gen(), d.spec_gen_inv(), d.spec_size_inv(), d.spec_log_size(), d.spec_size());
}

/// The coefficients of the polynomial of degree below `n` whose evaluations
/// over the domain are `ev`.
pub open spec fn interpolated(d: Domain, ev: Seq<int>) -> Seq<int> {
    idft(ev, d.spec_gen_inv(), d.spec_size_inv(), d.spec_size())
}

/// The hypotheses of the exactness law: `ev` is a full set of evaluations
/// over the domain (field elements, one per domain element), and `subset`
/// holds some of them, at least one, each at its own position.
pub open spec fn exact_inputs(d: Domain, ev: Seq<int>, subset: Seq<Option<Scalar>>) -> bool {
    &&& d.wf()
    &&& subset.len() == d.spec_size()
    &&& ev.len() == d.spec_size()
    &&& forall|i: int| 0 <= i < ev.len() ==> 0 <= #[trigger] ev[i] < modulus()
    &&& missing_positions(subset).len() < subset.len()
    &&& forall|i: int|
        0 <= i < subset.len() && #[trigger] subset[i] is Some ==> subset[i]->0.value() == ev[i]
}

/// Under the exactness hypotheses: the interpolated polynomial, its values,
/// and the zero checks.
proof fn lemma_exact_facts(d: Domain, ev: Seq<int>, subset: Seq<Option<Scalar>>)
    requires
        exact_inputs(d, ev, subset),
    ensures
        dft(interpolated(d, ev), d.spec_gen(), d.spec_size()) == ev,
        interpolated(d, ev).len() == d.spec_size(),
        reduce(interpolated(d, ev)) == interpolated(d, ev),
        position_stride(d, subset) == 1,
        zero_checks_pass(d, subset),
{
    let n = d.spec_size();
    let q = modulus();
    lemma_domain_dft_idft(d, ev);
    assert forall|i: int| 0 <= i < n implies #[trigger] reduce(pad(ev, n))[i] == ev[i] by {
        vstd::arithmetic::div_mod::lemma_small_mod(ev[i] as nat, q as nat);
    }
    assert(reduce(pad(ev, n)) =~= ev);
    let dd = interpolated(d, ev);
    assert forall|j: int| 0 <= j < n implies #[trigger] reduce(dd)[j] == dd[j] by {
        lemma_fe_twice(d.spec_size_inv() * peval(trunc(ev, n), power(d.spec_gen_inv(), j as nat)));
    }
    assert(reduce(dd) =~= dd);
    crate::algebra::lemma_power2_positive(d.spec_log_size());
    assert(position_stride(d, subset) == 1) by {
        vstd::arithmetic::div_mod::lemma_div_by_self(n as int);
    }
    lemma_zero_checks_pass(d, subset);
}

/// A power of the domain's generator, raised to the domain size, is one.
proof fn lemma_domain_point_power(d: Domain, i: nat)
    requires
        d.wf(),
    ensures
        fe(power(power(d.spec_gen(), i), d.spec_size())) == 1,
{
    let g = d.spec_gen();
    let n = d.spec_size();
    crate::algebra::lemma_power2_positive(d.spec_log_size());
    crate::algebra::lemma_power_mul(g, i, n);
    crate::algebra::lemma_power_cycle(g, n, i * n);
    vstd::arithmetic::div_mod::lemma_mod_multiples_basic(i as int, n as int);
    assert(power(g, 0) == 1);
    vstd::arithmetic::div_mod::lemma_small_mod(1, modulus() as nat);
}

/// The available values times the zero polynomial's evaluations are the
/// evaluations of the product of the interpolated polynomial and the zero
/// polynomial, folded onto `n` coefficients.
proof fn lemma_exact_evals_with_zero(d: Domain, ev: Seq<int>, subset: Seq<Option<Scalar>>)
    requires
        exact_inputs(d, ev, subset),
    ensures
        evals_with_zero(d, subset) == dft(
            fold(times_roots(interpolated(d, ev), erased_roots(d.spec_gen(), missing_positions(subset), 1)), d.spec_size()),
            d.spec_gen(),
            d.spec_size(),
        ),
{
    let n = d.spec_size();
    let g = d.spec_gen();
    let q = modulus();
    let dd = interpolated(d, ev);
    let rs = erased_roots(g, missing_positions(subset), 1);
    let p = times_roots(dd, rs);
    let fl = fold(p, n);
    lemma_exact_facts(d, ev, subset);
    lemma_missing_positions(subset);
    lemma_peval_times_roots(dd, rs, 0);
    let lhs = evals_with_zero(d, subset);
    let rhs = dft(fl, g, n);
    assert forall|i: int| 0 <= i < n implies #[trigger] lhs[i] == rhs[i] by {
        let x = power(g, i as nat);
        lemma_domain_point_power(d, i as nat);
        lemma_peval_fold(p, n, x);
        let xn = power(x, n);
        let ph = peval(p.skip(n as int), x);
        vstd::arithmetic::div_mod::lemma_sub_mod_noop(xn, 1, q);
        vstd::arithmetic::div_mod::lemma_small_mod(1, q as nat);
        vstd::arithmetic::div_mod::lemma_small_mod(0, q as nat);
        assert(fe(xn - 1) == 0);
        vstd::arithmetic::div_mod::lemma_mul_mod_noop_left(xn - 1, ph, q);
        assert(fe((xn - 1) * ph) == 0);
        let pf = peval(fl, x);
        vstd::arithmetic::div_mod::lemma_add_mod_noop(pf, (xn - 1) * ph, q);
        lemma_fe_twice(pf);
        assert(fe(peval(p, x)) == fe(pf));
        assert(trunc(fl, n) == fl);
        lemma_peval_times_roots(dd, rs, x);
        lemma_zero_poly_value(d, subset, x);
        let zp = zero_poly_coeffs(d, subset);
        assert(trunc(zp, n) == zp);
        assert(trunc(dd, n) == dd);
        let a = peval(dd, x);
        let b = root_product(rs, x);
        assert(ev[i] == fe(a));
        assert(zero_evals(d, subset)[i] == fe(b));
        lemma_fe_mul(a, b);
        if subset[i] is None {
            assert(zero_evals(d, subset)[i] == 0);
            assert(fe(fe(a) * 0) == 0);
        }
    }
    assert(lhs =~= rhs);
}

/// When reconstruction gives back every value, the quotient taken on the
/// coset `X / 5` holds the interpolated polynomial's values there.
proof fn lemma_exact_quotient(d: Domain, ev: Seq<int>, subset: Seq<Option<Scalar>>)
    requires
        exact_inputs(d, ev, subset),
        reconstructed(d, subset) == ev,
    ensures
        coset_quotient(d, subset) == dft(scale_powers(interpolated(d, ev), five_inv()), d.spec_gen(), d.spec_size()),
{
    let n = d.spec_size();
    let g = d.spec_gen();
    let gi = d.spec_gen_inv();
    let ni = d.spec_size_inv();
    let f = five_inv();
    let dd = interpolated(d, ev);
    lemma_exact_facts(d, ev, subset);
    let cq = coset_quotient(d, subset);
    let r = idft(cq, gi, ni, n);
    let sr = scale_powers(r, 5);
    // back through the last transform: dd is r at 5 X
    lemma_domain_idft_dft(d, sr);
    assert(reduce(pad(sr, n)) =~= sr) by {
        assert forall|k: int| 0 <= k < n implies #[trigger] reduce(pad(sr, n))[k] == sr[k] by {
            lemma_fe_twice(r[k] * power(5, k as nat));
        }
    }
    assert(dd == sr);
    // so r is dd at X / 5
    lemma_shift_undoes_unshift(r);
    assert(reduce(r) =~= r) by {
        assert forall|k: int| 0 <= k < n implies #[trigger] reduce(r)[k] == r[k] by {
            lemma_fe_twice(ni * peval(trunc(cq, n), power(gi, k as nat)));
        }
    }
    assert(scale_powers(dd, f) == r);
    // and the quotient is the transform of r
    lemma_domain_dft_idft(d, cq);
    assert(reduce(pad(cq, n)) =~= cq) by {
        assert forall|k: int| 0 <= k < n implies #[trigger] reduce(pad(cq, n))[k] == cq[k] by {
            lemma_fe_twice(coset_evals_with_zero(d, subset)[k] * field_inverse(coset_zero_evals(d, subset)[k]));
        }
    }
}

/// At every point `g^i / 5`, the part from `n` on of the product of the
/// interpolated polynomial and the zero polynomial vanishes, when
/// reconstruction gives back every value.
proof fn lemma_exact_high_part_vanishes(d: Domain, ev: Seq<int>, subset: Seq<Option<Scalar>>, i: int)
    requires
        exact_inputs(d, ev, subset),
        reconstructed(d, subset) == ev,
        0 <= i < d.spec_size(),
    ensures
        fe(
            peval(
                times_roots(interpolated(d, ev), erased_roots(d.spec_gen(), missing_positions(subset), 1)).skip(
                    d.spec_size() as int,
                ),
                five_inv() * power(d.spec_gen(), i as nat),
            ),
        ) == 0,
{
    let n = d.spec_size();
    let g = d.spec_gen();
    let f = five_inv();
    let q = modulus();
    let dd = interpolated(d, ev);
    let rs = erased_roots(g, missing_positions(subset), 1);
    let p = times_roots(dd, rs);
    let fl = fold(p, n);
    let y = power(g, i as nat);
    let x = f * y;
    lemma_exact_facts(d, ev, subset);
    lemma_missing_positions(subset);
    lemma_peval_times_roots(dd, rs, x);
    // the coset values with zero are those of the fold
    lemma_exact_evals_with_zero(d, ev, subset);
    lemma_poly_from_roots_monic(rs);
    lemma_domain_idft_dft(d, fl);
    let pwz = poly_with_zero(d, subset);
    assert(pwz == reduce(fl));
    assert(trunc(scale_powers(pwz, f), n) == scale_powers(pwz, f));
    lemma_peval_scale(pwz, f, y);
    lemma_peval_reduce(fl, x);
    let pf = peval(fl, x);
    let cewz = coset_evals_with_zero(d, subset)[i];
    assert(fe(cewz) == fe(pf)) by {
        lemma_fe_twice(peval(scale_powers(pwz, f), y));
    }
    // the zero polynomial's value there, and its inverse
    lemma_coset_zero_value(d, subset, i);
    let z = root_product(rs, x);
    let cz = coset_zero_evals(d, subset)[i];
    assert(cz == fe(z));
    lemma_coset_zero_evals_invertible(d, subset);
    assert(has_inverse(cz));
    let inv = field_inverse(cz);
    assert(fe(cz * inv) == 1);
    // the quotient there is the interpolated polynomial's value
    lemma_exact_quotient(d, ev, subset);
    assert(trunc(scale_powers(dd, f), n) == scale_powers(dd, f));
    lemma_peval_scale(dd, f, y);
    let pd = peval(dd, x);
    let cq = coset_quotient(d, subset)[i];
    assert(cq == fe(cewz * inv));
    assert(fe(cq) == fe(pd)) by {
        lemma_fe_twice(peval(scale_powers(dd, f), y));
        lemma_fe_twice(cewz * inv);
    }
    // so the fold and the product agree there: pf = pf inv z = pd z
    vstd::arithmetic::div_mod::lemma_mul_mod_noop_left(cewz, inv, q);
    vstd::arithmetic::div_mod::lemma_mul_mod_noop_left(pf, inv, q);
    assert(fe(pf * inv) == fe(pd));
    vstd::arithmetic::div_mod::lemma_mul_mod_noop_left(pf * inv, z, q);
    vstd::arithmetic::div_mod::lemma_mul_mod_noop_left(pd, z, q);
    assert(fe((pf * inv) * z) == fe(pd * z));
    assert((pf * inv) * z == pf * (z * inv)) by (nonlinear_arith);
    vstd::arithmetic::div_mod::lemma_mul_mod_noop_right(pf, z * inv, q);
    vstd::arithmetic::div_mod::lemma_mul_mod_noop_left(z, inv, q);
    assert(fe(z * inv) == 1);
    vstd::arithmetic::div_mod::lemma_small_mod(1, q as nat);
    assert(fe(pf * 1) == fe(pf));
    assert(fe(peval(p, x)) == fe(pf));
    // the difference is (x^n - 1) times the high part, and x^n - 1 is invertible
    lemma_peval_fold(p, n, x);
    let ph = peval(p.skip(n as int), x);
    let a = power(x, n) - 1;
    assert(peval(p, x) == pf + a * ph);
    vstd::arithmetic::div_mod::lemma_add_mod_noop(pf, a * ph, q);
    vstd::arithmetic::div_mod::lemma_small_mod(0, q as nat);
    assert(fe(a * ph) == 0) by {
        lemma_fe_twice(pf);
        lemma_fe_twice(a * ph);
        assert(fe(fe(pf) + fe(a * ph)) == fe(pf));
        if fe(a * ph) != 0 {
            assert(0 < fe(a * ph) < q);
            let s = fe(pf) + fe(a * ph);
            if s < q {
                vstd::arithmetic::div_mod::lemma_small_mod(s as nat, q as nat);
            } else {
                vstd::arithmetic::div_mod::lemma_fundamental_div_mod_converse(s, q, 1, s - q);
            }
        }
    }
    lemma_domain_point_power(d, i as nat);
    lemma_coset_power_invertible(d, y);
    lemma_zero_factor(a, ph);
}

/// Exact recovery happens only on low degree: when reconstruction gives back
/// every value of `ev`, the polynomial interpolating `ev` has no nonzero
/// coefficient at or above the number of available values.
proof fn lemma_exact_recovery_is_low_degree(d: Domain, ev: Seq<int>, subset: Seq<Option<Scalar>>)
    requires
        exact_inputs(d, ev, subset),
        reconstructed(d, subset) == ev,
    ensures
        forall|j: int| available_count(subset) <= j < d.spec_size() ==> #[trigger] interpolated(d, ev)[j] == 0,
{
    let n = d.spec_size();
    let g = d.spec_gen();
    let dd = interpolated(d, ev);
    let ms = missing_positions(subset);
    let rs = erased_roots(g, ms, 1);
    let p = times_roots(dd, rs);
    let k = available_count(subset);
    lemma_exact_facts(d, ev, subset);
    lemma_missing_positions(subset);
    lemma_peval_times_roots(dd, rs, 0);
    let h = p.skip(n as int);
    assert forall|i: int| 0 <= i < n implies fe(#[trigger] peval(h, five_inv() * power(g, i as nat))) == 0 by {
        lemma_exact_high_part_vanishes(d, ev, subset, i);
    }
    lemma_coset_vanishing(d, h);
    assert forall|j: int| k <= j < n implies #[trigger] dd[j] == 0 by {
        if dd[j] != 0 {
            assert(reduce(dd)[j] == dd[j]);
            lemma_fe_twice(dd[j]);
            let t = lemma_top_index(dd, k as int);
            lemma_times_roots_top(dd, rs, t);
            let idx = t + rs.len() - n;
            assert(h[idx] == p[t + rs.len()]);
            assert(fe(h[idx]) == 0);
        }
    }
}

/// Recovery is exact exactly on low degree: when `subset` holds some of the
/// values `ev` over the domain, at least one, reconstruction gives back all
/// of `ev` if and only if the polynomial interpolating `ev` has degree below
/// the number of available values (it has no nonzero coefficient from that
/// number on). Reconstruction always runs to its end on such inputs.
pub proof fn lemma_recovery_exact_iff_low_degree(d: Domain, ev: Seq<int>, subset: Seq<Option<Scalar>>)
    requires
        exact_inputs(d, ev, subset),
    ensures
        reconstruct_defined(d, subset),
        zero_checks_pass(d, subset),
        reconstructed(d, subset) == ev <==> forall|j: int|
            available_count(subset) <= j < d.spec_size() ==> #[trigger] interpolated(d, ev)[j] == 0,
{
    let n = d.spec_size();
    let dd = interpolated(d, ev);
    lemma_exact_facts(d, ev, subset);
    if reconstructed(d, subset) == ev {
        lemma_exact_recovery_is_low_degree(d, ev, subset);
    }
    if forall|j: int| available_count(subset) <= j < n ==> #[trigger] dd[j] == 0 {
        assert(low_degree_inputs(d, dd, subset));
        lemma_reconstruction_recovers_low_degree(d, dd, subset);
    }
}

/// Reconstruction depends on the domain only through its size: over two
/// well-formed domains with the same number of elements, the zero checks
/// pass on the same subsets and the reconstructed values are the same.
pub proof fn lemma_reconstruction_depends_on_size_only(
    d1: Domain,
    d2: Domain,
    subset: Seq<Option<Scalar>>,
)
    requires
        d1.wf(),
        d2.wf(),
        d1.spec_size() == d2.spec_size(),
    ensures
        zero_checks_pass(d1, subset) == zero_checks_pass(d2, subset),
        reconstruct_defined(d1, subset) == reconstruct_defined(d2, subset),
        reconstructed(d1, subset) == reconstructed(d2, subset),
{
    crate::domain::lemma_domain_determined_by_size(d1, d2);
    assert(zero_evals(d1, subset) == zero_evals(d2, subset));
    assert(coset_zero_evals(d1, subset) == coset_zero_evals(d2, subset));
    assert(coset_quotient(d1, subset) == coset_quotient(d2, subset));
}

} // verus!
