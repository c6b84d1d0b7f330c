//! Evaluation domains: the multiplicative subgroups of power-of-two order
//! over which the transforms run.

use vstd::prelude::*;
use dusk_plonk::prelude::BlsScalar;
use crate::field::{Scalar, fe, modulus};
use crate::poly::{power, is_primitive_root, lemma_power2_below_32, lemma_fe_twice, values, dft, idft};
use crate::algebra::{
    repeated_square, lemma_repeated_square, lemma_power2_positive, lemma_power_mul, lemma_power_cong,
    lemma_power_one, lemma_power_minus_one,
};
use vstd::arithmetic::div_mod::{lemma_small_mod, lemma_fundamental_div_mod_converse};

verus! {

/// The field's primitive `2^32`-th root of unity: `7^((q - 1) / 2^32)`
/// modulo `q`.
pub open spec fn two_adic_root() -> int {
    0x16a2a19edfe81f20d09b681922c813b4b63683508c2280b93829971f439f0d2bint
}

/// A multiplicative subgroup of the scalar field whose order is a power of
/// two, with the constants that the transforms over it use. The subgroup is
/// determined by its size: its generator is the one `dusk_plonk` picks for
/// that size, and the transforms run on `dusk_plonk`'s domain of that size.
pub struct Domain {
    size: u64,
    log_size: u32,
    group_gen: Scalar,
    group_gen_inv: Scalar,
    size_inv: Scalar,
}

impl Domain {
    /// The number of elements of the subgroup.
    pub closed spec fn spec_size(self) -> nat {
        self.size as nat
    }

    /// The base-two logarithm of the size.
    pub closed spec fn spec_log_size(self) -> nat {
        self.log_size as nat
    }

    /// The generator of the subgroup.
    pub closed spec fn spec_gen(self) -> int {
        self.group_gen.value()
    }

    /// The inverse of the generator.
    pub closed spec fn spec_gen_inv(self) -> int {
        self.group_gen_inv.value()
    }

    /// The inverse of the size, as a field element.
    pub closed spec fn spec_size_inv(self) -> int {
        self.size_inv.value()
    }

    /// The stored generator, its inverse and the inverse of the size lie in
    /// `[0, q)`.
    pub proof fn lemma_gen_inv_bound(self)
        ensures
            0 <= self.spec_gen() < modulus(),
            0 <= self.spec_gen_inv() < modulus(),
            0 <= self.spec_size_inv() < modulus(),
    {
        self.group_gen.lemma_value_bound();
        self.group_gen_inv.lemma_value_bound();
        self.size_inv.lemma_value_bound();
    }

    /// The subgroup has order `2^log_size` with `log_size` below the field's
    /// two-adicity, its generator is `two_adic_root` squared `32 - log_size`
    /// times (the one `dusk_plonk` picks for that order), a primitive root of
    /// unity of that order, and the stored inverses are inverses.
    pub open spec fn wf(self) -> bool {
        &&& self.spec_log_size() < 32
        &&& self.spec_size() == power(2, self.spec_log_size())
        &&& self.spec_gen() == fe(
            power(two_adic_root(), power(2, (32 - self.spec_log_size()) as nat) as nat),
        )
        &&& is_primitive_root(self.spec_gen(), self.spec_size())
        &&& self.spec_size() >= 2 ==> fe(power(self.spec_gen(), self.spec_size() / 2)) == modulus() - 1
        &&& fe(self.spec_gen() * self.spec_gen_inv()) == 1
        &&& fe(self.spec_size() * self.spec_size_inv()) == 1
    }

    #[verifier::type_invariant]
    pub open spec fn well_formed(self) -> bool {
        self.wf()
    }

    /// The number of elements of the subgroup.
    pub fn size(&self) -> (r: usize)
        ensures
            r == self.spec_size(),
    {
        proof {
            use_type_invariant(self);
            lemma_power2_below_32(self.spec_log_size());
        }
        self.size as usize
    }

    /// The domain of the smallest power-of-two size that is at least
    /// `num_coeffs`, or `None` when that size is `2^32` or more.
    pub fn new(num_coeffs: usize) -> (r: Option<Domain>)
        requires
            num_coeffs <= usize::MAX / 2 + 1,
        ensures
            r is Some <==> num_coeffs <= 0x8000_0000,
            r matches Some(d) ==> {
                &&& d.wf()
                &&& num_coeffs <= d.spec_size()
                &&& d.spec_size() == 1 || d.spec_size() / 2 < num_coeffs
                &&& d.spec_gen() == fe(
                    power(two_adic_root(), power(2, (32 - d.spec_log_size()) as nat) as nat),
                )
            },
    {
        match new_domain(num_coeffs) {
            Some((size, log_size, group_gen, group_gen_inv, size_inv)) => {
                proof {
                    lemma_domain_generator(log_size as nat, group_gen.value());
                }
                Some(Domain { size, log_size, group_gen, group_gen_inv, size_inv })
            },
            None => None,
        }
    }

    /// The generator of the subgroup.
    pub fn group_gen(&self) -> (r: Scalar)
        ensures
            r.value() == self.spec_gen(),
    {
        self.group_gen
    }
}

/// `dusk_plonk`'s `EvaluationDomain::new`, giving the fields that the library
/// reads: it succeeds exactly when the smallest power of two not below
/// `num_coeffs` is below `2^32`, and then gives the subgroup of that size and
/// its base-two logarithm. Its generator is `ROOT_OF_UNITY` (here
/// `two_adic_root`) squared `32 - log_size` times; the inverses of the
/// generator and of the size are inverses modulo `q`.
#[verifier::external_body]
fn new_domain(num_coeffs: usize) -> (r: Option<(u64, u32, Scalar, Scalar, Scalar)>)
    requires
        num_coeffs <= usize::MAX / 2 + 1,
    ensures
        r is Some <==> num_coeffs <= 0x8000_0000,
        r matches Some((size, log_size, g, gi, ni)) ==> {
            &&& log_size < 32
            &&& size == power(2, log_size as nat)
            &&& num_coeffs <= size
            &&& size == 1 || size / 2 < num_coeffs
            &&& g.value() == fe(power(two_adic_root(), power(2, (32 - log_size) as nat) as nat))
            &&& fe(g.value() * gi.value()) == 1
            &&& fe(size * ni.value()) == 1
        },
{
    match dusk_plonk::fft::EvaluationDomain::new(num_coeffs) {
        Ok(d) => Some((
            d.size,
            d.log_size_of_group,
            Scalar { limbs: d.group_gen.reduce().0 },
            Scalar { limbs: d.group_gen_inv.reduce().0 },
            Scalar { limbs: d.size_inv.reduce().0 },
        )),
        Err(_) => None,
    }
}

/// `two_adic_root()^(2^31)` is `-1` modulo `q`.
proof fn lemma_two_adic_root_half()
    ensures
        fe(power(two_adic_root(), power(2, 31) as nat)) == modulus() - 1,
{
    lemma_repeated_square(two_adic_root(), 31);
    lemma_small_mod(two_adic_root() as nat, modulus() as nat);
    assert(repeated_square(two_adic_root(), 0) == two_adic_root());
    assert(repeated_square(two_adic_root(), 1) == 0x4b5371495990693fad1715b02e5713b5f070bb00e28a193d63e7cb4906ffc93fint) by {
        lemma_fundamental_div_mod_converse(0x16a2a19edfe81f20d09b681922c813b4b63683508c2280b93829971f439f0d2bint * 0x16a2a19edfe81f20d09b681922c813b4b63683508c2280b93829971f439f0d2bint, modulus(), 0x46b6a531156833f2ec469fcaf1ad016c0ac8ff8fe9b35ff8ee05ed0d7179bfaint, 0x4b5371495990693fad1715b02e5713b5f070bb00e28a193d63e7cb4906ffc93fint);
    }
    assert(repeated_square(two_adic_root(), 2) == 0x2c6d4e4511657e1e1339a815da8b398fed3a181fabb30adc694341f608c9dd56int) by {
        lemma_fundamental_div_mod_converse(0x4b5371495990693fad1715b02e5713b5f070bb00e28a193d63e7cb4906ffc93fint * 0x4b5371495990693fad1715b02e5713b5f070bb00e28a193d63e7cb4906ffc93fint, modulus(), 0x30f1ab1595c2d2f989fb50964a7330fca73e88614457bfab9c968b2474ec202bint, 0x2c6d4e4511657e1e1339a815da8b398fed3a181fabb30adc694341f608c9dd56int);
    }
    assert(repeated_square(two_adic_root(), 3) == 0xc83ea7744bf1bee8da40c1ef2bb459884d37b826214abc6474650359d8e211bint) by {
        lemma_fundamental_div_mod_converse(0x2c6d4e4511657e1e1339a815da8b398fed3a181fabb30adc694341f608c9dd56int * 0x2c6d4e4511657e1e1339a815da8b398fed3a181fabb30adc694341f608c9dd56int, modulus(), 0x110691833f37afdebb20c8e046d2b3e6decaddee100e33d6994171de12db77c9int, 0xc83ea7744bf1bee8da40c1ef2bb459884d37b826214abc6474650359d8e211bint);
    }
    assert(repeated_square(two_adic_root(), 4) == 0x52dd465e2f09425699e276b571905a7d6558e9e3f6ac7b41d7b688830a4f2089int) by {
        lemma_fundamental_div_mod_converse(0xc83ea7744bf1bee8da40c1ef2bb459884d37b826214abc6474650359d8e211bint * 0xc83ea7744bf1bee8da40c1ef2bb459884d37b826214abc6474650359d8e211bint, modulus(), 0x159e2bf6a5370d130211f45b03eac7387e0a96213c5fb1b817c887ed1ecd850int, 0x52dd465e2f09425699e276b571905a7d6558e9e3f6ac7b41d7b688830a4f2089int);
    }
    assert(repeated_square(two_adic_root(), 5) == 0x23397a9300f8f98bece8ea224f31d25db94f1101b1d7a628e2d0a7869f0319edint) by {
        lemma_fundamental_div_mod_converse(0x52dd465e2f09425699e276b571905a7d6558e9e3f6ac7b41d7b688830a4f2089int * 0x52dd465e2f09425699e276b571905a7d6558e9e3f6ac7b41d7b688830a4f2089int, modulus(), 0x3b3b06a28b2a02bf5a5e6c922e12eda976394d9d1a2eff104b9feb132dad6f64int, 0x23397a9300f8f98bece8ea224f31d25db94f1101b1d7a628e2d0a7869f0319edint);
    }
    assert(repeated_square(two_adic_root(), 6) == 0xa0a77a3b1980c0d116168bffbedc11d02c8118402867ddc531a11a0d2d75182int) by {
        lemma_fundamental_div_mod_converse(0x23397a9300f8f98bece8ea224f31d25db94f1101b1d7a628e2d0a7869f0319edint * 0x23397a9300f8f98bece8ea224f31d25db94f1101b1d7a628e2d0a7869f0319edint, modulus(), 0xab3f0119626603c452151d90394c5fe5f63d733517d87cc5933f6a03156d3e7int, 0xa0a77a3b1980c0d116168bffbedc11d02c8118402867ddc531a11a0d2d75182int);
    }
    assert(repeated_square(two_adic_root(), 7) == 0x19fe632fd3287390454dc1edc61a1a3c0ba12bb3da64ca5ce32ef844e11a51eint) by {
        lemma_fundamental_div_mod_converse(0xa0a77a3b1980c0d116168bffbedc11d02c8118402867ddc531a11a0d2d75182int * 0xa0a77a3b1980c0d116168bffbedc11d02c8118402867ddc531a11a0d2d75182int, modulus(), 0xdea2b6fae4c13adeb5ceea0db4ad434f85d64802013a04dc120eb4fc3de0e6int, 0x19fe632fd3287390454dc1edc61a1a3c0ba12bb3da64ca5ce32ef844e11a51eint);
    }
    assert(repeated_square(two_adic_root(), 8) == 0x291cf6d68823e6876e0bcd91ee76273072cf6a8029b7d7bc92cf4deb77bd779cint) by {
        lemma_fundamental_div_mod_converse(0x19fe632fd3287390454dc1edc61a1a3c0ba12bb3da64ca5ce32ef844e11a51eint * 0x19fe632fd3287390454dc1edc61a1a3c0ba12bb3da64ca5ce32ef844e11a51eint, modulus(), 0x5d40fa3da1bdb3e982d8325993408e8d10daae5d0d25fe9f5f6c228be37e8int, 0x291cf6d68823e6876e0bcd91ee76273072cf6a8029b7d7bc92cf4deb77bd779cint);
    }
    assert(repeated_square(two_adic_root(), 9) == 0x73560252aa0655b25121af06a3b51e3cc631ffb2585a72db5616c57de0ec9eaeint) by {
        lemma_fundamental_div_mod_converse(0x291cf6d68823e6876e0bcd91ee76273072cf6a8029b7d7bc92cf4deb77bd779cint * 0x291cf6d68823e6876e0bcd91ee76273072cf6a8029b7d7bc92cf4deb77bd779cint, modulus(), 0xe949a21ffecedd8a6ebeda0253d24770c6475e7105136d20b4e24b8fb4dc862int, 0x73560252aa0655b25121af06a3b51e3cc631ffb2585a72db5616c57de0ec9eaeint);
    }
    assert(repeated_square(two_adic_root(), 10) == 0xabe6a5e5abcaa32f2d38f10fbb8d1bbe08fec7c86389beec6e7a6ffb08e3363int) by {
        lemma_fundamental_div_mod_converse(0x73560252aa0655b25121af06a3b51e3cc631ffb2585a72db5616c57de0ec9eaeint * 0x73560252aa0655b25121af06a3b51e3cc631ffb2585a72db5616c57de0ec9eaeint, modulus(), 0x72bf23af7a589fbb742d2d81ca32150255935a678663bc32c2871632c29d0ae1int, 0xabe6a5e5abcaa32f2d38f10fbb8d1bbe08fec7c86389beec6e7a6ffb08e3363int);
    }
    assert(repeated_square(two_adic_root(), 11) == 0x47c8b5817018af4fc70d0874b0691d4e46b3105f04db5844cd3979122d3ea03aint) by {
        lemma_fundamental_div_mod_converse(0xabe6a5e5abcaa32f2d38f10fbb8d1bbe08fec7c86389beec6e7a6ffb08e3363int * 0xabe6a5e5abcaa32f2d38f10fbb8d1bbe08fec7c86389beec6e7a6ffb08e3363int, modulus(), 0xfee5fb5d0ea236f1b501ec83e593c87e931ac7e47af231b20917dbfee5f80fint, 0x47c8b5817018af4fc70d0874b0691d4e46b3105f04db5844cd3979122d3ea03aint);
    }
    assert(repeated_square(two_adic_root(), 12) == 0x3e1c54bcb947035a57a6e07cb98de4a2f69e02d265e09d9fece7e0e39898d4bint) by {
        lemma_fundamental_div_mod_converse(0x47c8b5817018af4fc70d0874b0691d4e46b3105f04db5844cd3979122d3ea03aint * 0x47c8b5817018af4fc70d0874b0691d4e46b3105f04db5844cd3979122d3ea03aint, modulus(), 0x2c730c3140a37a7f3f53fcbdea18424e87b457e70cd38cf80220f1992ad6ffd9int, 0x3e1c54bcb947035a57a6e07cb98de4a2f69e02d265e09d9fece7e0e39898d4bint);
    }
    assert(repeated_square(two_adic_root(), 13) == 0x520e587a724a6955df625e80d0adef90ad8e16e84419c750194e8c62ecb38d9dint) by {
        lemma_fundamental_div_mod_converse(0x3e1c54bcb947035a57a6e07cb98de4a2f69e02d265e09d9fece7e0e39898d4bint * 0x3e1c54bcb947035a57a6e07cb98de4a2f69e02d265e09d9fece7e0e39898d4bint, modulus(), 0x2146e2a0b8e0de7288868eee118eaaab19d42369bf1a60e0036d01018e265cint, 0x520e587a724a6955df625e80d0adef90ad8e16e84419c750194e8c62ecb38d9dint);
    }
    assert(repeated_square(two_adic_root(), 14) == 0x2d3056a530794f01652f717ae1c34bb0bb97a3bf30ce40fd6f421a7d8ef674fbint) by {
        lemma_fundamental_div_mod_converse(0x520e587a724a6955df625e80d0adef90ad8e16e84419c750194e8c62ecb38d9dint * 0x520e587a724a6955df625e80d0adef90ad8e16e84419c750194e8c62ecb38d9dint, modulus(), 0x3a14a5a3be2166a2bb8b08bf05a97855021e83cee04f46af3e8f720d40eddd4eint, 0x2d3056a530794f01652f717ae1c34bb0bb97a3bf30ce40fd6f421a7d8ef674fbint);
    }
    assert(repeated_square(two_adic_root(), 15) == 0x224262332d8acbf4473a2eef772c33d6cd7f2bd6d0711b7d08692405f3b70f10int) by {
        lemma_fundamental_div_mod_converse(0x2d3056a530794f01652f717ae1c34bb0bb97a3bf30ce40fd6f421a7d8ef674fbint * 0x2d3056a530794f01652f717ae1c34bb0bb97a3bf30ce40fd6f421a7d8ef674fbint, modulus(), 0x119d5585e49aad5f9259d189b881bf07e02bc04bae10b9fb776bcb2c88215f09int, 0x224262332d8acbf4473a2eef772c33d6cd7f2bd6d0711b7d08692405f3b70f10int);
    }
    assert(repeated_square(two_adic_root(), 16) == 0x2155379d12180caa88f39a78f1aeb57867a665ae1fcadc91d7118f85cd96b8adint) by {
        lemma_fundamental_div_mod_converse(0x224262332d8acbf4473a2eef772c33d6cd7f2bd6d0711b7d08692405f3b70f10int * 0x224262332d8acbf4473a2eef772c33d6cd7f2bd6d0711b7d08692405f3b70f10int, modulus(), 0xa1fd62a66e50b750997f40fc9e83eea0500b811d36d501789a2b8ec1c2c2853int, 0x2155379d12180caa88f39a78f1aeb57867a665ae1fcadc91d7118f85cd96b8adint);
    }
    assert(repeated_square(two_adic_root(), 17) == 0x3291357ee558b50d483405417a0cbe39c8d5f51db3f32699fbd047e11279bb6eint) by {
        lemma_fundamental_div_mod_converse(0x2155379d12180caa88f39a78f1aeb57867a665ae1fcadc91d7118f85cd96b8adint * 0x2155379d12180caa88f39a78f1aeb57867a665ae1fcadc91d7118f85cd96b8adint, modulus(), 0x9958e6f287860573c01eaa5568342998d1392b9d3fcdc8db6ad07ddef7b697bint, 0x3291357ee558b50d483405417a0cbe39c8d5f51db3f32699fbd047e11279bb6eint);
    }
    assert(repeated_square(two_adic_root(), 18) == 0x56624634b500a166dc86b01c0d477fa6ae4622f6a9152435034d2ff22a5ad9e1int) by {
        lemma_fundamental_div_mod_converse(0x3291357ee558b50d483405417a0cbe39c8d5f51db3f32699fbd047e11279bb6eint * 0x3291357ee558b50d483405417a0cbe39c8d5f51db3f32699fbd047e11279bb6eint, modulus(), 0x160e9ebe700aee0e8574c66da309cd89d6ed44211ce409304995ad0b04db0963int, 0x56624634b500a166dc86b01c0d477fa6ae4622f6a9152435034d2ff22a5ad9e1int);
    }
    assert(repeated_square(two_adic_root(), 19) == 0x485d512737b1da3d2ccddea2972e89ed146b58bc434906ac6fdd00bfc78c8967int) by {
        lemma_fundamental_div_mod_converse(0x56624634b500a166dc86b01c0d477fa6ae4622f6a9152435034d2ff22a5ad9e1int * 0x56624634b500a166dc86b01c0d477fa6ae4622f6a9152435034d2ff22a5ad9e1int, modulus(), 0x405e6df92310b5afd19ea62edd2f1b3fc5abdf7db6a963f5565a28b9f816ae5aint, 0x485d512737b1da3d2ccddea2972e89ed146b58bc434906ac6fdd00bfc78c8967int);
    }
    assert(repeated_square(two_adic_root(), 20) == 0x564c0a11a0f704f4fc3e8acfe0f8245f0ad1347b378fbf96e206da11a5d36306int) by {
        lemma_fundamental_div_mod_converse(0x485d512737b1da3d2ccddea2972e89ed146b58bc434906ac6fdd00bfc78c8967int * 0x485d512737b1da3d2ccddea2972e89ed146b58bc434906ac6fdd00bfc78c8967int, modulus(), 0x2d2bd4bacd6e3f84defbd926f073f958e1d4245c641a3b8419a3fcd00e94046bint, 0x564c0a11a0f704f4fc3e8acfe0f8245f0ad1347b378fbf96e206da11a5d36306int);
    }
    assert(repeated_square(two_adic_root(), 21) == 0x6d031f1b5c49c83409f1ca610a08f16655ea6811be9c622d4a838b5d59cd79e5int) by {
        lemma_fundamental_div_mod_converse(0x564c0a11a0f704f4fc3e8acfe0f8245f0ad1347b378fbf96e206da11a5d36306int * 0x564c0a11a0f704f4fc3e8acfe0f8245f0ad1347b378fbf96e206da11a5d36306int, modulus(), 0x403d4f41dc6a8cda3cf38f8e270787fdc5640c7098f15d5c2c4c29dfc4642a3fint, 0x6d031f1b5c49c83409f1ca610a08f16655ea6811be9c622d4a838b5d59cd79e5int);
    }
    assert(repeated_square(two_adic_root(), 22) == 0x325db5c3debf77a18f4de02c0f776af3ea437f9626fc085e3c28d666a5c2d854int) by {
        lemma_fundamental_div_mod_converse(0x6d031f1b5c49c83409f1ca610a08f16655ea6811be9c622d4a838b5d59cd79e5int * 0x6d031f1b5c49c83409f1ca610a08f16655ea6811be9c622d4a838b5d59cd79e5int, modulus(), 0x668237981ad07340e3bec76b2e667c1f236eb1410dc3572970685a2e07096e85int, 0x325db5c3debf77a18f4de02c0f776af3ea437f9626fc085e3c28d666a5c2d854int);
    }
    assert(repeated_square(two_adic_root(), 23) == 0x95166525526a65439feec240d80689fd697168a3a6000fe4541b8ff2ee0434eint) by {
        lemma_fundamental_div_mod_converse(0x325db5c3debf77a18f4de02c0f776af3ea437f9626fc085e3c28d666a5c2d854int * 0x325db5c3debf77a18f4de02c0f776af3ea437f9626fc085e3c28d666a5c2d854int, modulus(), 0x15e1c84c3f26c9b1e00eae02d90a05e7542a1f75ba7e56e4a881715baf3d9842int, 0x95166525526a65439feec240d80689fd697168a3a6000fe4541b8ff2ee0434eint);
    }
    assert(repeated_square(two_adic_root(), 24) == 0x4f9b4098e2e9f12e6b368121ac0cf4ad0a0865a899e8deff4935bd2f817f694bint) by {
        lemma_fundamental_div_mod_converse(0x95166525526a65439feec240d80689fd697168a3a6000fe4541b8ff2ee0434eint * 0x95166525526a65439feec240d80689fd697168a3a6000fe4541b8ff2ee0434eint, modulus(), 0xbfbb2ef2ee09fe34f8f27564be4b574bb19a28a01c91801d34575360b28279int, 0x4f9b4098e2e9f12e6b368121ac0cf4ad0a0865a899e8deff4935bd2f817f694bint);
    }
    assert(repeated_square(two_adic_root(), 25) == 0x6898111413588742b7c68b4d7fdd60d098d0caac87f5713c5130c2c1660125beint) by {
        lemma_fundamental_div_mod_converse(0x4f9b4098e2e9f12e6b368121ac0cf4ad0a0865a899e8deff4935bd2f817f694bint * 0x4f9b4098e2e9f12e6b368121ac0cf4ad0a0865a899e8deff4935bd2f817f694bint, modulus(), 0x36aa29c22b40321ba61b5f8d4f77795c110acbf388c9e1c8d157c28ad3b7763bint, 0x6898111413588742b7c68b4d7fdd60d098d0caac87f5713c5130c2c1660125beint);
    }
    assert(repeated_square(two_adic_root(), 26) == 0x45af6345ec055e4d14a1e27164d8fdbd2d967f4be2f951558140d032f0a9ee53int) by {
        lemma_fundamental_div_mod_converse(0x6898111413588742b7c68b4d7fdd60d098d0caac87f5713c5130c2c1660125beint * 0x6898111413588742b7c68b4d7fdd60d098d0caac87f5713c5130c2c1660125beint, modulus(), 0x5e5e2b110231c03083ccd5493c04a498ead16b7e63ad3a7f5df5850ec8628ab1int, 0x45af6345ec055e4d14a1e27164d8fdbd2d967f4be2f951558140d032f0a9ee53int);
    }
    assert(repeated_square(two_adic_root(), 27) == 0x50e0903a157988bab4bcd40e22f55448bf6e88fb4c38fb8a360c60997369df4eint) by {
        lemma_fundamental_div_mod_converse(0x45af6345ec055e4d14a1e27164d8fdbd2d967f4be2f951558140d032f0a9ee53int * 0x45af6345ec055e4d14a1e27164d8fdbd2d967f4be2f951558140d032f0a9ee53int, modulus(), 0x29e358a60746b7fbcb35f71de474d1454e6ba9a6ad4648a255653715b40a8f9bint, 0x50e0903a157988bab4bcd40e22f55448bf6e88fb4c38fb8a360c60997369df4eint);
    }
    assert(repeated_square(two_adic_root(), 28) == 0x20b1ce9140267af9dd1c0af834cec32c17beb312f20b6f7653ea61d87742bcceint) by {
        lemma_fundamental_div_mod_converse(0x50e0903a157988bab4bcd40e22f55448bf6e88fb4c38fb8a360c60997369df4eint * 0x50e0903a157988bab4bcd40e22f55448bf6e88fb4c38fb8a360c60997369df4eint, modulus(), 0x386c80aaeff17f5277bec07697315a9256acbcf5e7689d06a0f792c28d823ef6int, 0x20b1ce9140267af9dd1c0af834cec32c17beb312f20b6f7653ea61d87742bcceint);
    }
    assert(repeated_square(two_adic_root(), 29) == 0x345766f603fa66e78c0625cd70d77ce2b38b21c28713b7007228fd3397743f7aint) by {
        lemma_fundamental_div_mod_converse(0x20b1ce9140267af9dd1c0af834cec32c17beb312f20b6f7653ea61d87742bcceint * 0x20b1ce9140267af9dd1c0af834cec32c17beb312f20b6f7653ea61d87742bcceint, modulus(), 0x9387c422d7cefe2c20eb21442545c8638ea24eb341e34ae27b3cda3d202f64aint, 0x345766f603fa66e78c0625cd70d77ce2b38b21c28713b7007228fd3397743f7aint);
    }
    assert(repeated_square(two_adic_root(), 30) == 0x8d51ccce760304d0ec030002760300000001000000000000int) by {
        lemma_fundamental_div_mod_converse(0x345766f603fa66e78c0625cd70d77ce2b38b21c28713b7007228fd3397743f7aint * 0x345766f603fa66e78c0625cd70d77ce2b38b21c28713b7007228fd3397743f7aint, modulus(), 0x17a1cdc048cdb1278454e23dc04aaf593e9344a7a37aaf2d77cf0c6b824d4624int, 0x8d51ccce760304d0ec030002760300000001000000000000int);
    }
    assert(repeated_square(two_adic_root(), 31) == 0x73eda753299d7d483339d80809a1d80553bda402fffe5bfeffffffff00000000int) by {
        lemma_fundamental_div_mod_converse(0x8d51ccce760304d0ec030002760300000001000000000000int * 0x8d51ccce760304d0ec030002760300000001000000000000int, modulus(), 0xac45a4010001a4020000000100000000int, 0x73eda753299d7d483339d80809a1d80553bda402fffe5bfeffffffff00000000int);
    }
}

/// When `h^(2^(lg - 1))` is `-1` modulo `q`, no power `h^k` with
/// `0 < k < 2^lg` is one.
proof fn lemma_no_smaller_order(h: int, lg: nat, k: nat)
    requires
        lg >= 1,
        fe(power(h, power(2, (lg - 1) as nat) as nat)) == modulus() - 1,
        0 < k < power(2, lg),
    ensures
        fe(power(h, k)) != 1,
    decreases lg,
{
    let q = modulus();
    lemma_power2_positive((lg - 1) as nat);
    let m = power(2, (lg - 1) as nat) as nat;
    assert(power(2, lg) == 2 * power(2, (lg - 1) as nat));
    if k % 2 == 1 {
        if fe(power(h, k)) == 1 {
            // h^(k m) is both (h^k)^m = 1 and (h^m)^k = (-1)^k = -1
            lemma_power_mul(h, k, m);
            lemma_power_mul(h, m, k);
            assert(k * m == m * k) by (nonlinear_arith);
            lemma_small_mod(1, q as nat);
            lemma_power_cong(power(h, k), 1, m);
            lemma_power_one(m);
            lemma_power_minus_one(power(h, m), k);
        }
    } else {
        let k2 = (k / 2) as nat;
        assert(k == 2 * k2);
        assert(lg >= 2) by {
            if lg == 1 {
                assert(power(2, 0) == 1);
            }
        }
        let lg1 = (lg - 1) as nat;
        let h2 = power(h, 2);
        lemma_power2_positive((lg1 - 1) as nat);
        let m2 = power(2, (lg1 - 1) as nat) as nat;
        assert(power(2, lg1) == 2 * power(2, (lg1 - 1) as nat));
        assert(m == 2 * m2);
        lemma_power_mul(h, 2, m2);
        lemma_power_mul(h, 2, k2);
        lemma_no_smaller_order(h2, lg1, k2);
    }
}

/// The generator that `EvaluationDomain::new` picks for the subgroup of
/// order `2^lg` is a primitive root of unity of that order whose half power
/// is `-1`.
proof fn lemma_domain_generator(lg: nat, g: int)
    requires
        lg < 32,
        g == fe(power(two_adic_root(), power(2, (32 - lg) as nat) as nat)),
    ensures
        is_primitive_root(g, power(2, lg) as nat),
        power(2, lg) >= 2 ==> fe(power(g, (power(2, lg) as nat / 2) as nat)) == modulus() - 1,
{
    let q = modulus();
    let r = two_adic_root();
    lemma_power2_positive(lg);
    lemma_power2_positive((32 - lg) as nat);
    let n = power(2, lg) as nat;
    let e = power(2, (32 - lg) as nat) as nat;
    let re = power(r, e);
    lemma_fe_twice(re);
    // g^a = r^(e a) modulo q
    assert forall|a: nat| #[trigger] fe(power(g, a)) == fe(power(r, e * a)) by {
        lemma_power_cong(g, re, a);
        lemma_power_mul(r, e, a);
    }
    // r^(2^31) = -1, so r^(2^32) = 1
    lemma_two_adic_root_half();
    lemma_power2_positive(31);
    let h = power(2, 31) as nat;
    lemma_power_mul(r, h, 2);
    lemma_power_minus_one(power(r, h), 2);
    crate::algebra::lemma_power_add(2, (32 - lg) as nat, lg);
    assert(((32 - lg) as nat + lg) as nat == 32);
    assert(power(2, 32) == 2 * power(2, 31));
    assert(e * n == h * 2);
    assert(fe(power(g, n)) == 1);
    if lg >= 1 {
        let lg1 = (lg - 1) as nat;
        crate::algebra::lemma_power_add(2, (32 - lg) as nat, lg1);
        assert(((32 - lg) as nat + lg1) as nat == 31);
        assert(power(2, lg) == 2 * power(2, lg1));
        assert(n / 2 == power(2, lg1));
        assert(e * (n / 2) == h);
        assert(fe(power(g, (n / 2) as nat)) == q - 1);
        assert forall|k: nat| 0 < k < n implies #[trigger] fe(power(g, k)) != 1 by {
            lemma_no_smaller_order(g, lg, k);
        }
    } else {
        assert(n == 1);
    }
}

/// `EvaluationDomain::fft`, on `dusk_plonk`'s domain of the domain's size
/// (`EvaluationDomain::new` of a power of two below `2^32` succeeds and keeps
/// that size, with the generator and inverses that `Domain`'s invariant
/// pins): the coefficients are cut or padded with zeros to the domain's size
/// and evaluated at the powers of the generator.
#[verifier::external_body]
pub(crate) fn domain_fft(domain: &Domain, coeffs: &Vec<Scalar>) -> (r: Vec<Scalar>)
    ensures
        values(r@) == dft(values(coeffs@), domain.spec_gen(), domain.spec_size()),
{
    let c: Vec<BlsScalar> = coeffs.iter().map(|s| BlsScalar::from_raw(s.limbs)).collect();
    let d = dusk_plonk::fft::EvaluationDomain::new(domain.size as usize).unwrap();
    d.fft(&c).iter().map(|b| Scalar { limbs: b.reduce().0 }).collect()
}

/// `EvaluationDomain::ifft`, on `dusk_plonk`'s domain of the domain's size
/// (as for `domain_fft`): the evaluations are cut or padded with zeros to the
/// domain's size, transformed at the powers of the generator's inverse and
/// multiplied by the inverse of the size.
#[verifier::external_body]
pub(crate) fn domain_ifft(domain: &Domain, evals: &Vec<Scalar>) -> (r: Vec<Scalar>)
    ensures
        values(r@) == idft(
            values(evals@),
            domain.spec_gen_inv(),
            domain.spec_size_inv(),
            domain.spec_size(),
        ),
{
    let e: Vec<BlsScalar> = evals.iter().map(|s| BlsScalar::from_raw(s.limbs)).collect();
    let d = dusk_plonk::fft::EvaluationDomain::new(domain.size as usize).unwrap();
    d.ifft(&e).iter().map(|b| Scalar { limbs: b.reduce().0 }).collect()
}

/// Powers of two grow strictly with the exponent.
proof fn lemma_power2_strict(a: nat, b: nat)
    requires
        a < b,
    ensures
        power(2, a) < power(2, b),
    decreases b,
{
    lemma_power2_positive(a);
    if a < b - 1 {
        lemma_power2_strict(a, (b - 1) as nat);
    }
    lemma_power2_positive((b - 1) as nat);
}

/// A domain is determined by its size: two well-formed domains with the same
/// number of elements have the same logarithm of the size, the same
/// generator and the same inverses, so the transforms over them coincide.
pub proof fn lemma_domain_determined_by_size(d1: Domain, d2: Domain)
    requires
        d1.wf(),
        d2.wf(),
        d1.spec_size() == d2.spec_size(),
    ensures
        d1.spec_log_size() == d2.spec_log_size(),
        d1.spec_gen() == d2.spec_gen(),
        d1.spec_gen_inv() == d2.spec_gen_inv(),
        d1.spec_size_inv() == d2.spec_size_inv(),
{
    if d1.spec_log_size() < d2.spec_log_size() {
        lemma_power2_strict(d1.spec_log_size(), d2.spec_log_size());
    }
    if d2.spec_log_size() < d1.spec_log_size() {
        lemma_power2_strict(d2.spec_log_size(), d1.spec_log_size());
    }
    d1.lemma_gen_inv_bound();
    d2.lemma_gen_inv_bound();
    crate::algebra::lemma_inverse_unique(d1.spec_gen(), d1.spec_gen_inv(), d2.spec_gen_inv());
    crate::algebra::lemma_inverse_unique(
        d1.spec_size() as int,
        d1.spec_size_inv(),
        d2.spec_size_inv(),
    );
}

} // verus!
