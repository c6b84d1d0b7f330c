//! Elements of the BLS12-381 scalar field and their arithmetic.

use vstd::prelude::*;
use dusk_plonk::prelude::BlsScalar;

verus! {

/// The modulus `q` of the BLS12-381 scalar field.
pub open spec fn modulus() -> int {
    0x73eda753299d7d483339d80809a1d80553bda402fffe5bfeffffffff00000001int
}

/// The base of one 64-bit limb.
pub open spec fn limb_base() -> int {
    0x1_0000_0000_0000_0000int
}

/// The integer held by four little-endian 64-bit limbs.
pub open spec fn limbs_value(l: [u64; 4]) -> int {
    l[0] + limb_base() * (l[1] + limb_base() * (l[2] + limb_base() * l[3]))
}

/// The field element `x` modulo `q`, as an integer in `[0, q)`.
pub open spec fn fe(x: int) -> int {
    x % modulus()
}

/// A field element lies in `[0, q)`.
pub broadcast proof fn lemma_fe_bound(x: int)
    ensures
        0 <= #[trigger] fe(x) < modulus(),
{
}

/// An element of the scalar field, held as the little-endian limbs of its
/// canonical representative (an integer below the modulus).
#[derive(Clone, Copy, Debug, PartialEq, Eq)]
pub struct Scalar {
    pub(crate) limbs: [u64; 4],
}

impl Scalar {
    #[verifier::type_invariant]
    spec fn canonical(self) -> bool {
        limbs_value(self.limbs) < modulus()
    }

    /// The field element this value stands for, as an integer in `[0, q)`.
    pub closed spec fn value(self) -> int {
        fe(limbs_value(self.limbs))
    }

    /// The value of a scalar lies in `[0, q)`.
    pub broadcast proof fn lemma_value_bound(self)
        ensures
            0 <= #[trigger] self.value() < modulus(),
    {
    }

    /// The additive identity.
    pub fn zero() -> (r: Scalar)
        ensures
            r.value() == 0,
    {
        Scalar { limbs: [0, 0, 0, 0] }
    }

    /// The multiplicative identity.
    pub fn one() -> (r: Scalar)
        ensures
            r.value() == 1,
    {
        Scalar { limbs: [1, 0, 0, 0] }
    }

    /// The field element equal to a 64-bit integer.
    pub fn from_u64(v: u64) -> (r: Scalar)
        ensures
            r.value() == v,
    {
        Scalar { limbs: [v, 0, 0, 0] }
    }

    /// The field element held by four little-endian limbs, when they hold an
    /// integer below the modulus; `None` otherwise.
    pub fn from_limbs(limbs: [u64; 4]) -> (r: Option<Scalar>)
        ensures
            r is Some <==> limbs_value(limbs) < modulus(),
            r matches Some(s) ==> s.value() == limbs_value(limbs),
    {
        let m0: u64 = 0xffffffff00000001;
        let m1: u64 = 0x53bda402fffe5bfe;
        let m2: u64 = 0x3339d80809a1d805;
        let m3: u64 = 0x73eda753299d7d48;
        let below = limbs[3] < m3 || (limbs[3] == m3 && (limbs[2] < m2 || (limbs[2] == m2 && (
        limbs[1] < m1 || (limbs[1] == m1 && limbs[0] < m0)))));
        if below {
            Some(Scalar { limbs })
        } else {
            None
        }
    }

    /// The little-endian limbs of the canonical representative.
    pub fn to_limbs(&self) -> (r: [u64; 4])
        ensures
            limbs_value(r) == self.value(),
            limbs_value(r) < modulus(),
    {
        proof {
            use_type_invariant(self);
        }
        self.limbs
    }

    /// Whether this is the field element zero.
    pub fn is_zero(&self) -> (r: bool)
        ensures
            r <==> self.value() == 0,
    {
        proof {
            use_type_invariant(self);
        }
        self.limbs[0] == 0 && self.limbs[1] == 0 && self.limbs[2] == 0 && self.limbs[3] == 0
    }

    /// Whether this is the field element one.
    pub fn is_one(&self) -> (r: bool)
        ensures
            r <==> self.value() == 1,
    {
        proof {
            use_type_invariant(self);
        }
        self.limbs[0] == 1 && self.limbs[1] == 0 && self.limbs[2] == 0 && self.limbs[3] == 0
    }
}

/// Field addition, done by `BlsScalar`'s `Add`: the sum modulo `q`.
#[verifier::external_body]
pub(crate) fn field_add(a: Scalar, b: Scalar) -> (r: Scalar)
    ensures
        r.value() == fe(a.value() + b.value()),
{
    Scalar { limbs: (BlsScalar::from_raw(a.limbs) + BlsScalar::from_raw(b.limbs)).reduce().0 }
}

/// Field subtraction, done by `BlsScalar`'s `Sub`: the difference modulo `q`.
#[verifier::external_body]
pub(crate) fn field_sub(a: Scalar, b: Scalar) -> (r: Scalar)
    ensures
        r.value() == fe(a.value() - b.value()),
{
    Scalar { limbs: (BlsScalar::from_raw(a.limbs) - BlsScalar::from_raw(b.limbs)).reduce().0 }
}

/// Field multiplication, done by `BlsScalar`'s `Mul`: the product modulo `q`.
#[verifier::external_body]
pub(crate) fn field_mul(a: Scalar, b: Scalar) -> (r: Scalar)
    ensures
        r.value() == fe(a.value() * b.value()),
{
    Scalar { limbs: (BlsScalar::from_raw(a.limbs) * BlsScalar::from_raw(b.limbs)).reduce().0 }
}

/// Field inversion, done by `BlsScalar::invert`: it fails exactly on zero, and
/// otherwise gives the multiplicative inverse modulo `q`.
#[verifier::external_body]
pub(crate) fn field_invert(a: Scalar) -> (r: Option<Scalar>)
    ensures
        r is Some <==> a.value() != 0,
        r matches Some(y) ==> fe(a.value() * y.value()) == 1,
{
    match Option::<BlsScalar>::from(BlsScalar::from_raw(a.limbs).invert()) {
        Some(y) => Some(Scalar { limbs: y.reduce().0 }),
        None => None,
    }
}

} // verus!
