//! The scalar field used by the classical radix-2 FFT reference: integers
//! modulo the prime
//! `r = 0x30644e72e131a029b85045b68181585d2833e84879b9709143e1f593f0000001`,
//! whose multiplicative group has two-adicity 28.
//!
//! Arithmetic is done by `halo2curves::bn256::Fr`; every element carries its
//! canonical little-endian byte representation, and the view of an element is
//! the residue those bytes encode. Each arithmetic method is a trusted
//! wrapper around one `halo2curves` operation.

use vstd::prelude::*;

use crate::field::{bytes_nat, limbs_nat, pow_mod, sub_mod, Field};

verus! {

#[verifier::external_type_specification]
#[verifier::external_body]
pub struct ExFr(halo2curves::bn256::Fr);

/// The modulus of the scalar field.
pub open spec fn r_mod() -> nat {
    0x30644e72e131a029b85045b68181585d2833e84879b9709143e1f593f0000001nat
}

/// The two-adicity of `r - 1`: the largest `s` with `2^s` dividing `r - 1`.
pub open spec fn r_two_adicity() -> nat {
    28
}

/// The canonical value of `halo2curves::bn256::Fr::ROOT_OF_UNITY`, a
/// generator of the order-`2^28` multiplicative subgroup: `7^((r-1) / 2^28)`.
pub open spec fn r_root_of_unity() -> nat {
    0x3ddb9f5166d18b798865ea93dd31f743215cf6dd39329c8d34f1ed960c37c9cnat
}

/// An element of the scalar field, with its canonical byte representation.
#[derive(Clone, Copy, Debug)]
pub struct Scalar {
    e: halo2curves::bn256::Fr,
    repr: [u8; 32],
}

impl View for Scalar {
    type V = nat;

    closed spec fn view(&self) -> nat {
        bytes_nat(self.repr@)
    }
}

impl Scalar {
    /// Relies on `halo2curves::bn256::Fr::from_raw`: the element congruent to
    /// the integer the four little-endian limbs encode; and on `Fr::to_bytes`:
    /// the canonical little-endian byte representation of an element.
    #[verifier::external_body]
    pub fn from_raw(limbs: [u64; 4]) -> (r: Scalar)
        ensures
            r@ == limbs_nat(limbs) % r_mod(),
            r@ < r_mod(),
    {
        let e = halo2curves::bn256::Fr::from_raw(limbs);
        Scalar { e, repr: e.to_bytes() }
    }

    /// Relies on `halo2curves::bn256::Fr::ROOT_OF_UNITY`: a fixed generator
    /// of the order-`2^28` subgroup of the multiplicative group, namely
    /// `7^((r-1) / 2^28)` for the smallest multiplicative generator 7.
    #[verifier::external_body]
    pub fn root_of_unity() -> (r: Scalar)
        ensures
            r@ == r_root_of_unity(),
    {
        let e = <halo2curves::bn256::Fr as halo2curves::ff::PrimeField>::ROOT_OF_UNITY;
        Scalar { e, repr: e.to_bytes() }
    }

    /// Relies on `core::ops::Add for halo2curves::bn256::Fr`: addition mod r.
    #[verifier::external_body]
    pub fn add(&self, rhs: &Scalar) -> (r: Scalar)
        ensures
            r@ == (self@ + rhs@) % r_mod(),
            r@ < r_mod(),
    {
        let e = self.e + rhs.e;
        Scalar { e, repr: e.to_bytes() }
    }

    /// Relies on `core::ops::Sub for halo2curves::bn256::Fr`: subtraction mod r.
    #[verifier::external_body]
    pub fn sub(&self, rhs: &Scalar) -> (r: Scalar)
        ensures
            r@ == sub_mod(self@, rhs@, r_mod()),
            r@ < r_mod(),
    {
        let e = self.e - rhs.e;
        Scalar { e, repr: e.to_bytes() }
    }

    /// Relies on `core::ops::Mul for halo2curves::bn256::Fr`: multiplication mod r.
    #[verifier::external_body]
    pub fn mul(&self, rhs: &Scalar) -> (r: Scalar)
        ensures
            r@ == (self@ * rhs@) % r_mod(),
            r@ < r_mod(),
    {
        let e = self.e * rhs.e;
        Scalar { e, repr: e.to_bytes() }
    }

    /// Relies on `ff::Field::invert for halo2curves::bn256::Fr`: the
    /// multiplicative inverse of a nonzero element, and failure on zero.
    #[verifier::external_body]
    pub fn invert_or_zero(&self) -> (r: Scalar)
        ensures
            self@ % r_mod() != 0 ==> (self@ * r@) % r_mod() == 1,
            self@ % r_mod() == 0 ==> r@ == 0,
            r@ < r_mod(),
    {
        let inv = halo2curves::ff::Field::invert(&self.e);
        let e = if bool::from(inv.is_some()) {
            inv.unwrap()
        } else {
            halo2curves::bn256::Fr::zero()
        };
        Scalar { e, repr: e.to_bytes() }
    }

    /// The canonical little-endian byte representation.
    pub fn to_bytes(&self) -> (r: [u8; 32])
        ensures
            bytes_nat(r@) == self@,
    {
        self.repr
    }
}

impl PartialEq for Scalar {
    fn eq(&self, rhs: &Scalar) -> (r: bool) {
        let mut i: usize = 0;
        while i < 32
            invariant
                i <= 32,
                forall|j: int| 0 <= j < i ==> self.repr@[j] == rhs.repr@[j],
            decreases 32 - i,
        {
            if self.repr[i] != rhs.repr[i] {
                proof {
                    if self@ == rhs@ {
                        crate::field::lemma_bytes_nat_injective(self.repr@, rhs.repr@);
                    }
                }
                return false;
            }
            i += 1;
        }
        proof {
            assert(self.repr@ =~= rhs.repr@);
        }
        true
    }
}

impl vstd::std_specs::cmp::PartialEqSpecImpl for Scalar {
    open spec fn obeys_eq_spec() -> bool {
        true
    }

    open spec fn eq_spec(&self, rhs: &Scalar) -> bool {
        self@ == rhs@
    }
}

impl Field for Scalar {
    open spec fn modulus() -> nat {
        r_mod()
    }

    proof fn modulus_gt_one() {
    }

    fn zero() -> (r: Scalar) {
        let r = Scalar::from_raw([0, 0, 0, 0]);
        proof {
            vstd::arithmetic::div_mod::lemma_small_mod(0nat, r_mod());
        }
        r
    }

    fn one() -> (r: Scalar) {
        let r = Scalar::from_raw([1, 0, 0, 0]);
        proof {
            vstd::arithmetic::div_mod::lemma_small_mod(1nat, r_mod());
        }
        r
    }

    fn add(&self, rhs: &Scalar) -> (r: Scalar) {
        Scalar::add(self, rhs)
    }

    fn mul(&self, rhs: &Scalar) -> (r: Scalar) {
        Scalar::mul(self, rhs)
    }

    fn eq_el(&self, rhs: &Scalar) -> (r: bool) {
        self == rhs
    }
}

} // verus!
