//! The base field of the engine's curve: integers modulo the prime
//! `p = 0x30644e72e131a029b85045b68181585d97816a916871ca8d3c208c16d87cfd47`.
//!
//! Arithmetic is done by `halo2curves::bn256::Fq`; every element carries its
//! canonical little-endian byte representation, and the view of an element is
//! the residue those bytes encode. Each arithmetic method is a trusted
//! wrapper around one `halo2curves` operation.

use vstd::prelude::*;

use crate::field::{bytes_nat, limbs_nat, pow_mod, sub_mod, Field};

verus! {

#[verifier::external_type_specification]
#[verifier::external_body]
pub struct ExFq(halo2curves::bn256::Fq);

/// The modulus of the base field.
pub open spec fn p_mod() -> nat {
    0x30644e72e131a029b85045b68181585d97816a916871ca8d3c208c16d87cfd47nat
}

/// An element of the base field, with its canonical byte representation.
#[derive(Clone, Copy, Debug)]
pub struct Fp {
    e: halo2curves::bn256::Fq,
    repr: [u8; 32],
}

impl View for Fp {
    type V = nat;

    closed spec fn view(&self) -> nat {
        bytes_nat(self.repr@)
    }
}

impl Fp {
    /// Relies on `halo2curves::bn256::Fq::from_raw`: the element congruent to
    /// the integer the four little-endian limbs encode; and on `Fq::to_bytes`:
    /// the canonical little-endian byte representation of an element.
    #[verifier::external_body]
    pub fn from_raw(limbs: [u64; 4]) -> (r: Fp)
        ensures
            r@ == limbs_nat(limbs) % p_mod(),
            r@ < p_mod(),
    {
        let e = halo2curves::bn256::Fq::from_raw(limbs);
        Fp { e, repr: e.to_bytes() }
    }

    /// Relies on `core::ops::Add for halo2curves::bn256::Fq`: addition mod p.
    #[verifier::external_body]
    pub fn add(&self, rhs: &Fp) -> (r: Fp)
        ensures
            r@ == (self@ + rhs@) % p_mod(),
            r@ < p_mod(),
    {
        let e = self.e + rhs.e;
        Fp { e, repr: e.to_bytes() }
    }

    /// Relies on `core::ops::Sub for halo2curves::bn256::Fq`: subtraction mod p.
    #[verifier::external_body]
    pub fn sub(&self, rhs: &Fp) -> (r: Fp)
        ensures
            r@ == sub_mod(self@, rhs@, p_mod()),
            r@ < p_mod(),
    {
        let e = self.e - rhs.e;
        Fp { e, repr: e.to_bytes() }
    }

    /// Relies on `core::ops::Mul for halo2curves::bn256::Fq`: multiplication mod p.
    #[verifier::external_body]
    pub fn mul(&self, rhs: &Fp) -> (r: Fp)
        ensures
            r@ == (self@ * rhs@) % p_mod(),
            r@ < p_mod(),
    {
        let e = self.e * rhs.e;
        Fp { e, repr: e.to_bytes() }
    }

    /// Relies on `halo2curves::bn256::Fq::square`: the square of an element mod p.
    #[verifier::external_body]
    pub fn square(&self) -> (r: Fp)
        ensures
            r@ == (self@ * self@) % p_mod(),
            r@ < p_mod(),
    {
        let e = self.e.square();
        Fp { e, repr: e.to_bytes() }
    }

    /// Relies on `ff::Field::invert for halo2curves::bn256::Fq`: the
    /// multiplicative inverse of a nonzero element, and failure on zero.
    #[verifier::external_body]
    pub fn invert_or_zero(&self) -> (r: Fp)
        ensures
            self@ % p_mod() != 0 ==> (self@ * r@) % p_mod() == 1,
            self@ % p_mod() == 0 ==> r@ == 0,
            r@ < p_mod(),
    {
        let inv = halo2curves::ff::Field::invert(&self.e);
        let e = if bool::from(inv.is_some()) {
            inv.unwrap()
        } else {
            halo2curves::bn256::Fq::zero()
        };
        Fp { e, repr: e.to_bytes() }
    }

    /// Relies on `ff::Field::pow for halo2curves::bn256::Fq`: the element
    /// raised to the given power mod p.
    #[verifier::external_body]
    pub fn pow_u64(&self, exp: u64) -> (r: Fp)
        ensures
            r@ == pow_mod(self@, exp as nat, p_mod()),
            r@ < p_mod(),
    {
        let e = halo2curves::ff::Field::pow(&self.e, [exp]);
        Fp { e, repr: e.to_bytes() }
    }

    /// The canonical little-endian byte representation, as a spec value.
    pub closed spec fn repr_spec(&self) -> Seq<u8> {
        self.repr@
    }

    /// The canonical representation encodes the element's residue.
    pub proof fn lemma_repr_spec(&self)
        ensures
            bytes_nat(self.repr_spec()) == self@,
            self.repr_spec().len() == 32,
    {
    }

    /// The canonical little-endian byte representation.
    pub fn to_bytes(&self) -> (r: [u8; 32])
        ensures
            r@ == self.repr_spec(),
            bytes_nat(r@) == self@,
    {
        self.repr
    }
}

impl PartialEq for Fp {
    fn eq(&self, rhs: &Fp) -> (r: bool) {
        let mut i: usize = 0;
        while i < 32
            invariant
                i <= 32,
                forall|j: int| 0 <= j < i ==> self.repr@[j] == rhs.repr@[j],
            decreases 32 - i,
        {
            if self.repr[i] != rhs.repr[i] {
                proof {
                    if self@ == rhs@ {
                        crate::field::lemma_bytes_nat_injective(self.repr@, rhs.repr@);
                    }
                }
                return false;
            }
            i += 1;
        }
        proof {
            assert(self.repr@ =~= rhs.repr@);
        }
        true
    }
}

impl vstd::std_specs::cmp::PartialEqSpecImpl for Fp {
    open spec fn obeys_eq_spec() -> bool {
        true
    }

    open spec fn eq_spec(&self, rhs: &Fp) -> bool {
        self@ == rhs@
    }
}

impl Field for Fp {
    open spec fn modulus() -> nat {
        p_mod()
    }

    proof fn modulus_gt_one() {
    }

    fn zero() -> (r: Fp) {
        let r = Fp::from_raw([0, 0, 0, 0]);
        proof {
            vstd::arithmetic::div_mod::lemma_small_mod(0nat, p_mod());
        }
        r
    }

    fn one() -> (r: Fp) {
        let r = Fp::from_raw([1, 0, 0, 0]);
        proof {
            vstd::arithmetic::div_mod::lemma_small_mod(1nat, p_mod());
        }
        r
    }

    fn add(&self, rhs: &Fp) -> (r: Fp) {
        Fp::add(self, rhs)
    }

    fn mul(&self, rhs: &Fp) -> (r: Fp) {
        Fp::mul(self, rhs)
    }

    fn eq_el(&self, rhs: &Fp) -> (r: bool) {
        self == rhs
    }
}

} // verus!
