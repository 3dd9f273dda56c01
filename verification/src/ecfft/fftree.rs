//! One level of the precomputed chain: the two half-domains `(S, S')` of the
//! level, and the forward and inverse 2x2 factor matrices that the low-degree
//! extension applies there.

use vstd::prelude::*;

use crate::ecfft::isogeny::{mat_view, FactorMat};
use crate::fp::Fp;
use crate::polynomial::seq_views;

verus! {

/// The residues a level stores: the two half-domains and the two matrix
/// tables.
pub struct TreeV {
    pub s: Seq<nat>,
    pub sp: Seq<nat>,
    pub factor: Seq<((nat, nat), (nat, nat))>,
    pub inv_factor: Seq<((nat, nat), (nat, nat))>,
}

/// One level of the chain.
pub struct FfTree {
    // the two half-domains, `S` and `S'`, of equal length
    domain: (Vec<Fp>, Vec<Fp>),
    // matrices of the forward pass
    factor: Vec<FactorMat>,
    // matrices of the inverse-direction pass
    inv_factor: Vec<FactorMat>,
}

impl View for FfTree {
    type V = TreeV;

    closed spec fn view(&self) -> TreeV {
        TreeV {
            s: seq_views(self.domain.0@),
            sp: seq_views(self.domain.1@),
            factor: Seq::new(self.factor@.len(), |i: int| mat_view(self.factor@[i])),
            inv_factor: Seq::new(self.inv_factor@.len(), |i: int| mat_view(self.inv_factor@[i])),
        }
    }
}

impl FfTree {
    /// A level from its parts.
    pub(crate) fn from_parts(
        s: Vec<Fp>,
        s_prime: Vec<Fp>,
        factor: Vec<FactorMat>,
        inv_factor: Vec<FactorMat>,
    ) -> (r: FfTree)
        ensures
            r@.s == seq_views(s@),
            r@.sp == seq_views(s_prime@),
            r@.factor.len() == factor@.len(),
            forall|i: int| 0 <= i < factor@.len() ==> r@.factor[i] == mat_view(factor@[i]),
            r@.inv_factor.len() == inv_factor@.len(),
            forall|i: int| 0 <= i < inv_factor@.len() ==> r@.inv_factor[i] == mat_view(
                inv_factor@[i]),
    {
        FfTree { domain: (s, s_prime), factor, inv_factor }
    }

    /// The terminal level: the final singleton domains, with no matrices.
    pub fn last_tree(s: Vec<Fp>, s_prime: Vec<Fp>) -> (r: FfTree)
        ensures
            r@.s == seq_views(s@),
            r@.sp == seq_views(s_prime@),
            r@.factor.len() == 0,
            r@.inv_factor.len() == 0,
    {
        FfTree { domain: (s, s_prime), factor: Vec::new(), inv_factor: Vec::new() }
    }

    /// The two half-domains of the level.
    pub fn get_domain(&self) -> (r: &(Vec<Fp>, Vec<Fp>))
        ensures
            seq_views(r.0@) == self@.s,
            seq_views(r.1@) == self@.sp,
    {
        &self.domain
    }

    /// The forward factor matrices.
    pub fn get_factor(&self) -> (r: &Vec<FactorMat>)
        ensures
            r@.len() == self@.factor.len(),
            forall|i: int| 0 <= i < r@.len() ==> mat_view(r@[i]) == self@.factor[i],
    {
        &self.factor
    }

    /// The inverse-direction factor matrices.
    pub fn get_inv_factor(&self) -> (r: &Vec<FactorMat>)
        ensures
            r@.len() == self@.inv_factor.len(),
            forall|i: int| 0 <= i < r@.len() ==> mat_view(r@[i]) == self@.inv_factor[i],
    {
        &self.inv_factor
    }
}

} // verus!
