//! The precomputed cache for one coset: the chain of levels produced by
//! iterating the isogeny table, the coset itself, and its elementwise
//! `2^(k-1)`-th powers.

use vstd::prelude::*;

use vstd::arithmetic::power2::pow2;

use crate::ecfft::fftree::{FfTree, TreeV};
use crate::ecfft::isogeny::{
    factor_mat_v, is_inv_factor_mat, is_psi, iso_consts, Isogeny,
};
use crate::field::pow_mod;
use crate::common::copy_vec;
use crate::fp::{p_mod, Fp};
use crate::polynomial::seq_views;

verus! {

/// The residues a cache stores.
pub struct CacheV {
    pub k: nat,
    pub trees: Seq<TreeV>,
    pub coset: Seq<nat>,
    pub powered: Seq<nat>,
}

/// The exponent of the factor matrices at level `l`: half the level's domain
/// size, less one.
pub open spec fn level_exp(k: nat, l: nat) -> nat {
    (pow2((k - 2 - l) as nat) - 1) as nat
}

/// The domain and matrix-table lengths of level `l`: half-domains of size
/// `2^(k-1-l)`, matrix tables of half that size, and empty tables on the
/// terminal level.
pub open spec fn level_sizes(t: TreeV, k: nat, l: nat) -> bool {
    &&& t.s.len() == pow2((k - 1 - l) as nat)
    &&& t.sp.len() == pow2((k - 1 - l) as nat)
    &&& (l < k - 1 ==> t.factor.len() == pow2((k - 2 - l) as nat) && t.inv_factor.len() == pow2(
        (k - 2 - l) as nat,
    ))
    &&& (l == k - 1 ==> t.factor.len() == 0 && t.inv_factor.len() == 0)
}

/// The matrix tables of level `l`: entry `i` of the forward table is the
/// factor matrix of the twin pair `(S'[i], S'[half+i])`, and entry `i` of the
/// inverse table is the inverse of the factor matrix of `(S[i], S[half+i])`.
pub open spec fn level_factors(t: TreeV, k: nat, l: nat) -> bool {
    &&& forall|i: int|
        0 <= i < t.factor.len() ==> t.factor[i] == factor_mat_v(
            iso_consts(l as int + 1),
            t.sp[i],
            t.sp[t.factor.len() as int + i],
            level_exp(k, l),
        )
    &&& forall|i: int|
        0 <= i < t.inv_factor.len() ==> is_inv_factor_mat(
            iso_consts(l as int + 1),
            t.s[i],
            t.s[t.inv_factor.len() as int + i],
            level_exp(k, l),
            t.inv_factor[i],
        )
}

/// The half-domains after level `l` are the elementwise image of the first
/// halves of level `l`'s domains under the depth-`l+1` isogeny.
pub open spec fn level_step(prev: TreeV, s: Seq<nat>, sp: Seq<nat>, l: nat) -> bool {
    &&& forall|j: int| 0 <= j < s.len() ==> is_psi(iso_consts(l as int + 1), prev.s[j], s[j])
    &&& forall|j: int| 0 <= j < sp.len() ==> is_psi(iso_consts(l as int + 1), prev.sp[j], sp[j])
}

/// The cache's invariant: `k` levels whose half-domains halve in size down to
/// singletons, level 0 splitting the coset by index parity, consecutive
/// levels tied by the isogeny chain, the matrix tables built from the
/// half-domains, and the powered coset holding the `2^(k-1)`-th powers.
pub open spec fn cache_wf(c: CacheV) -> bool {
    &&& 1 <= c.k
    &&& c.trees.len() == c.k
    &&& c.coset.len() == pow2(c.k)
    &&& c.powered.len() == pow2(c.k)
    &&& forall|j: int|
        0 <= j < c.powered.len() ==> c.powered[j] == pow_mod(
            c.coset[j],
            pow2((c.k - 1) as nat),
            p_mod(),
        )
    &&& forall|j: int|
        0 <= j < c.trees[0].s.len() ==> c.trees[0].s[j] == c.coset[2 * j] && c.trees[0].sp[j]
            == c.coset[2 * j + 1]
    &&& forall|l: int| 0 <= l < c.k ==> level_sizes(#[trigger] c.trees[l], c.k, l as nat)
    &&& forall|l: int| 0 <= l < c.k - 1 ==> level_factors(#[trigger] c.trees[l], c.k, l as nat)
    &&& forall|l: int|
        0 <= l < c.k - 1 ==> level_step(
            #[trigger] c.trees[l],
            c.trees[l + 1].s,
            c.trees[l + 1].sp,
            l as nat,
        )
}

/// The precomputed cache for one coset.
pub struct EcFftCache {
    k: usize,
    trees: Vec<FfTree>,
    coset: Vec<Fp>,
    powered_coset: Vec<Fp>,
}

impl View for EcFftCache {
    type V = CacheV;

    closed spec fn view(&self) -> CacheV {
        CacheV {
            k: self.k as nat,
            trees: Seq::new(self.trees@.len(), |i: int| self.trees@[i]@),
            coset: seq_views(self.coset@),
            powered: seq_views(self.powered_coset@),
        }
    }
}

/// Powers of two up to the top level stay small.
proof fn lemma_pow2_le_max(e: nat)
    requires
        e <= 14,
    ensures
        pow2(e) <= 0x4000,
{
    vstd::arithmetic::power2::lemma2_to64();
    if e < 14 {
        vstd::arithmetic::power2::lemma_pow2_strictly_increases(e, 14);
    }
}

impl EcFftCache {
    /// Builds the chain of levels for `coset`: split the coset by index
    /// parity, then repeatedly build the two matrix tables and halve both
    /// domains through the depth-`i` isogeny, and close with the terminal
    /// singleton level. The powered coset holds every element's
    /// `2^(k-1)`-th power.
    pub fn new(k: usize, coset: Vec<Fp>) -> (r: EcFftCache)
        requires
            1 <= k <= 14,
            coset@.len() == pow2(k as nat),
        ensures
            r@.k == k,
            r@.coset == seq_views(coset@),
            cache_wf(r@),
    {
        proof {
            vstd::arithmetic::power2::lemma2_to64();
            lemma_pow2_le_max(k as nat);
        }
        let n: usize = 1 << k;
        proof {
            vstd::bits::lemma_usize_shl_is_mul(1, k as usize);
        }
        let half_n: usize = n / 2;
        let clen = coset.len();

        let mut s: Vec<Fp> = Vec::new();
        let mut s_prime: Vec<Fp> = Vec::new();
        let mut j: usize = 0;
        while j < half_n
            invariant
                j <= half_n,
                clen == coset@.len(),
                2 * half_n == clen,
                s@.len() == j,
                s_prime@.len() == j,
                forall|t: int| 0 <= t < j ==> s@[t]@ == coset@[2 * t]@,
                forall|t: int| 0 <= t < j ==> s_prime@[t]@ == coset@[2 * t + 1]@,
            decreases half_n - j,
        {
            s.push(coset[2 * j]);
            s_prime.push(coset[2 * j + 1]);
            j += 1;
        }

        let mut powered_coset: Vec<Fp> = Vec::new();
        let mut j: usize = 0;
        while j < n
            invariant
                j <= n,
                n == coset@.len(),
                half_n == pow2((k - 1) as nat),
                powered_coset@.len() == j,
                forall|t: int|
                    0 <= t < j ==> powered_coset@[t]@ == pow_mod(
                        coset@[t]@,
                        pow2((k - 1) as nat),
                        p_mod(),
                    ),
            decreases n - j,
        {
            powered_coset.push(coset[j].pow_u64(half_n as u64));
            j += 1;
        }

        let mut trees: Vec<FfTree> = Vec::new();
        let mut i: usize = 1;
        while i < k
            invariant
                1 <= i <= k,
                k <= 14,
                trees@.len() == i - 1,
                s@.len() == pow2((k - i) as nat),
                s_prime@.len() == pow2((k - i) as nat),
                coset@.len() == pow2(k as nat),
                forall|l: int|
                    0 <= l < i - 1 ==> level_sizes(#[trigger] trees@[l]@, k as nat, l as nat)
                        && level_factors(trees@[l]@, k as nat, l as nat),
                forall|l: int|
                    0 <= l < i - 2 ==> level_step(
                        #[trigger] trees@[l]@,
                        trees@[l + 1]@.s,
                        trees@[l + 1]@.sp,
                        l as nat,
                    ),
                i >= 2 ==> level_step(
                    trees@[i - 2]@,
                    seq_views(s@),
                    seq_views(s_prime@),
                    (i - 2) as nat,
                ),
                i == 1 ==> forall|t: int|
                    0 <= t < s@.len() ==> s@[t]@ == coset@[2 * t]@ && s_prime@[t]@ == coset@[2 * t
                        + 1]@,
                i >= 2 ==> forall|t: int|
                    0 <= t < trees@[0]@.s.len() ==> trees@[0]@.s[t] == coset@[2 * t]@
                        && trees@[0]@.sp[t] == coset@[2 * t + 1]@,
            decreases k - i,
        {
            let iso = Isogeny::new(i);
            proof {
                lemma_pow2_le_max((k - i) as nat);
            }
            let m: usize = 1 << (k - i);
            proof {
                vstd::bits::lemma_usize_shl_is_mul(1, (k - i) as usize);
                vstd::arithmetic::power2::lemma2_to64();
                vstd::arithmetic::power2::lemma_pow2_unfold((k - i) as nat);
            }
            let half: usize = m / 2;
            let exp: u64 = (half - 1) as u64;
            let inv_factor = iso.get_inv_factor(&s, half, exp);
            let factor = iso.get_factor(&s_prime, half, exp);
            let s_copy = copy_vec(&s);
            let sp_copy = copy_vec(&s_prime);
            let tree = FfTree::from_parts(s_copy, sp_copy, factor, inv_factor);
            let ghost old_trees = trees@;
            let ghost old_s = s@;
            let ghost old_sp = s_prime@;
            trees.push(tree);
            let new_s = iso.domain_half_sizing(s, half);
            let new_sp = iso.domain_half_sizing(s_prime, half);
            s = new_s;
            s_prime = new_sp;
            proof {
                let kn = k as nat;
                let l = (i - 1) as nat;
                assert(half == pow2((k - i - 1) as nat));
                assert(level_exp(kn, l) == (half - 1) as nat);
                assert(trees@[i as int - 1]@ == tree@);
                // sizes of the new level
                assert(level_sizes(tree@, kn, l)) by {
                    assert(tree@.s.len() == old_s.len());
                    assert(tree@.factor.len() == half);
                    assert(tree@.inv_factor.len() == half);
                }
                // matrix tables of the new level
                assert(level_factors(tree@, kn, l)) by {
                    assert forall|t: int| 0 <= t < tree@.factor.len() implies tree@.factor[t]
                        == factor_mat_v(
                        iso_consts(l as int + 1),
                        tree@.sp[t],
                        tree@.sp[tree@.factor.len() as int + t],
                        level_exp(kn, l),
                    ) by {
                        assert(tree@.sp[t] == old_sp[t]@);
                        assert(tree@.sp[half + t] == old_sp[half + t]@);
                    }
                    assert forall|t: int| 0 <= t < tree@.inv_factor.len() implies
                        is_inv_factor_mat(
                        iso_consts(l as int + 1),
                        tree@.s[t],
                        tree@.s[tree@.inv_factor.len() as int + t],
                        level_exp(kn, l),
                        tree@.inv_factor[t],
                    ) by {
                        assert(tree@.s[t] == old_s[t]@);
                        assert(tree@.s[half + t] == old_s[half + t]@);
                    }
                }
                // the step from the new level to the halved domains
                assert(level_step(tree@, seq_views(s@), seq_views(s_prime@), l)) by {
                    assert forall|t: int| 0 <= t < seq_views(s@).len() implies is_psi(
                        iso_consts(l as int + 1),
                        tree@.s[t],
                        seq_views(s@)[t],
                    ) by {
                        assert(seq_views(s@)[t] == s@[t]@);
                        assert(tree@.s[t] == old_s[t]@);
                    }
                    assert forall|t: int| 0 <= t < seq_views(s_prime@).len() implies is_psi(
                        iso_consts(l as int + 1),
                        tree@.sp[t],
                        seq_views(s_prime@)[t],
                    ) by {
                        assert(seq_views(s_prime@)[t] == s_prime@[t]@);
                        assert(tree@.sp[t] == old_sp[t]@);
                    }
                }
                // the step from the previous level to the new level's domains
                if i >= 2 {
                    assert(level_step(
                        trees@[i - 2]@,
                        trees@[i - 1]@.s,
                        trees@[i - 1]@.sp,
                        (i - 2) as nat,
                    )) by {
                        assert(trees@[i - 2]@ == old_trees[i - 2]@);
                        assert(tree@.s =~= seq_views(old_s));
                        assert(tree@.sp =~= seq_views(old_sp));
                    }
                }
                assert forall|l2: int| 0 <= l2 < i - 1 implies level_sizes(
                    #[trigger] trees@[l2]@,
                    kn,
                    l2 as nat,
                ) && level_factors(trees@[l2]@, kn, l2 as nat) by {
                    if l2 < i - 1 - 1 + 1 {
                        assert(trees@[l2]@ == if l2 == i - 1 {
                            tree@
                        } else {
                            old_trees[l2]@
                        });
                    }
                }
                assert forall|l2: int| 0 <= l2 < i - 1 - 1 implies level_step(
                    #[trigger] trees@[l2]@,
                    trees@[l2 + 1]@.s,
                    trees@[l2 + 1]@.sp,
                    l2 as nat,
                ) by {
                    assert(trees@[l2]@ == old_trees[l2]@);
                    assert(trees@[l2 + 1]@ == if l2 + 1 == i - 1 {
                        tree@
                    } else {
                        old_trees[l2 + 1]@
                    });
                }
                if i >= 2 {
                    assert(trees@[0]@ == old_trees[0]@);
                } else {
                    assert(trees@[0]@ == tree@);
                    assert forall|t: int| 0 <= t < trees@[0]@.s.len() implies trees@[0]@.s[t]
                        == coset@[2 * t]@ && trees@[0]@.sp[t] == coset@[2 * t + 1]@ by {
                        assert(tree@.s[t] == old_s[t]@);
                        assert(tree@.sp[t] == old_sp[t]@);
                    }
                }
            }
            i += 1;
        }

        let ghost pre_s = s@;
        let ghost pre_sp = s_prime@;
        let last = FfTree::last_tree(s, s_prime);
        trees.push(last);

        let r = EcFftCache { k, trees, coset, powered_coset };
        proof {
            let c = r@;
            let kn = k as nat;
            assert(c.trees.len() == kn);
            assert forall|l: int| 0 <= l < kn implies level_sizes(c.trees[l], kn, l as nat) by {
                assert(c.trees[l] == r.trees@[l]@);
                if l == kn - 1 {
                    assert(r.trees@[l]@ == last@);
                    assert(last@.s.len() == pre_s.len());
                    assert(pow2(0) == 1) by {
                        vstd::arithmetic::power2::lemma2_to64();
                    }
                }
            }
            assert forall|l: int| 0 <= l < kn - 1 implies level_factors(c.trees[l], kn, l as nat)
                by {
                assert(c.trees[l] == r.trees@[l]@);
            }
            assert forall|l: int| 0 <= l < kn - 1 implies level_step(
                #[trigger] c.trees[l],
                c.trees[l + 1].s,
                c.trees[l + 1].sp,
                l as nat,
            ) by {
                assert(c.trees[l] == r.trees@[l]@);
                assert(c.trees[l + 1] == r.trees@[l + 1]@);
                if l + 1 == kn - 1 {
                    assert(r.trees@[l + 1]@ == last@);
                    assert(last@.s =~= seq_views(pre_s));
                    assert(last@.sp =~= seq_views(pre_sp));
                    if k >= 2 {
                        assert forall|t: int| 0 <= t < last@.s.len() implies is_psi(
                            iso_consts(l + 1),
                            c.trees[l].s[t],
                            last@.s[t],
                        ) by {
                            assert(seq_views(pre_s)[t] == pre_s[t]@);
                        }
                        assert forall|t: int| 0 <= t < last@.sp.len() implies is_psi(
                            iso_consts(l + 1),
                            c.trees[l].sp[t],
                            last@.sp[t],
                        ) by {
                            assert(seq_views(pre_sp)[t] == pre_sp[t]@);
                        }
                    }
                }
            }
            assert forall|t: int| 0 <= t < c.trees[0].s.len() implies c.trees[0].s[t] == c.coset[2
                * t] && c.trees[0].sp[t] == c.coset[2 * t + 1] by {
                assert(c.trees[0] == r.trees@[0]@);
                assert(c.coset[2 * t] == r.coset@[2 * t]@);
                assert(c.coset[2 * t + 1] == r.coset@[2 * t + 1]@);
                if k == 1 {
                    assert(r.trees@[0]@ == last@);
                    assert(last@.s[t] == pre_s[t]@);
                    assert(last@.sp[t] == pre_sp[t]@);
                }
            }
            assert forall|t: int| 0 <= t < c.powered.len() implies c.powered[t] == pow_mod(
                c.coset[t],
                pow2((kn - 1) as nat),
                p_mod(),
            ) by {
                assert(c.powered[t] == r.powered_coset@[t]@);
                assert(c.coset[t] == r.coset@[t]@);
            }
        }
        r
    }

    /// The low-degree extension on this cache's chain: takes the evaluations
    /// of two half-polynomials on `S` and returns their evaluations on `S'`.
    /// A one-level cache has nothing to extend and returns its inputs.
    ///
    /// Beyond pinning the output as the exact matrix recursion, the contract
    /// states the extension's meaning under the `extension_hypothesis` — the
    /// facts of the baked constants that only the domain tests can check:
    /// whenever the inputs hold the evaluations on `S` of residue
    /// polynomials of length `2^(k-1)`, the outputs hold their evaluations
    /// on `S'`.
    pub fn extend(&self, poly: Vec<Fp>, poly_prime: Vec<Fp>, k: usize) -> (r: (Vec<Fp>, Vec<Fp>))
        requires
            cache_wf(self@),
            k == self@.k,
            poly@.len() == pow2((k - 1) as nat),
            poly_prime@.len() == poly@.len(),
        ensures
            k == 1 ==> r.0@ == poly@ && r.1@ == poly_prime@,
            k >= 2 ==> (seq_views(r.0@), seq_views(r.1@))
                == crate::ecfft::arithmetic::extend_v(
                self@.trees,
                0,
                seq_views(poly@),
                seq_views(poly_prime@),
            ),
            r.0@.len() == poly@.len(),
            r.1@.len() == poly_prime@.len(),
            k >= 2 && crate::ecfft::arithmetic::extension_hypothesis(self@) ==> forall|
                p2: Seq<nat>,
                q2: Seq<nat>,
            |
                #![trigger crate::ecfft::arithmetic::evals_on(seq_views(poly@), p2, self@.trees[0].s), crate::ecfft::arithmetic::evals_on(seq_views(poly_prime@), q2, self@.trees[0].s)]
                p2.len() == poly@.len() && q2.len() == poly@.len()
                    && crate::ecfft::arithmetic::coeffs_bounded(p2)
                    && crate::ecfft::arithmetic::coeffs_bounded(q2)
                    && crate::ecfft::arithmetic::evals_on(
                    seq_views(poly@),
                    p2,
                    self@.trees[0].s,
                ) && crate::ecfft::arithmetic::evals_on(
                    seq_views(poly_prime@),
                    q2,
                    self@.trees[0].s,
                ) ==> crate::ecfft::arithmetic::evals_on(seq_views(r.0@), p2, self@.trees[0].sp)
                    && crate::ecfft::arithmetic::evals_on(seq_views(r.1@), q2, self@.trees[0].sp),
    {
        if k == 1 {
            return (poly, poly_prime);
        }
        proof {
            assert forall|l: int| 0 <= l < self.trees@.len() implies level_sizes(
                #[trigger] self.trees@[l]@,
                self.trees@.len() as nat,
                l as nat,
            ) by {
                assert(self@.trees[l] == self.trees@[l]@);
                assert(level_sizes(self@.trees[l], self@.k, l as nat));
            }
        }
        let r = crate::ecfft::arithmetic::serial_low_degree_extention(&self.trees, poly, poly_prime, 0);
        proof {
            assert(Seq::new(self.trees@.len(), |i: int| self.trees@[i]@) =~= self@.trees);
            if crate::ecfft::arithmetic::extension_hypothesis(self@) {
                let v = seq_views(poly@);
                let w = seq_views(poly_prime@);
                assert forall|p2: Seq<nat>, q2: Seq<nat>|
                    #![trigger crate::ecfft::arithmetic::evals_on(v, p2, self@.trees[0].s), crate::ecfft::arithmetic::evals_on(w, q2, self@.trees[0].s)]
                    p2.len() == poly@.len() && q2.len() == poly@.len()
                        && crate::ecfft::arithmetic::coeffs_bounded(p2)
                        && crate::ecfft::arithmetic::coeffs_bounded(q2)
                        && crate::ecfft::arithmetic::evals_on(v, p2, self@.trees[0].s)
                        && crate::ecfft::arithmetic::evals_on(
                        w,
                        q2,
                        self@.trees[0].s,
                    ) implies crate::ecfft::arithmetic::evals_on(
                    seq_views(r.0@),
                    p2,
                    self@.trees[0].sp,
                ) && crate::ecfft::arithmetic::evals_on(seq_views(r.1@), q2, self@.trees[0].sp) by {
                    crate::ecfft::arithmetic::lemma_extend_v_interpolates(self@, 0, p2, q2, v, w);
                }
            }
        }
        r
    }

    /// The level at `depth`.
    pub fn get_tree(&self, depth: usize) -> (r: &FfTree)
        requires
            depth < self@.trees.len(),
        ensures
            r@ == self@.trees[depth as int],
    {
        &self.trees[depth]
    }

    /// The deepest level that still holds matrices: the one with two-point
    /// half-domains.
    pub fn get_last_tree(&self) -> (r: &FfTree)
        requires
            self@.trees.len() >= 2,
        ensures
            r@ == self@.trees[self@.trees.len() - 2],
    {
        &self.trees[self.trees.len() - 2]
    }

    /// The coset the cache was built for.
    pub fn get_coset(&self) -> (r: &Vec<Fp>)
        ensures
            seq_views(r@) == self@.coset,
    {
        &self.coset
    }

    /// The elementwise `2^(k-1)`-th powers of the coset.
    pub fn get_powered_coset(&self) -> (r: &Vec<Fp>)
        ensures
            seq_views(r@) == self@.powered,
    {
        &self.powered_coset
    }

    /// The level count.
    pub fn k(&self) -> (r: usize)
        ensures
            r == self@.k,
    {
        self.k
    }
}

} // verus!
