//! The ECFFT engine: precomputed caches of isogeny domains and factor
//! matrices for every level, and the coefficient-to-evaluations transform
//! built on the low-degree extension.

pub mod arithmetic;
pub mod curve;
pub mod fftree;
pub mod isogeny;
pub mod utils;

use vstd::prelude::*;

use vstd::arithmetic::power2::pow2;

use crate::ecfft::arithmetic::{
    coeffs_bounded, extend_v, extension_hypothesis, integrate_v, mix_seqs,
};
use crate::ecfft::curve::{
    add_point_v, fmul, generator_v, lemma_add_point_wf, pt_wf, representative_v, Ep,
};
use crate::common::{copy_vec, split_vec};
use crate::ecfft::utils::{cache_wf, CacheV, EcFftCache};
use crate::fp::{p_mod, Fp};
use crate::polynomial::{lemma_poly_eval_split, poly_eval, seq_views, Coefficients, PointValue, Polynomial};

verus! {

/// The representative translated `j` times by the generator: `R + j*G`, in
/// projective coordinates.
pub open spec fn rep_plus(j: nat) -> (nat, nat, nat)
    decreases j,
{
    if j == 0 {
        representative_v()
    } else {
        add_point_v(rep_plus((j - 1) as nat), generator_v())
    }
}

/// `x` is the affine x-coordinate of the projective point: `x * z^2 = pt.x`
/// in the field, and zero for the identity.
pub open spec fn affine_x_rel(pt: (nat, nat, nat), x: nat) -> bool {
    &&& x < p_mod()
    &&& (pt.2 == 0 ==> x == 0)
    &&& (pt.2 != 0 ==> fmul(x, fmul(pt.2, pt.2)) == pt.0 % p_mod())
}

/// The engine's invariant: one cache per level `k` in `[1, 14]`, stored
/// largest first, each well-formed; every cache's coset reads the top coset
/// at strides of `2^i`; and the top coset holds the affine x-coordinates of
/// `R, R + G, R + 2*G, ...`.
pub open spec fn ecfft_wf(caches: Seq<CacheV>) -> bool {
    &&& caches.len() == 14
    &&& forall|i: int|
        0 <= i < caches.len() ==> (#[trigger] caches[i]).k == caches.len() - i && cache_wf(
            caches[i],
        )
    &&& forall|i: int, j: int|
        0 <= i < caches.len() && 0 <= j < caches[i].coset.len() ==> #[trigger] caches[i].coset[j]
            == caches[0].coset[j * pow2(i as nat)]
    &&& forall|j: int|
        0 <= j < caches[0].coset.len() ==> affine_x_rel(
            rep_plus(j as nat),
            #[trigger] caches[0].coset[j],
        )
}

/// The transform on residues, recursively: a pair of coefficients combines
/// with the two powered-coset entries of the one-level cache; a longer vector
/// splits into halves, transforms each, extends their evaluations from `S` to
/// `S'`, and interleaves the combine step over the level's powered coset.
pub open spec fn enter_v(caches: Seq<CacheV>, k: nat, p: Seq<nat>) -> Seq<nat>
    decreases k,
{
    let c = caches[caches.len() - k];
    if k <= 1 {
        seq![
            crate::ecfft::curve::fadd(p[0], fmul(c.powered[0], p[1])),
            crate::ecfft::curve::fadd(p[0], fmul(c.powered[1], p[1])),
        ]
    } else {
        let half = p.len() as int / 2;
        let low = enter_v(caches, (k - 1) as nat, p.take(half));
        let high = enter_v(caches, (k - 1) as nat, p.skip(half));
        let ext = extend_v(c.trees, 0, low, high);
        integrate_v(low, high, ext.0, ext.1, c.powered)
    }
}

/// The extension preserves the lengths of the two carried vectors.
pub proof fn lemma_extend_v_len(
    trees: Seq<crate::ecfft::fftree::TreeV>,
    depth: nat,
    p: Seq<nat>,
    q: Seq<nat>,
    e: nat,
)
    requires
        p.len() == q.len(),
        p.len() == pow2(e),
        e >= 1,
    ensures
        extend_v(trees, depth, p, q).0.len() == p.len(),
        extend_v(trees, depth, p, q).1.len() == q.len(),
    decreases p.len(),
{
    vstd::arithmetic::power2::lemma2_to64();
    vstd::arithmetic::power2::lemma_pow2_unfold(e);
    vstd::arithmetic::power2::lemma_pow2_pos((e - 1) as nat);
    if p.len() > 2 {
        let half = p.len() as int / 2;
        let mixed_p = mix_seqs(p.take(half), p.skip(half), trees[depth as int].inv_factor);
        let mixed_q = mix_seqs(q.take(half), q.skip(half), trees[depth as int].inv_factor);
        lemma_extend_v_len(trees, depth + 1, mixed_p.0, mixed_q.0, (e - 1) as nat);
        lemma_extend_v_len(trees, depth + 1, mixed_p.1, mixed_q.1, (e - 1) as nat);
    }
}

/// The transform sends a vector of length `2^k` to one of the same length.
pub proof fn lemma_enter_v_len(caches: Seq<CacheV>, k: nat, p: Seq<nat>)
    requires
        1 <= k <= caches.len(),
        p.len() == pow2(k),
    ensures
        enter_v(caches, k, p).len() == pow2(k),
    decreases k,
{
    vstd::arithmetic::power2::lemma_pow2_unfold(k);
    if k <= 1 {
        vstd::arithmetic::power2::lemma2_to64();
    } else {
        let half = p.len() as int / 2;
        lemma_enter_v_len(caches, (k - 1) as nat, p.take(half));
        lemma_enter_v_len(caches, (k - 1) as nat, p.skip(half));
        let c = caches[caches.len() - k];
        let low = enter_v(caches, (k - 1) as nat, p.take(half));
        let high = enter_v(caches, (k - 1) as nat, p.skip(half));
        vstd::arithmetic::power2::lemma_pow2_pos((k - 1) as nat);
        lemma_extend_v_len(c.trees, 0, low, high, (k - 1) as nat);
    }
}

/// A matrix mix of a zero pair is the zero pair.
proof fn lemma_mat_apply_zero(m: ((nat, nat), (nat, nat)))
    ensures
        crate::ecfft::arithmetic::mat_apply(m, 0, 0) == (0nat, 0nat),
{
    vstd::arithmetic::mul::lemma_mul_basics(m.0.0 as int);
    vstd::arithmetic::mul::lemma_mul_basics(m.0.1 as int);
    vstd::arithmetic::mul::lemma_mul_basics(m.1.0 as int);
    vstd::arithmetic::mul::lemma_mul_basics(m.1.1 as int);
    vstd::arithmetic::div_mod::lemma_small_mod(0nat, p_mod());
}

/// The low-degree extension of all-zero evaluations is all-zero: every step
/// of the recursion is a linear mix, and a linear mix of zeros is zero.
pub proof fn lemma_extend_v_zero(
    trees: Seq<crate::ecfft::fftree::TreeV>,
    depth: nat,
    p: Seq<nat>,
    q: Seq<nat>,
    e: nat,
)
    requires
        p.len() == q.len(),
        p.len() == pow2(e),
        e >= 1,
        forall|i: int| 0 <= i < p.len() ==> p[i] == 0,
        forall|i: int| 0 <= i < q.len() ==> q[i] == 0,
    ensures
        extend_v(trees, depth, p, q).0.len() == p.len(),
        extend_v(trees, depth, p, q).1.len() == q.len(),
        forall|i: int| 0 <= i < p.len() ==> extend_v(trees, depth, p, q).0[i] == 0,
        forall|i: int| 0 <= i < q.len() ==> extend_v(trees, depth, p, q).1[i] == 0,
    decreases p.len(),
{
    lemma_extend_v_len(trees, depth, p, q, e);
    vstd::arithmetic::power2::lemma2_to64();
    vstd::arithmetic::power2::lemma_pow2_unfold(e);
    vstd::arithmetic::power2::lemma_pow2_pos((e - 1) as nat);
    if p.len() <= 2 {
        let mi = trees[depth as int].inv_factor[0];
        let mf = trees[depth as int].factor[0];
        lemma_mat_apply_zero(mi);
        lemma_mat_apply_zero(mf);
    } else {
        let half = p.len() as int / 2;
        let mats = trees[depth as int].inv_factor;
        let mixed_p = mix_seqs(p.take(half), p.skip(half), mats);
        let mixed_q = mix_seqs(q.take(half), q.skip(half), mats);
        assert forall|i: int| 0 <= i < half implies mixed_p.0[i] == 0 && mixed_p.1[i] == 0
            && mixed_q.0[i] == 0 && mixed_q.1[i] == 0 by {
            lemma_mat_apply_zero(mats[i]);
        }
        lemma_extend_v_zero(trees, depth + 1, mixed_p.0, mixed_q.0, (e - 1) as nat);
        lemma_extend_v_zero(trees, depth + 1, mixed_p.1, mixed_q.1, (e - 1) as nat);
        let left = extend_v(trees, depth + 1, mixed_p.0, mixed_q.0);
        let right = extend_v(trees, depth + 1, mixed_p.1, mixed_q.1);
        let fmats = trees[depth as int].factor;
        assert forall|i: int|
            0 <= i < half implies mix_seqs(left.0, right.0, fmats).0[i] == 0 && mix_seqs(
            left.0,
            right.0,
            fmats,
        ).1[i] == 0 && mix_seqs(left.1, right.1, fmats).0[i] == 0 && mix_seqs(
            left.1,
            right.1,
            fmats,
        ).1[i] == 0 by {
            lemma_mat_apply_zero(fmats[i]);
        }
    }
}

/// The all-zero coefficient polynomial of length `2^k` evaluates to zero at
/// every point of the coset: each output of the transform is built from the
/// inputs by sums and products, so zero inputs give zero outputs.
pub proof fn lemma_enter_v_zero(caches: Seq<CacheV>, k: nat, p: Seq<nat>)
    requires
        1 <= k <= caches.len(),
        p.len() == pow2(k),
        forall|i: int| 0 <= i < p.len() ==> p[i] == 0,
    ensures
        enter_v(caches, k, p).len() == pow2(k),
        forall|j: int| 0 <= j < enter_v(caches, k, p).len() ==> enter_v(caches, k, p)[j] == 0,
    decreases k,
{
    lemma_enter_v_len(caches, k, p);
    vstd::arithmetic::power2::lemma2_to64();
    vstd::arithmetic::power2::lemma_pow2_unfold(k);
    vstd::arithmetic::div_mod::lemma_small_mod(0nat, p_mod());
    let c = caches[caches.len() - k];
    if k <= 1 {
        vstd::arithmetic::mul::lemma_mul_basics(c.powered[0] as int);
        vstd::arithmetic::mul::lemma_mul_basics(c.powered[1] as int);
    } else {
        let half = p.len() as int / 2;
        vstd::arithmetic::power2::lemma_pow2_pos((k - 1) as nat);
        lemma_enter_v_zero(caches, (k - 1) as nat, p.take(half));
        lemma_enter_v_zero(caches, (k - 1) as nat, p.skip(half));
        let low = enter_v(caches, (k - 1) as nat, p.take(half));
        let high = enter_v(caches, (k - 1) as nat, p.skip(half));
        lemma_extend_v_zero(c.trees, 0, low, high, (k - 1) as nat);
        let ext = extend_v(c.trees, 0, low, high);
        assert forall|j: int| 0 <= j < integrate_v(low, high, ext.0, ext.1, c.powered).len()
            implies integrate_v(low, high, ext.0, ext.1, c.powered)[j] == 0 by {
            vstd::arithmetic::mul::lemma_mul_basics(c.powered[j] as int);
        }
    }
}

/// Horner evaluation of a two-coefficient polynomial at a residue is the
/// pair formula of the transform's base case.
pub proof fn lemma_pair_horner(x: nat, a: nat, b: nat)
    requires
        x < p_mod(),
        b < p_mod(),
    ensures
        crate::ecfft::curve::fadd(a, fmul(x, b)) == poly_eval(seq![a, b], x, p_mod()),
{
    let m = p_mod() as int;
    let p = seq![a, b];
    let tail = p.drop_first();
    assert(tail[0] == b && tail.len() == 1);
    assert(poly_eval(tail, x, p_mod()) == (b + x * 0) % p_mod()) by {
        assert(tail.drop_first() =~= Seq::<nat>::empty());
        assert(poly_eval(Seq::<nat>::empty(), x, p_mod()) == 0);
    }
    vstd::arithmetic::div_mod::lemma_small_mod(b, p_mod());
    vstd::arithmetic::div_mod::lemma_mul_mod_noop_right(x as int, b as int, m);
    vstd::arithmetic::div_mod::lemma_add_mod_noop_right(a as int, (x * b) as int, m);
}

/// On one level, the transform's pair of outputs are the Horner evaluations
/// of the two coefficients at the two coset points: the powered coset of the
/// one-level cache is the coset itself, so each output combines the constant
/// coefficient with the linear one scaled by the evaluation point.
#[verifier::rlimit(100)]
#[verifier::spinoff_prover]
pub proof fn lemma_enter_v_base_horner(caches: Seq<CacheV>, p: Seq<nat>)
    requires
        ecfft_wf(caches),
        p.len() == 2,
        forall|i: int| 0 <= i < p.len() ==> p[i] < p_mod(),
    ensures
        forall|j: int|
            0 <= j < 2 ==> enter_v(caches, 1, p)[j] == poly_eval(
                p,
                caches[caches.len() - 1].coset[j],
                p_mod(),
            ),
{
    vstd::arithmetic::power2::lemma2_to64();
    let c = caches[caches.len() - 1];
    assert(cache_wf(c));
    assert forall|j: int| 0 <= j < 2 implies enter_v(caches, 1, p)[j] == poly_eval(
        p,
        c.coset[j],
        p_mod(),
    ) by {
        let x = c.coset[j];
        assert(c.powered[j] == crate::field::pow_mod(x, pow2(0), p_mod()));
        assert(pow2(0) == 1);
        assert(crate::field::pow_mod(x, 0, p_mod()) == 1nat % p_mod());
        assert(crate::field::pow_mod(x, 1, p_mod()) == (x * (1nat % p_mod())) % p_mod());
        vstd::arithmetic::div_mod::lemma_small_mod(1nat, p_mod());
        assert(x < p_mod()) by {
            assert(affine_x_rel(rep_plus((j * pow2(13)) as nat), caches[0].coset[j * pow2(13)]));
            assert(c.coset[j] == caches[0].coset[j * pow2(13)]);
        }
        vstd::arithmetic::div_mod::lemma_small_mod(x, p_mod());
        assert(c.powered[j] == x);
        lemma_pair_horner(x, p[0], p[1]);
        assert(seq![p[0], p[1]] =~= p);
        assert(enter_v(caches, 1, p)[j] == crate::ecfft::curve::fadd(p[0], fmul(x, p[1])));
    }
}


/// Conditional correctness of the whole transform: under the
/// `extension_hypothesis` on every cache — the facts of the baked constants
/// that only the domain tests can check — the transform of a residue
/// coefficient vector is its Horner evaluation at every point of the level's
/// coset. The proof splits the polynomial at its midpoint, evaluates the
/// halves on the even-index sub-coset by induction, carries the halves to
/// the odd-index points with the extension's conditional theorem, and folds
/// the two with the powered coset through the midpoint split of Horner
/// evaluation.
#[verifier::rlimit(100)]
pub proof fn lemma_enter_v_horner(caches: Seq<CacheV>, k: nat, p: Seq<nat>)
    requires
        ecfft_wf(caches),
        forall|i: int| 0 <= i < caches.len() ==> extension_hypothesis(#[trigger] caches[i]),
        1 <= k <= caches.len(),
        p.len() == pow2(k),
        coeffs_bounded(p),
    ensures
        enter_v(caches, k, p).len() == pow2(k),
        forall|j: int|
            0 <= j < pow2(k) ==> enter_v(caches, k, p)[j] == poly_eval(
                p,
                caches[caches.len() - k].coset[j],
                p_mod(),
            ),
    decreases k,
{
    let m = p_mod();
    lemma_enter_v_len(caches, k, p);
    vstd::arithmetic::power2::lemma2_to64();
    vstd::arithmetic::power2::lemma_pow2_unfold(k);
    if k == 1 {
        lemma_enter_v_base_horner(caches, p);
    } else {
        let i0 = caches.len() - k;
        let i1 = caches.len() - k + 1;
        let c = caches[i0];
        assert(c.k == k && cache_wf(c));
        assert(caches[i1].k == k - 1 && cache_wf(caches[i1]));
        let half = p.len() as int / 2;
        let lo = p.take(half);
        let hi = p.skip(half);
        vstd::arithmetic::power2::lemma_pow2_pos((k - 1) as nat);
        lemma_enter_v_horner(caches, (k - 1) as nat, lo);
        lemma_enter_v_horner(caches, (k - 1) as nat, hi);
        let low = enter_v(caches, (k - 1) as nat, lo);
        let high = enter_v(caches, (k - 1) as nat, hi);
        // the next cache's coset is the even-index half of this one's
        assert forall|j: int| 0 <= j < pow2((k - 1) as nat) implies caches[i1].coset[j]
            == c.coset[2 * j] by {
            assert(caches[i1].coset.len() == pow2((k - 1) as nat));
            assert(caches[i1].coset[j] == caches[0].coset[j * pow2(i1 as nat)]);
            assert(2 * j < pow2(k));
            assert(c.coset[2 * j] == caches[0].coset[(2 * j) * pow2(i0 as nat)]);
            vstd::arithmetic::power2::lemma_pow2_unfold(i1 as nat);
            assert(j * pow2(i1 as nat) == (2 * j) * pow2(i0 as nat)) by (nonlinear_arith)
                requires
                    pow2(i1 as nat) == 2 * pow2(i0 as nat),
            ;
        }
        // so the halves hold evaluations on the level's S domain
        assert(c.trees[0].s.len() == pow2((k - 1) as nat)) by {
            assert(crate::ecfft::utils::level_sizes(c.trees[0], c.k, 0));
        }
        assert forall|j: int| 0 <= j < low.len() implies low[j] == poly_eval(
            lo,
            c.trees[0].s[j],
            m,
        ) && high[j] == poly_eval(hi, c.trees[0].s[j], m) by {
            assert(c.trees[0].s[j] == c.coset[2 * j]);
            assert(caches[i1].coset[j] == c.coset[2 * j]);
        }
        // the extension carries them to the S' domain
        crate::ecfft::arithmetic::lemma_extend_v_interpolates(c, 0, lo, hi, low, high);
        let ext = extend_v(c.trees, 0, low, high);
        // the combine step folds the halves with the powered coset
        assert forall|t: int| 0 <= t < 2 * low.len() implies integrate_v(
            low,
            high,
            ext.0,
            ext.1,
            c.powered,
        )[t] == poly_eval(p, c.coset[t], m) by {
            let j = t / 2;
            let x = c.coset[t];
            assert(c.powered[t] == crate::field::pow_mod(x, pow2((k - 1) as nat), m));
            lemma_poly_eval_split(p, half, x, m);
            let lv = poly_eval(lo, x, m) as int;
            let hv = poly_eval(hi, x, m) as int;
            let pw = crate::field::pow_mod(x, half as nat, m) as int;
            assert((lv + ((pw * hv) % (m as int))) % (m as int) == (lv + pw * hv) % (m as int))
                by {
                vstd::arithmetic::div_mod::lemma_add_mod_noop_right(lv, pw * hv, m as int);
            }
            if t % 2 == 0 {
                assert(t == 2 * j);
                assert(c.trees[0].s[j] == c.coset[2 * j]);
                assert(low[j] == poly_eval(lo, x, m) && high[j] == poly_eval(hi, x, m));
            } else {
                assert(t == 2 * j + 1);
                assert(c.trees[0].sp[j] == c.coset[2 * j + 1]);
                assert(ext.0[j] == poly_eval(lo, x, m) && ext.1[j] == poly_eval(hi, x, m));
            }
        }
    }
}

/// The ECFFT engine: precomputed caches for every level up to `2^14`.
pub struct EcFft {
    // polynomial length 2^k, k at most max_k
    max_k: usize,
    // one cache per level, largest first
    caches: Vec<EcFftCache>,
}

impl View for EcFft {
    type V = Seq<CacheV>;

    closed spec fn view(&self) -> Seq<CacheV> {
        Seq::new(self.caches@.len(), |i: int| self.caches@[i]@)
    }
}

impl EcFft {
    /// The stored maximum level.
    pub closed spec fn max_k_spec(&self) -> nat {
        self.max_k as nat
    }

    /// The engine's invariant.
    pub open spec fn wf(&self) -> bool {
        &&& self.max_k_spec() == 14
        &&& ecfft_wf(self@)
    }

    /// The maximum level: polynomials of length up to `2^14` can be
    /// evaluated.
    pub fn max_k(&self) -> (r: usize)
        ensures
            r == self.max_k_spec(),
    {
        self.max_k
    }

    /// The affine x-coordinates of the coset walk `R, R + G, R + 2*G, ...`,
    /// of length `2^14`.
    fn build_coset() -> (r: Vec<Fp>)
        ensures
            r@.len() == pow2(14),
            forall|t: int| 0 <= t < r@.len() ==> affine_x_rel(rep_plus(t as nat), r@[t]@),
    {
        proof {
            vstd::arithmetic::power2::lemma2_to64();
        }
        let n: usize = 1 << 14usize;
        proof {
            vstd::bits::lemma_usize_shl_is_mul(1, 14);
        }
        let g = Ep::generator();
        let mut point = Ep::representative();
        let mut coset: Vec<Fp> = Vec::new();
        let mut j: usize = 0;
        while j < n
            invariant
                j <= n,
                n == pow2(14),
                g@ == generator_v(),
                point@ == rep_plus(j as nat),
                pt_wf(point@),
                coset@.len() == j,
                forall|t: int| 0 <= t < j ==> affine_x_rel(rep_plus(t as nat), coset@[t]@),
            decreases n - j,
        {
            let aff = point.to_affine();
            coset.push(aff.point_projective());
            let next = point.add_point(&g);
            proof {
                lemma_add_point_wf(point@, g@);
                assert(pt_wf(generator_v()));
            }
            point = next;
            j += 1;
        }
        coset
    }

    /// Precomputes the caches: walk the coset `R, R + G, R + 2*G, ...` of the
    /// order-`2^14` subgroup, project every point to its affine x-coordinate,
    /// and build one cache per level, halving the coset by index parity
    /// between levels.
    #[verifier::rlimit(100)]
    pub fn new() -> (r: EcFft)
        ensures
            r.wf(),
    {
        proof {
            vstd::arithmetic::power2::lemma2_to64();
        }
        let mut coset: Vec<Fp> = EcFft::build_coset();
        let ghost c0v = seq_views(coset@);
        let mut caches: Vec<EcFftCache> = Vec::new();
        let mut i: usize = 0;
        while i < 14
            invariant
                i <= 14,
                caches@.len() == i,
                c0v.len() == pow2(14),
                coset@.len() == pow2((14 - i) as nat),
                forall|t: int| 0 <= t < coset@.len() ==> coset@[t]@ == c0v[t * pow2(i as nat)],
                forall|t: int|
                    0 <= t < i ==> (#[trigger] caches@[t]@).k == 14 - t && cache_wf(caches@[t]@),
                forall|t: int, u: int|
                    0 <= t < i && 0 <= u < caches@[t]@.coset.len() ==> (#[trigger] caches@[t]@.coset[u])
                        == c0v[u * pow2(t as nat)],
                forall|u: int| 0 <= u < c0v.len() ==> affine_x_rel(rep_plus(u as nat), c0v[u]),
            decreases 14 - i,
        {
            proof {
                if i < 14 {
                    vstd::arithmetic::power2::lemma_pow2_strictly_increases(
                        (14 - i - 1) as nat,
                        14,
                    );
                    vstd::arithmetic::power2::lemma_pow2_unfold((14 - i) as nat);
                    vstd::arithmetic::power2::lemma_pow2_pos((14 - i - 1) as nat);
                }
            }
            let cache = EcFftCache::new(14 - i, copy_vec(&coset));
            let ghost old_caches = caches@;
            caches.push(cache);
            let clen = coset.len();
            let half = clen / 2;
            let mut next: Vec<Fp> = Vec::new();
            let mut t: usize = 0;
            while t < half
                invariant
                    t <= half,
                    clen == coset@.len(),
                    2 * half == clen,
                    next@.len() == t,
                    forall|u: int| 0 <= u < t ==> next@[u] == coset@[2 * u],
                decreases half - t,
            {
                next.push(coset[2 * t]);
                t += 1;
            }
            proof {
                let pi = pow2(i as nat);
                assert forall|u: int| 0 <= u < next@.len() implies next@[u]@ == c0v[u * pow2(
                    (i + 1) as nat,
                )] by {
                    assert(next@[u]@ == coset@[2 * u]@);
                    assert(coset@[2 * u]@ == c0v[2 * u * pi]);
                    vstd::arithmetic::power2::lemma_pow2_unfold((i + 1) as nat);
                    assert(2 * u * pi == u * (2 * pi)) by (nonlinear_arith);
                }
                assert forall|t2: int, u: int|
                    0 <= t2 < i + 1 && 0 <= u < caches@[t2]@.coset.len() implies (
                #[trigger] caches@[t2]@.coset[u]) == c0v[u * pow2(t2 as nat)] by {
                    if t2 == i {
                        assert(caches@[t2]@ == cache@);
                        assert(cache@.coset[u] == coset@[u]@);
                    } else {
                        assert(caches@[t2]@ == old_caches[t2]@);
                    }
                }
                assert forall|t2: int| 0 <= t2 < i + 1 implies (#[trigger] caches@[t2]@).k == 14
                    - t2 && cache_wf(caches@[t2]@) by {
                    if t2 == i {
                        assert(caches@[t2]@ == cache@);
                    } else {
                        assert(caches@[t2]@ == old_caches[t2]@);
                    }
                }
            }
            coset = next;
            i += 1;
        }
        let r = EcFft { max_k: 14, caches };
        proof {
            assert forall|t: int| 0 <= t < r@.len() implies (#[trigger] r@[t]).k == r@.len() - t
                && cache_wf(r@[t]) by {
                assert(r@[t] == r.caches@[t]@);
            }
            assert forall|t: int, u: int|
                0 <= t < r@.len() && 0 <= u < r@[t].coset.len() implies (#[trigger] r@[t].coset[u])
                == r@[0].coset[u * pow2(t as nat)] by {
                assert(r@[t] == r.caches@[t]@);
                assert(r@[0] == r.caches@[0]@);
                assert(pow2(0) == 1);
                assert(cache_wf(r.caches@[t]@) && r.caches@[t]@.k == 14 - t);
                assert(r@[t].coset.len() == pow2((14 - t) as nat));
                assert(r@[t].coset[u] == c0v[u * pow2(t as nat)]);
                vstd::arithmetic::power2::lemma_pow2_adds((14 - t) as nat, t as nat);
                vstd::arithmetic::power2::lemma_pow2_pos(t as nat);
                assert(u * pow2(t as nat) < pow2((14 - t) as nat) * pow2(t as nat)) by {
                    vstd::arithmetic::mul::lemma_mul_strict_inequality(
                        u,
                        pow2((14 - t) as nat) as int,
                        pow2(t as nat) as int,
                    );
                }
                assert(0 <= u * pow2(t as nat)) by {
                    vstd::arithmetic::mul::lemma_mul_nonnegative(u, pow2(t as nat) as int);
                }
                assert(r.caches@[0]@.coset[u * pow2(t as nat)] == c0v[(u * pow2(t as nat)) * pow2(
                    0,
                )]);
                assert((u * pow2(t as nat)) * pow2(0) == u * pow2(t as nat));
            }
            assert forall|u: int| 0 <= u < r@[0].coset.len() implies affine_x_rel(
                rep_plus(u as nat),
                #[trigger] r@[0].coset[u],
            ) by {
                assert(r@[0] == r.caches@[0]@);
                assert(pow2(0) == 1);
                assert(r.caches@[0]@.coset[u] == c0v[u * pow2(0)]);
            }
        }
        r
    }

    /// The transform itself, recursively, on the cache for the current level.
    fn enter(&self, coeffs: Vec<Fp>, k: usize) -> (r: Vec<Fp>)
        requires
            self.wf(),
            1 <= k <= 14,
            coeffs@.len() == pow2(k as nat),
        ensures
            seq_views(r@) == enter_v(self@, k as nat, seq_views(coeffs@)),
            r@.len() == pow2(k as nat),
        decreases k,
    {
        proof {
            vstd::arithmetic::power2::lemma2_to64();
            vstd::arithmetic::power2::lemma_pow2_unfold(k as nat);
        }
        let cache = &self.caches[self.max_k - k];
        proof {
            assert(self@[14 - k as int] == cache@);
            assert(cache_wf(cache@));
            assert(cache@.k == k);
        }
        if k == 1 {
            let pc = cache.get_powered_coset();
            proof {
                assert(cache@.powered.len() == pow2(1));
                assert(seq_views(pc@)[0] == pc@[0]@);
                assert(seq_views(pc@)[1] == pc@[1]@);
            }
            let a = pc[0].mul(&coeffs[1]);
            let b = pc[1].mul(&coeffs[1]);
            let out0 = coeffs[0].add(&a);
            let out1 = coeffs[0].add(&b);
            let mut out: Vec<Fp> = Vec::new();
            out.push(out0);
            out.push(out1);
            proof {
                assert(seq_views(out@) =~= enter_v(self@, 1, seq_views(coeffs@)));
            }
            out
        } else {
            let half = coeffs.len() / 2;
            let ghost p0 = seq_views(coeffs@);
            let (low_in, high_in) = split_vec(coeffs, half);
            proof {
                assert(seq_views(low_in@) =~= p0.take(half as int));
                assert(seq_views(high_in@) =~= p0.skip(half as int));
            }
            let low = self.enter(low_in, k - 1);
            let high = self.enter(high_in, k - 1);
            let low_s = copy_vec(&low);
            let high_s = copy_vec(&high);
            let (low2, high2) = cache.extend(low, high, k);
            let pc = cache.get_powered_coset();
            proof {
                assert(cache@.powered.len() == pow2(k as nat));
            }
            let out = crate::ecfft::arithmetic::serial_integrate_evaluation(
                &low_s,
                &high_s,
                &low2,
                &high2,
                pc,
            );
            proof {
                let ghost lowv = enter_v(self@, (k - 1) as nat, p0.take(half as int));
                let ghost highv = enter_v(self@, (k - 1) as nat, p0.skip(half as int));
                assert(seq_views(low_s@) == lowv);
                assert(seq_views(high_s@) == highv);
                let ext = extend_v(cache@.trees, 0, lowv, highv);
                assert((seq_views(low2@), seq_views(high2@)) == ext);
                assert(seq_views(out@) == integrate_v(lowv, highv, ext.0, ext.1, cache@.powered));
                assert(seq_views(out@) == enter_v(self@, k as nat, p0));
                lemma_enter_v_len(self@, k as nat, p0);
            }
            out
        }
    }

    /// Evaluates a coefficient polynomial of length `2^k` at every point of
    /// the level-`k` coset. For `k == 1` the two outputs are the Horner
    /// evaluations of the polynomial at the two coset points; for every `k`,
    /// under the `extension_hypothesis` on the caches, every output is the
    /// Horner evaluation at its coset point, the all-zero polynomial maps to
    /// zeros, and the constant-one polynomial maps to ones.
    pub fn evaluate(&self, k: usize, coeffs: Polynomial<Fp, Coefficients>) -> (r: Polynomial<
        Fp,
        PointValue,
    >)
        requires
            self.wf(),
            1 <= k <= self.max_k_spec(),
            coeffs@.len() == pow2(k as nat),
        ensures
            r@ == enter_v(self@, k as nat, coeffs@),
            r@.len() == pow2(k as nat),
            k == 1 && (forall|i: int| 0 <= i < coeffs@.len() ==> coeffs@[i] < p_mod()) ==> forall|
                j: int,
            |
                0 <= j < 2 ==> r@[j] == poly_eval(
                    coeffs@,
                    self@[self@.len() - 1].coset[j],
                    p_mod(),
                ),
            (forall|i: int| 0 <= i < coeffs@.len() ==> coeffs@[i] == 0) ==> forall|j: int|
                0 <= j < r@.len() ==> r@[j] == 0,
            coeffs_bounded(coeffs@) && (forall|i: int|
                0 <= i < self@.len() ==> extension_hypothesis(#[trigger] self@[i])) ==> forall|
                j: int,
            |
                0 <= j < r@.len() ==> r@[j] == poly_eval(
                    coeffs@,
                    self@[self@.len() - k].coset[j],
                    p_mod(),
                ),
            coeffs@[0] == 1 && (forall|i: int| 1 <= i < coeffs@.len() ==> coeffs@[i] == 0) && (
            forall|i: int|
                0 <= i < self@.len() ==> extension_hypothesis(#[trigger] self@[i])) ==> forall|
                j: int,
            |
                0 <= j < r@.len() ==> r@[j] == 1,
    {
        let ghost pv = coeffs@;
        let values = coeffs.get_values();
        let out = self.enter(values, k);
        let r = Polynomial::<Fp, PointValue>::from_point_values(out);
        proof {
            if k == 1 && (forall|i: int| 0 <= i < pv.len() ==> pv[i] < p_mod()) {
                vstd::arithmetic::power2::lemma2_to64();
                lemma_enter_v_base_horner(self@, pv);
            }
            if forall|i: int| 0 <= i < pv.len() ==> pv[i] == 0 {
                lemma_enter_v_zero(self@, k as nat, pv);
            }
            if coeffs_bounded(pv) && (forall|i: int|
                0 <= i < self@.len() ==> extension_hypothesis(#[trigger] self@[i])) {
                lemma_enter_v_horner(self@, k as nat, pv);
            }
            if pv[0] == 1 && (forall|i: int| 1 <= i < pv.len() ==> pv[i] == 0) && (forall|i: int|
                0 <= i < self@.len() ==> extension_hypothesis(#[trigger] self@[i])) {
                assert(coeffs_bounded(pv));
                lemma_enter_v_horner(self@, k as nat, pv);
                assert forall|j: int| 0 <= j < r@.len() implies r@[j] == 1 by {
                    crate::polynomial::lemma_poly_eval_constant_one(
                        pv,
                        self@[self@.len() - k].coset[j],
                        p_mod(),
                    );
                }
            }
        }
        r
    }

    /// The cache for level `k`.
    pub fn get_cache(&self, k: usize) -> (r: &EcFftCache)
        requires
            self.wf(),
            1 <= k <= self.max_k_spec(),
        ensures
            r@ == self@[self@.len() - k],
            cache_wf(r@),
    {
        let r = &self.caches[self.max_k - k];
        proof {
            assert(self@[14 - k as int] == r@);
        }
        r
    }
}

} // verus!
