//! The low-degree extension: 2x2 matrix mixes over twin positions, the
//! divide-and-conquer recursion that sends evaluations on `S` to evaluations
//! on `S'`, and the pointwise combine step of the outer transform.

use vstd::prelude::*;

use vstd::arithmetic::power2::pow2;

use crate::ecfft::curve::{fadd, fmul};
use crate::ecfft::fftree::{FfTree, TreeV};
use crate::ecfft::isogeny::{
    factor_det_v, factor_mat_v, is_field_inv, is_inv_factor_mat, is_psi, iso_consts,
    lemma_adj_entry, mat_view, psi_den, scaled_adjugate_v, FactorMat,
};
use crate::ecfft::utils::{cache_wf, level_exp, level_factors, level_sizes, CacheV};
use crate::field::pow_mod;
use crate::fp::p_mod;
use crate::polynomial::{lemma_poly_eval_bound, poly_eval};
use crate::common::{concat_vec, split_vec};
use crate::fp::Fp;
use crate::polynomial::seq_views;

verus! {

/// A 2x2 matrix `((f0, f1), (f2, f3))` acting on a pair:
/// `(a, b) -> (f0*a + f1*b, f2*a + f3*b)`.
pub open spec fn mat_apply(m: ((nat, nat), (nat, nat)), a: nat, b: nat) -> (nat, nat) {
    (fadd(fmul(m.0.0, a), fmul(m.0.1, b)), fadd(fmul(m.1.0, a), fmul(m.1.1, b)))
}

/// The pairwise mix of two half-vectors by a table of matrices: position `i`
/// of both halves is sent through `mats[i]`.
pub open spec fn mix_seqs(l: Seq<nat>, r: Seq<nat>, mats: Seq<((nat, nat), (nat, nat))>) -> (
    Seq<nat>,
    Seq<nat>,
) {
    (
        Seq::new(l.len(), |i: int| mat_apply(mats[i], l[i], r[i]).0),
        Seq::new(r.len(), |i: int| mat_apply(mats[i], l[i], r[i]).1),
    )
}

/// The low-degree extension on residues, on a pair of equal-length vectors
/// carried through the recursion together: mix the two halves by the level's
/// inverse matrices, recurse on each half, mix back by the forward matrices;
/// a two-point vector takes the terminal level's single inverse and forward
/// matrix in turn.
pub open spec fn extend_v(trees: Seq<TreeV>, depth: nat, p: Seq<nat>, q: Seq<nat>) -> (
    Seq<nat>,
    Seq<nat>,
)
    decreases p.len(),
{
    if p.len() <= 2 {
        let mi = trees[depth as int].inv_factor[0];
        let mf = trees[depth as int].factor[0];
        let a = mat_apply(mi, p[0], p[1]);
        let pa = mat_apply(mf, a.0, a.1);
        let b = mat_apply(mi, q[0], q[1]);
        let qa = mat_apply(mf, b.0, b.1);
        (seq![pa.0, pa.1], seq![qa.0, qa.1])
    } else {
        let half = p.len() as int / 2;
        let mixed_p = mix_seqs(p.take(half), p.skip(half), trees[depth as int].inv_factor);
        let mixed_q = mix_seqs(q.take(half), q.skip(half), trees[depth as int].inv_factor);
        let left = extend_v(trees, depth + 1, mixed_p.0, mixed_q.0);
        let right = extend_v(trees, depth + 1, mixed_p.1, mixed_q.1);
        let out_p = mix_seqs(left.0, right.0, trees[depth as int].factor);
        let out_q = mix_seqs(left.1, right.1, trees[depth as int].factor);
        (out_p.0 + out_p.1, out_q.0 + out_q.1)
    }
}

/// The combine step of the outer transform: even outputs pair the
/// `S`-evaluations with the even powered-coset entries, odd outputs pair the
/// `S'`-evaluations with the odd ones.
pub open spec fn integrate_v(
    low_s: Seq<nat>,
    high_s: Seq<nat>,
    low_sp: Seq<nat>,
    high_sp: Seq<nat>,
    powered: Seq<nat>,
) -> Seq<nat> {
    Seq::new(
        2 * low_s.len(),
        |t: int|
            if t % 2 == 0 {
                fadd(low_s[t / 2], fmul(powered[t], high_s[t / 2]))
            } else {
                fadd(low_sp[t / 2], fmul(powered[t], high_sp[t / 2]))
            },
    )
}


/// `v` holds, position by position, the evaluations of the coefficient
/// sequence `p` at the points of `dom`.
pub open spec fn evals_on(v: Seq<nat>, p: Seq<nat>, dom: Seq<nat>) -> bool {
    forall|i: int| 0 <= i < v.len() ==> v[i] == poly_eval(p, dom[i], p_mod())
}

/// Every entry is a residue of the base field.
pub open spec fn coeffs_bounded(p: Seq<nat>) -> bool {
    forall|i: int| 0 <= i < p.len() ==> p[i] < p_mod()
}

/// The combination `f * (a + x*b)` that one row of a factor matrix computes
/// on a pair of half-polynomial values.
pub open spec fn weighted_pair(f: nat, x: nat, a: nat, b: nat) -> nat {
    fmul(f, fadd(a, fmul(x, b)))
}

/// At position `i` of level `l`, `(u0, u1)` decomposes `p`: at each of the
/// four domain points of the twin pairs at `i`, `p` evaluates to
/// `den^e * (u0(y) + x*u1(y))`, with `y` the next level's point that both
/// members of the pair share.
pub open spec fn split_point_ok(
    c: CacheV,
    l: int,
    p: Seq<nat>,
    u0: Seq<nat>,
    u1: Seq<nat>,
    i: int,
) -> bool {
    let t = c.trees[l];
    let nx = c.trees[l + 1];
    let half = t.s.len() as int / 2;
    let iso = iso_consts(l + 1);
    let e = level_exp(c.k, l as nat);
    &&& poly_eval(p, t.s[i], p_mod()) == weighted_pair(
        pow_mod(psi_den(iso, t.s[i]), e, p_mod()),
        t.s[i],
        poly_eval(u0, nx.s[i], p_mod()),
        poly_eval(u1, nx.s[i], p_mod()),
    )
    &&& poly_eval(p, t.s[half + i], p_mod()) == weighted_pair(
        pow_mod(psi_den(iso, t.s[half + i]), e, p_mod()),
        t.s[half + i],
        poly_eval(u0, nx.s[i], p_mod()),
        poly_eval(u1, nx.s[i], p_mod()),
    )
    &&& poly_eval(p, t.sp[i], p_mod()) == weighted_pair(
        pow_mod(psi_den(iso, t.sp[i]), e, p_mod()),
        t.sp[i],
        poly_eval(u0, nx.sp[i], p_mod()),
        poly_eval(u1, nx.sp[i], p_mod()),
    )
    &&& poly_eval(p, t.sp[half + i], p_mod()) == weighted_pair(
        pow_mod(psi_den(iso, t.sp[half + i]), e, p_mod()),
        t.sp[half + i],
        poly_eval(u0, nx.sp[i], p_mod()),
        poly_eval(u1, nx.sp[i], p_mod()),
    )
}

/// `(u0, u1)` decomposes `p` at every twin pair of level `l`, with residue
/// coefficients of half `p`'s length.
pub open spec fn level_split_ok(c: CacheV, l: int, p: Seq<nat>, u0: Seq<nat>, u1: Seq<nat>) -> bool {
    let half = c.trees[l].s.len() as int / 2;
    &&& u0.len() == half && u1.len() == half
    &&& coeffs_bounded(u0) && coeffs_bounded(u1)
    &&& forall|i: int| 0 <= i < half ==> #[trigger] split_point_ok(c, l, p, u0, u1, i)
}

/// Some decomposition of `p` exists at level `l`.
pub open spec fn splittable(c: CacheV, l: int, p: Seq<nat>) -> bool {
    exists|u0: Seq<nat>, u1: Seq<nat>| #[trigger] level_split_ok(c, l, p, u0, u1)
}

/// Every residue polynomial of the level's length has a decomposition.
pub open spec fn level_splits(c: CacheV, l: int) -> bool {
    forall|p: Seq<nat>|
        p.len() == pow2((c.k - 1 - l) as nat) && coeffs_bounded(p) ==> #[trigger] splittable(
            c,
            l,
            p,
        )
}

/// The determinant of the inverse-side factor matrix at position `i` of
/// level `l`.
pub open spec fn det_at(c: CacheV, l: int, i: int) -> nat {
    let t = c.trees[l];
    let half = t.s.len() as int / 2;
    factor_det_v(iso_consts(l + 1), t.s[i], t.s[half + i], level_exp(c.k, l as nat))
}

/// The isogeny of level `l` sends position `half + i` of each half-domain to
/// the same next-level point as position `i`: the twin identification the
/// matrix pairing relies on.
pub open spec fn twin_at(c: CacheV, l: int, i: int) -> bool {
    let t = c.trees[l];
    let half = t.s.len() as int / 2;
    &&& is_psi(iso_consts(l + 1), t.s[half + i], c.trees[l + 1].s[i])
    &&& is_psi(iso_consts(l + 1), t.sp[half + i], c.trees[l + 1].sp[i])
}

/// What correctness of the extension assumes of the baked curve and isogeny
/// constants, and what no proof here can check of them — the domain tests
/// exercise these facts at every level instead:
/// all domain values are residues; at every level the isogeny identifies the
/// twin pairs; every inverse-side factor matrix has a unit determinant; and
/// every residue polynomial splits into two half-length polynomials through
/// the level's isogeny.
pub open spec fn extension_hypothesis(c: CacheV) -> bool {
    &&& forall|l: int, i: int|
        0 <= l < c.trees.len() && 0 <= i < c.trees[l].s.len() ==> (#[trigger] c.trees[l].s[i])
            < p_mod() && c.trees[l].sp[i] < p_mod()
    &&& forall|l: int, i: int|
        0 <= l < c.k - 1 && 0 <= i < c.trees[l].s.len() as int / 2 ==> #[trigger] det_at(c, l, i)
            != 0
    &&& forall|l: int, i: int|
        0 <= l < c.k - 1 && 0 <= i < c.trees[l].s.len() as int / 2 ==> #[trigger] twin_at(c, l, i)
    &&& forall|l: int| 0 <= l < c.k - 2 ==> #[trigger] level_splits(c, l)
}


/// Some point of `dom` is the isogeny's value at `x`.
pub open spec fn psi_into(iso: (nat, nat), x: nat, dom: Seq<nat>) -> bool {
    exists|j: int| 0 <= j < dom.len() && is_psi(iso, x, #[trigger] dom[j])
}

/// `y` is the isogeny's value at some point of `dom`.
pub open spec fn psi_from(iso: (nat, nat), dom: Seq<nat>, y: nat) -> bool {
    exists|i: int| 0 <= i < dom.len() && is_psi(iso, #[trigger] dom[i], y)
}

/// Under the twin identification, one level's half-domains collapse onto the
/// next level's exactly: every point of `S` — either half — maps through the
/// level's isogeny to a point of the next `S`, and every point of the next
/// `S` is such an image; likewise for `S'`. This is the dedup-halving of the
/// domains: the image of the `2^(k-1-l)` points of `S` is the `2^(k-2-l)`
/// points of the next level. The premises are the clauses that `cache_wf`
/// and the `extension_hypothesis` give at level `l`.
pub proof fn lemma_domain_halving(c: CacheV, l: int)
    requires
        0 <= l < c.k - 1,
        level_sizes(c.trees[l], c.k, l as nat),
        level_sizes(c.trees[l + 1], c.k, (l + 1) as nat),
        crate::ecfft::utils::level_step(c.trees[l], c.trees[l + 1].s, c.trees[l + 1].sp, l as nat),
        forall|i: int| 0 <= i < c.trees[l].s.len() as int / 2 ==> #[trigger] twin_at(c, l, i),
    ensures
        forall|i: int|
            0 <= i < c.trees[l].s.len() ==> psi_into(
                iso_consts(l + 1),
                #[trigger] c.trees[l].s[i],
                c.trees[l + 1].s,
            ),
        forall|j: int|
            0 <= j < c.trees[l + 1].s.len() ==> psi_from(
                iso_consts(l + 1),
                c.trees[l].s,
                #[trigger] c.trees[l + 1].s[j],
            ),
        forall|i: int|
            0 <= i < c.trees[l].sp.len() ==> psi_into(
                iso_consts(l + 1),
                #[trigger] c.trees[l].sp[i],
                c.trees[l + 1].sp,
            ),
        forall|j: int|
            0 <= j < c.trees[l + 1].sp.len() ==> psi_from(
                iso_consts(l + 1),
                c.trees[l].sp,
                #[trigger] c.trees[l + 1].sp[j],
            ),
{
    let t = c.trees[l];
    let nx = c.trees[l + 1];
    let half = t.s.len() as int / 2;
    let iso = iso_consts(l + 1);
    vstd::arithmetic::power2::lemma_pow2_unfold((c.k - 1 - l) as nat);
    assert(nx.s.len() == half && nx.sp.len() == half);
    assert forall|i: int| 0 <= i < t.s.len() implies psi_into(iso, #[trigger] t.s[i], nx.s) by {
        if i < half {
            assert(is_psi(iso, t.s[i], nx.s[i]));
        } else {
            assert(twin_at(c, l, i - half));
            assert(is_psi(iso, t.s[half + (i - half)], nx.s[i - half]));
            assert(t.s[half + (i - half)] == t.s[i]);
        }
    }
    assert forall|j: int| 0 <= j < nx.s.len() implies psi_from(iso, t.s, #[trigger] nx.s[j]) by {
        assert(is_psi(iso, t.s[j], nx.s[j]));
    }
    assert forall|i: int| 0 <= i < t.sp.len() implies psi_into(iso, #[trigger] t.sp[i], nx.sp) by {
        if i < half {
            assert(is_psi(iso, t.sp[i], nx.sp[i]));
        } else {
            assert(twin_at(c, l, i - half));
            assert(is_psi(iso, t.sp[half + (i - half)], nx.sp[i - half]));
            assert(t.sp[half + (i - half)] == t.sp[i]);
        }
    }
    assert forall|j: int| 0 <= j < nx.sp.len() implies psi_from(iso, t.sp, #[trigger] nx.sp[j])
        by {
        assert(is_psi(iso, t.sp[j], nx.sp[j]));
    }
}

/// Multiplying one by a residue keeps it.
proof fn lemma_fmul_one(a: nat)
    requires
        a < p_mod(),
    ensures
        fmul(1, a) == a,
        fmul(a, 1) == a,
{
    vstd::arithmetic::mul::lemma_mul_basics(a as int);
    vstd::arithmetic::div_mod::lemma_small_mod(a, p_mod());
}

/// A factor-matrix row computes the weighted pair combination:
/// `f*(a + x*b) = f*a + (x*f)*b` mod p.
proof fn lemma_weighted_row(f: nat, x: nat, a: nat, b: nat)
    ensures
        weighted_pair(f, x, a, b) == fadd(fmul(f, a), fmul(fmul(x, f), b)),
{
    let m = p_mod() as int;
    let fi = f as int;
    let xi = x as int;
    let ai = a as int;
    let bi = b as int;
    // left: f * ((a + (x*b) % m) % m) reduces to f * (a + x*b)
    vstd::arithmetic::div_mod::lemma_add_mod_noop_right(ai, xi * bi, m);
    vstd::arithmetic::div_mod::lemma_mul_mod_noop_right(fi, ai + xi * bi, m);
    assert(weighted_pair(f, x, a, b) as int == (fi * (ai + xi * bi)) % m);
    // right: (f*a) % m + ((x*f) % m * b) % m reduces the same way
    vstd::arithmetic::div_mod::lemma_mul_mod_noop_left(xi * fi, bi, m);
    vstd::arithmetic::div_mod::lemma_add_mod_noop(fi * ai, (xi * fi) * bi, m);
    assert(fadd(fmul(f, a), fmul(fmul(x, f), b)) as int == (fi * ai + (xi * fi) * bi) % m);
    assert(fi * (ai + xi * bi) == fi * ai + (xi * fi) * bi) by (nonlinear_arith);
}

/// At exponent zero the factor-matrix rows are plain Horner pairs: applying
/// the matrix of `(x0, x1)` to coefficients `(a, b)` evaluates `a + x*b` at
/// the two points.
proof fn lemma_mat_row_horner(iso: (nat, nat), x0: nat, x1: nat, a: nat, b: nat)
    requires
        x0 < p_mod(),
        x1 < p_mod(),
        a < p_mod(),
        b < p_mod(),
    ensures
        mat_apply(factor_mat_v(iso, x0, x1, 0), a, b).0 == poly_eval(seq![a, b], x0, p_mod()),
        mat_apply(factor_mat_v(iso, x0, x1, 0), a, b).1 == poly_eval(seq![a, b], x1, p_mod()),
{
    assert(pow_mod(psi_den(iso, x0), 0, p_mod()) == 1nat % p_mod());
    assert(pow_mod(psi_den(iso, x1), 0, p_mod()) == 1nat % p_mod());
    vstd::arithmetic::div_mod::lemma_small_mod(1nat, p_mod());
    lemma_fmul_one(a);
    lemma_fmul_one(x0);
    lemma_fmul_one(x1);
    crate::ecfft::lemma_pair_horner(x0, a, b);
    crate::ecfft::lemma_pair_horner(x1, a, b);
}

/// Applying the stored inverse matrix after the forward matrix of the same
/// twin pair recovers the pair of coefficients, wherever the determinant is
/// a unit.
proof fn lemma_mat_cancel(iso: (nat, nat), s0: nat, s1: nat, e: nat, mi: (
    (nat, nat),
    (nat, nat),
), a: nat, b: nat)
    requires
        is_inv_factor_mat(iso, s0, s1, e, mi),
        factor_det_v(iso, s0, s1, e) != 0,
        a < p_mod(),
        b < p_mod(),
    ensures
        ({
            let fw = mat_apply(factor_mat_v(iso, s0, s1, e), a, b);
            mat_apply(mi, fw.0, fw.1) == (a, b)
        }),
{
    let m = p_mod() as int;
    let fm = factor_mat_v(iso, s0, s1, e);
    let ((f1, f2), (f3, f4)) = fm;
    let det = factor_det_v(iso, s0, s1, e);
    let d = choose|d: nat|
        is_field_inv(factor_det_v(iso, s0, s1, e), d) && mi == scaled_adjugate_v(iso, s0, s1, e, d);
    assert(fmul(det, d) == 1);
    let fi1 = f1 as int;
    let fi2 = f2 as int;
    let fi3 = f3 as int;
    let fi4 = f4 as int;
    let ai = a as int;
    let bi = b as int;
    let di = d as int;
    // the reduced determinant is congruent to the raw one, so d inverts both
    let det_raw = (fi1 * fi4) - (fi2 * fi3);
    assert((det_raw * di) % m == 1) by {
        assert(det as int == ((((fi1 * fi4) % m + m) - (fi2 * fi3) % m) as nat) % p_mod());
        vstd::arithmetic::div_mod::lemma_mod_multiples_vanish(
            1,
            (fi1 * fi4) % m - (fi2 * fi3) % m,
            m,
        );
        vstd::arithmetic::div_mod::lemma_sub_mod_noop(fi1 * fi4, fi2 * fi3, m);
        assert(det as int == det_raw % m);
        vstd::arithmetic::div_mod::lemma_mul_mod_noop_left(det_raw, di, m);
    }
    let fw = mat_apply(fm, a, b);
    let lv = fw.0 as int;
    let rv = fw.1 as int;
    // the forward outputs are congruent to the raw row sums
    let lraw = fi1 * ai + fi2 * bi;
    let rraw = fi3 * ai + fi4 * bi;
    assert(lv == lraw % m) by {
        vstd::arithmetic::div_mod::lemma_add_mod_noop(fi1 * ai, fi2 * bi, m);
    }
    assert(rv == rraw % m) by {
        vstd::arithmetic::div_mod::lemma_add_mod_noop(fi3 * ai, fi4 * bi, m);
    }
    // first recovered entry: d * (f4*L - f2*R) collapses to (d*det_raw)*a
    lemma_adj_entry(f4, f2, fw.0, fw.1, d);
    assert(mat_apply(mi, fw.0, fw.1).0 as int == (di * ((fi4 * lv) - (fi2 * rv))) % m);
    assert((di * ((fi4 * lv) - (fi2 * rv))) % m == (di * ((fi4 * lraw) - (fi2 * rraw))) % m) by {
        vstd::arithmetic::div_mod::lemma_mul_mod_noop_right(fi4, lraw, m);
        vstd::arithmetic::div_mod::lemma_mul_mod_noop_right(fi2, rraw, m);
        assert((fi4 * lv) % m == (fi4 * lraw) % m);
        assert((fi2 * rv) % m == (fi2 * rraw) % m);
        vstd::arithmetic::div_mod::lemma_sub_mod_noop(fi4 * lv, fi2 * rv, m);
        vstd::arithmetic::div_mod::lemma_sub_mod_noop(fi4 * lraw, fi2 * rraw, m);
        vstd::arithmetic::div_mod::lemma_mul_mod_noop_right(di, (fi4 * lv) - (fi2 * rv), m);
        vstd::arithmetic::div_mod::lemma_mul_mod_noop_right(di, (fi4 * lraw) - (fi2 * rraw), m);
    }
    assert((fi4 * lraw) - (fi2 * rraw) == det_raw * ai) by (nonlinear_arith)
        requires
            det_raw == (fi1 * fi4) - (fi2 * fi3) && lraw == fi1 * ai + fi2 * bi && rraw == fi3 * ai
                + fi4 * bi,
    ;
    assert((di * (det_raw * ai)) % m == ai % m) by {
        assert(di * (det_raw * ai) == (det_raw * di) * ai) by (nonlinear_arith);
        vstd::arithmetic::div_mod::lemma_mul_mod_noop_left(det_raw * di, ai, m);
        vstd::arithmetic::mul::lemma_mul_basics(ai);
    }
    vstd::arithmetic::div_mod::lemma_small_mod(a, p_mod());
    // second recovered entry, symmetrically: d * (f1*R - f3*L)
    lemma_adj_entry(f1, f3, fw.1, fw.0, d);
    assert(mat_apply(mi, fw.0, fw.1).1 as int == (di * ((fi1 * rv) - (fi3 * lv))) % m);
    assert((di * ((fi1 * rv) - (fi3 * lv))) % m == (di * ((fi1 * rraw) - (fi3 * lraw))) % m) by {
        vstd::arithmetic::div_mod::lemma_mul_mod_noop_right(fi1, rraw, m);
        vstd::arithmetic::div_mod::lemma_mul_mod_noop_right(fi3, lraw, m);
        vstd::arithmetic::div_mod::lemma_sub_mod_noop(fi1 * rv, fi3 * lv, m);
        vstd::arithmetic::div_mod::lemma_sub_mod_noop(fi1 * rraw, fi3 * lraw, m);
        vstd::arithmetic::div_mod::lemma_mul_mod_noop_right(di, (fi1 * rv) - (fi3 * lv), m);
        vstd::arithmetic::div_mod::lemma_mul_mod_noop_right(di, (fi1 * rraw) - (fi3 * lraw), m);
    }
    assert((fi1 * rraw) - (fi3 * lraw) == det_raw * bi) by (nonlinear_arith)
        requires
            det_raw == (fi1 * fi4) - (fi2 * fi3) && lraw == fi1 * ai + fi2 * bi && rraw == fi3 * ai
                + fi4 * bi,
    ;
    assert((di * (det_raw * bi)) % m == bi % m) by {
        assert(di * (det_raw * bi) == (det_raw * di) * bi) by (nonlinear_arith);
        vstd::arithmetic::div_mod::lemma_mul_mod_noop_left(det_raw * di, bi, m);
        vstd::arithmetic::mul::lemma_mul_basics(bi);
    }
    vstd::arithmetic::div_mod::lemma_small_mod(b, p_mod());
}



/// The inverse mix at position `i` recovers the decomposition's two
/// half-polynomial values at the next level's point.
proof fn lemma_recover_pair(c: CacheV, l: int, p: Seq<nat>, u0: Seq<nat>, u1: Seq<nat>, i: int)
    requires
        0 <= l,
        0 <= i < c.trees[l].s.len() as int / 2,
        split_point_ok(c, l, p, u0, u1, i),
        det_at(c, l, i) != 0,
        is_inv_factor_mat(
            iso_consts(l + 1),
            c.trees[l].s[i],
            c.trees[l].s[c.trees[l].s.len() as int / 2 + i],
            level_exp(c.k, l as nat),
            c.trees[l].inv_factor[i],
        ),
    ensures
        mat_apply(
            c.trees[l].inv_factor[i],
            poly_eval(p, c.trees[l].s[i], p_mod()),
            poly_eval(p, c.trees[l].s[c.trees[l].s.len() as int / 2 + i], p_mod()),
        ) == (
            poly_eval(u0, c.trees[l + 1].s[i], p_mod()),
            poly_eval(u1, c.trees[l + 1].s[i], p_mod()),
        ),
{
    let m = p_mod();
    let t = c.trees[l];
    let nx = c.trees[l + 1];
    let half = t.s.len() as int / 2;
    let iso = iso_consts(l + 1);
    let e = level_exp(c.k, l as nat);
    let x0 = t.s[i];
    let x1 = t.s[half + i];
    let a = poly_eval(u0, nx.s[i], m);
    let b = poly_eval(u1, nx.s[i], m);
    lemma_poly_eval_bound(u0, nx.s[i], m);
    lemma_poly_eval_bound(u1, nx.s[i], m);
    lemma_weighted_row(pow_mod(psi_den(iso, x0), e, m), x0, a, b);
    lemma_weighted_row(pow_mod(psi_den(iso, x1), e, m), x1, a, b);
    assert((poly_eval(p, x0, m), poly_eval(p, x1, m)) == mat_apply(
        factor_mat_v(iso, x0, x1, e),
        a,
        b,
    ));
    lemma_mat_cancel(iso, x0, x1, e, t.inv_factor[i], a, b);
}

/// The forward mix at position `i` reassembles the decomposition's weighted
/// combinations at the two primed points.
proof fn lemma_forward_pair(c: CacheV, l: int, p: Seq<nat>, u0: Seq<nat>, u1: Seq<nat>, i: int)
    requires
        0 <= l,
        0 <= i < c.trees[l].s.len() as int / 2,
        split_point_ok(c, l, p, u0, u1, i),
        c.trees[l].factor[i] == factor_mat_v(
            iso_consts(l + 1),
            c.trees[l].sp[i],
            c.trees[l].sp[c.trees[l].s.len() as int / 2 + i],
            level_exp(c.k, l as nat),
        ),
    ensures
        mat_apply(
            c.trees[l].factor[i],
            poly_eval(u0, c.trees[l + 1].sp[i], p_mod()),
            poly_eval(u1, c.trees[l + 1].sp[i], p_mod()),
        ) == (
            poly_eval(p, c.trees[l].sp[i], p_mod()),
            poly_eval(p, c.trees[l].sp[c.trees[l].s.len() as int / 2 + i], p_mod()),
        ),
{
    let m = p_mod();
    let t = c.trees[l];
    let nx = c.trees[l + 1];
    let half = t.s.len() as int / 2;
    let iso = iso_consts(l + 1);
    let e = level_exp(c.k, l as nat);
    let a = poly_eval(u0, nx.sp[i], m);
    let b = poly_eval(u1, nx.sp[i], m);
    lemma_weighted_row(pow_mod(psi_den(iso, t.sp[i]), e, m), t.sp[i], a, b);
    lemma_weighted_row(pow_mod(psi_den(iso, t.sp[half + i]), e, m), t.sp[half + i], a, b);
}

/// Conditional correctness of the low-degree extension: under the
/// `extension_hypothesis` — the facts of the baked constants that only the
/// domain tests can check — if the two carried vectors hold the evaluations
/// of residue polynomials `p` and `q` on the level's `S`, the extension
/// returns their evaluations on `S'`. The proof is the matrix algebra alone:
/// each inverse mix recovers the decomposition's half-polynomial values,
/// the recursion extends them to the next level's `S'`, and each forward mix
/// reassembles the weighted combination that the decomposition equates with
/// `p` at the `S'` points.
#[verifier::rlimit(100)]
pub proof fn lemma_extend_v_interpolates(
    c: CacheV,
    depth: nat,
    p: Seq<nat>,
    q: Seq<nat>,
    v: Seq<nat>,
    w: Seq<nat>,
)
    requires
        cache_wf(c),
        extension_hypothesis(c),
        depth + 2 <= c.k,
        p.len() == pow2((c.k - 1 - depth) as nat),
        q.len() == p.len(),
        v.len() == p.len(),
        w.len() == p.len(),
        coeffs_bounded(p),
        coeffs_bounded(q),
        forall|i: int|
            0 <= i < v.len() ==> v[i] == poly_eval(p, c.trees[depth as int].s[i], p_mod()),
        forall|i: int|
            0 <= i < w.len() ==> w[i] == poly_eval(q, c.trees[depth as int].s[i], p_mod()),
    ensures
        extend_v(c.trees, depth, v, w).0.len() == v.len(),
        extend_v(c.trees, depth, v, w).1.len() == w.len(),
        forall|i: int|
            0 <= i < v.len() ==> extend_v(c.trees, depth, v, w).0[i] == poly_eval(
                p,
                c.trees[depth as int].sp[i],
                p_mod(),
            ),
        forall|i: int|
            0 <= i < w.len() ==> extend_v(c.trees, depth, v, w).1[i] == poly_eval(
                q,
                c.trees[depth as int].sp[i],
                p_mod(),
            ),
    decreases p.len(),
{
    let m = p_mod();
    let k = c.k;
    let t = c.trees[depth as int];
    let iso = iso_consts(depth as int + 1);
    let e = level_exp(k, depth);
    assert(level_sizes(c.trees[depth as int], k, depth));
    assert(level_factors(c.trees[depth as int], k, depth));
    crate::ecfft::lemma_extend_v_len(c.trees, depth, v, w, (k - 1 - depth) as nat);
    vstd::arithmetic::power2::lemma2_to64();
    vstd::arithmetic::power2::lemma_pow2_unfold((k - 1 - depth) as nat);
    vstd::arithmetic::power2::lemma_pow2_pos((k - 2 - depth) as nat);
    let out = extend_v(c.trees, depth, v, w);
    if p.len() == 2 {
        assert(k - 1 - depth == 1) by {
            if k - 1 - depth >= 2 {
                vstd::arithmetic::power2::lemma_pow2_strictly_increases(1, (k - 1 - depth) as nat);
            }
        }
        assert(t.factor.len() == 1 && t.inv_factor.len() == 1);
        assert(e == 0);
        let s0 = t.s[0];
        let s1 = t.s[1];
        let sp0 = t.sp[0];
        let sp1 = t.sp[1];
        assert(s0 < m && s1 < m && sp0 < m && sp1 < m) by {
            assert(c.trees[depth as int].s[0] < m && c.trees[depth as int].sp[0] < m);
            assert(c.trees[depth as int].s[1] < m && c.trees[depth as int].sp[1] < m);
        }
        assert(det_at(c, depth as int, 0) != 0);
        assert(is_inv_factor_mat(iso, s0, s1, e, t.inv_factor[0]));
        assert(t.factor[0] == factor_mat_v(iso, sp0, sp1, e));
        // the inputs are the forward matrix of (s0, s1) applied to (p[0], p[1])
        lemma_mat_row_horner(iso, s0, s1, p[0], p[1]);
        lemma_mat_row_horner(iso, s0, s1, q[0], q[1]);
        assert(seq![p[0], p[1]] =~= p);
        assert(seq![q[0], q[1]] =~= q);
        let fwp = mat_apply(factor_mat_v(iso, s0, s1, e), p[0], p[1]);
        assert((v[0], v[1]) == fwp);
        lemma_mat_cancel(iso, s0, s1, e, t.inv_factor[0], p[0], p[1]);
        assert(mat_apply(t.inv_factor[0], v[0], v[1]) == (p[0], p[1]));
        let fwq = mat_apply(factor_mat_v(iso, s0, s1, e), q[0], q[1]);
        assert((w[0], w[1]) == fwq);
        lemma_mat_cancel(iso, s0, s1, e, t.inv_factor[0], q[0], q[1]);
        assert(mat_apply(t.inv_factor[0], w[0], w[1]) == (q[0], q[1]));
        // the forward matrix of (sp0, sp1) then evaluates at the primed pair
        lemma_mat_row_horner(iso, sp0, sp1, p[0], p[1]);
        lemma_mat_row_horner(iso, sp0, sp1, q[0], q[1]);
        assert(out.0[0] == poly_eval(p, sp0, m) && out.0[1] == poly_eval(p, sp1, m));
        assert(out.1[0] == poly_eval(q, sp0, m) && out.1[1] == poly_eval(q, sp1, m));
    } else {
        let half = p.len() as int / 2;
        assert(t.s.len() == p.len() && t.sp.len() == p.len());
        assert(t.factor.len() == half && t.inv_factor.len() == half);
        assert(depth < k - 2) by {
            if k - 1 - depth == 1 {
                assert(p.len() == pow2(1));
            }
        }
        // choose decompositions of p and q at this level
        assert(level_splits(c, depth as int));
        assert(splittable(c, depth as int, p));
        assert(splittable(c, depth as int, q));
        let (u0p, u1p) = choose|u0: Seq<nat>, u1: Seq<nat>|
            level_split_ok(c, depth as int, p, u0, u1);
        let (u0q, u1q) = choose|u0: Seq<nat>, u1: Seq<nat>|
            level_split_ok(c, depth as int, q, u0, u1);
        let nx = c.trees[depth as int + 1];
        let mixed_p = mix_seqs(v.take(half), v.skip(half), t.inv_factor);
        let mixed_q = mix_seqs(w.take(half), w.skip(half), t.inv_factor);
        // the inverse mixes recover the half-polynomial values at the next
        // level's points
        assert forall|i: int| 0 <= i < half implies mixed_p.0[i] == poly_eval(u0p, nx.s[i], m)
            && mixed_p.1[i] == poly_eval(u1p, nx.s[i], m) && mixed_q.0[i] == poly_eval(
            u0q,
            nx.s[i],
            m,
        ) && mixed_q.1[i] == poly_eval(u1q, nx.s[i], m) by {
            assert(split_point_ok(c, depth as int, p, u0p, u1p, i));
            assert(split_point_ok(c, depth as int, q, u0q, u1q, i));
            assert(det_at(c, depth as int, i) != 0);
            assert(is_inv_factor_mat(iso, t.s[i], t.s[half + i], e, t.inv_factor[i]));
            lemma_recover_pair(c, depth as int, p, u0p, u1p, i);
            lemma_recover_pair(c, depth as int, q, u0q, u1q, i);
            assert(v.take(half)[i] == v[i] && v.skip(half)[i] == v[half + i]);
            assert(w.take(half)[i] == w[i] && w.skip(half)[i] == w[half + i]);
        }
        // recurse: the halves are extended to the next level's S'
        assert(u0p.len() == half && u1p.len() == half && u0q.len() == half && u1q.len() == half);
        assert(half == pow2((k - 1 - (depth + 1)) as nat));
        lemma_extend_v_interpolates(c, depth + 1, u0p, u0q, mixed_p.0, mixed_q.0);
        lemma_extend_v_interpolates(c, depth + 1, u1p, u1q, mixed_p.1, mixed_q.1);
        let left = extend_v(c.trees, depth + 1, mixed_p.0, mixed_q.0);
        let right = extend_v(c.trees, depth + 1, mixed_p.1, mixed_q.1);
        // the forward mixes reassemble the weighted pairs at the S' points
        let out_p = mix_seqs(left.0, right.0, t.factor);
        let out_q = mix_seqs(left.1, right.1, t.factor);
        assert forall|i: int| 0 <= i < half implies out_p.0[i] == poly_eval(p, t.sp[i], m)
            && out_p.1[i] == poly_eval(p, t.sp[half + i], m) && out_q.0[i] == poly_eval(
            q,
            t.sp[i],
            m,
        ) && out_q.1[i] == poly_eval(q, t.sp[half + i], m) by {
            assert(split_point_ok(c, depth as int, p, u0p, u1p, i));
            assert(split_point_ok(c, depth as int, q, u0q, u1q, i));
            assert(t.factor[i] == factor_mat_v(iso, t.sp[i], t.sp[half + i], e));
            lemma_forward_pair(c, depth as int, p, u0p, u1p, i);
            lemma_forward_pair(c, depth as int, q, u0q, u1q, i);
            assert(left.0[i] == poly_eval(u0p, nx.sp[i], m) && right.0[i] == poly_eval(
                u1p,
                nx.sp[i],
                m,
            ));
            assert(left.1[i] == poly_eval(u0q, nx.sp[i], m) && right.1[i] == poly_eval(
                u1q,
                nx.sp[i],
                m,
            ));
        }
        // stitch the two output halves together
        assert forall|i: int| 0 <= i < v.len() implies out.0[i] == poly_eval(p, t.sp[i], m)
            && out.1[i] == poly_eval(q, t.sp[i], m) by {
            assert(out.0 == out_p.0 + out_p.1);
            assert(out.1 == out_q.0 + out_q.1);
            if i < half {
                assert(out.0[i] == out_p.0[i]);
                assert(out.1[i] == out_q.0[i]);
            } else {
                assert(out.0[i] == out_p.1[i - half]);
                assert(out.1[i] == out_q.1[i - half]);
                assert(half + (i - half) == i);
            }
        }
    }
}

/// One 2x2 mix over two twin pairs, as in the matrix tables' layout: `(a, b)`
/// from one vector and `(c, d)` from its companion, both through `factor`.
fn matrix_arithmetic(a: Fp, b: Fp, c: Fp, d: Fp, factor: &FactorMat) -> (r: (Fp, Fp, Fp, Fp))
    ensures
        (r.0@, r.1@) == mat_apply(mat_view(*factor), a@, b@),
        (r.2@, r.3@) == mat_apply(mat_view(*factor), c@, d@),
{
    let ((f0, f1), (f2, f3)) = *factor;
    let tmp = f2.mul(&a).add(&f3.mul(&b));
    let na = f0.mul(&a).add(&f1.mul(&b));
    let tmp2 = f2.mul(&c).add(&f3.mul(&d));
    let nc = f0.mul(&c).add(&f1.mul(&d));
    (na, tmp, nc, tmp2)
}

/// The pairwise mix of two vectors and their companions by a table of
/// matrices: position `i` of `(left, right)` and of
/// `(left_prime, right_prime)` is sent through `factor[i]`.
pub fn serial_matrix_arithmetic(
    left: &mut Vec<Fp>,
    right: &mut Vec<Fp>,
    left_prime: &mut Vec<Fp>,
    right_prime: &mut Vec<Fp>,
    factor: &Vec<FactorMat>,
) -> (r: ())
    requires
        old(left)@.len() == factor@.len(),
        old(right)@.len() == factor@.len(),
        old(left_prime)@.len() == factor@.len(),
        old(right_prime)@.len() == factor@.len(),
    ensures
        final(left)@.len() == factor@.len(),
        final(right)@.len() == factor@.len(),
        final(left_prime)@.len() == factor@.len(),
        final(right_prime)@.len() == factor@.len(),
        (seq_views(final(left)@), seq_views(final(right)@)) == mix_seqs(
            seq_views(old(left)@),
            seq_views(old(right)@),
            Seq::new(factor@.len(), |i: int| mat_view(factor@[i])),
        ),
        (seq_views(final(left_prime)@), seq_views(final(right_prime)@)) == mix_seqs(
            seq_views(old(left_prime)@),
            seq_views(old(right_prime)@),
            Seq::new(factor@.len(), |i: int| mat_view(factor@[i])),
        ),
{
    let ghost l0 = seq_views(old(left)@);
    let ghost r0 = seq_views(old(right)@);
    let ghost lp0 = seq_views(old(left_prime)@);
    let ghost rp0 = seq_views(old(right_prime)@);
    let ghost mats = Seq::new(factor@.len(), |i: int| mat_view(factor@[i]));
    let n = factor.len();
    let mut i: usize = 0;
    while i < n
        invariant
            i <= n,
            n == factor@.len(),
            left@.len() == n && right@.len() == n && left_prime@.len() == n && right_prime@.len()
                == n,
            l0.len() == n && r0.len() == n && lp0.len() == n && rp0.len() == n,
            mats == Seq::new(factor@.len(), |t: int| mat_view(factor@[t])),
            forall|t: int|
                i <= t < n ==> left@[t]@ == l0[t] && right@[t]@ == r0[t] && left_prime@[t]@
                    == lp0[t] && right_prime@[t]@ == rp0[t],
            forall|t: int|
                0 <= t < i ==> (#[trigger] left@[t]@, right@[t]@) == mat_apply(mats[t], l0[t], r0[t])
                    && (left_prime@[t]@, right_prime@[t]@) == mat_apply(mats[t], lp0[t], rp0[t]),
        decreases n - i,
    {
        let (na, nb, nc, nd) = matrix_arithmetic(
            left[i],
            right[i],
            left_prime[i],
            right_prime[i],
            &factor[i],
        );
        left.set(i, na);
        right.set(i, nb);
        left_prime.set(i, nc);
        right_prime.set(i, nd);
        proof {
            assert(mats[i as int] == mat_view(factor@[i as int]));
        }
        i += 1;
    }
    proof {
        assert forall|t: int| 0 <= t < n implies seq_views(left@)[t] == mix_seqs(l0, r0, mats).0[t]
            && seq_views(right@)[t] == mix_seqs(l0, r0, mats).1[t] && seq_views(left_prime@)[t]
            == mix_seqs(lp0, rp0, mats).0[t] && seq_views(right_prime@)[t] == mix_seqs(
            lp0,
            rp0,
            mats,
        ).1[t] by {
            assert((left@[t]@, right@[t]@) == mat_apply(mats[t], l0[t], r0[t]));
            assert((left_prime@[t]@, right_prime@[t]@) == mat_apply(mats[t], lp0[t], rp0[t]));
        }
        assert(seq_views(left@) =~= mix_seqs(l0, r0, mats).0);
        assert(seq_views(right@) =~= mix_seqs(l0, r0, mats).1);
        assert(seq_views(left_prime@) =~= mix_seqs(lp0, rp0, mats).0);
        assert(seq_views(right_prime@) =~= mix_seqs(lp0, rp0, mats).1);
    }
}

/// The terminal case of the extension: a two-point vector and its companion
/// through the inverse matrix, then the forward matrix.
pub fn bottom_poly_conversion(
    coeffs: &mut Vec<Fp>,
    coeffs_prime: &mut Vec<Fp>,
    factor: &FactorMat,
    inv_factor: &FactorMat,
) -> (r: ())
    requires
        old(coeffs)@.len() == 2,
        old(coeffs_prime)@.len() == 2,
    ensures
        final(coeffs)@.len() == 2,
        final(coeffs_prime)@.len() == 2,
        (final(coeffs)@[0]@, final(coeffs)@[1]@) == mat_apply(
            mat_view(*factor),
            mat_apply(mat_view(*inv_factor), old(coeffs)@[0]@, old(coeffs)@[1]@).0,
            mat_apply(mat_view(*inv_factor), old(coeffs)@[0]@, old(coeffs)@[1]@).1,
        ),
        (final(coeffs_prime)@[0]@, final(coeffs_prime)@[1]@) == mat_apply(
            mat_view(*factor),
            mat_apply(mat_view(*inv_factor), old(coeffs_prime)@[0]@, old(coeffs_prime)@[1]@).0,
            mat_apply(mat_view(*inv_factor), old(coeffs_prime)@[0]@, old(coeffs_prime)@[1]@).1,
        ),
{
    let (a1, b1, c1, d1) = matrix_arithmetic(
        coeffs[0],
        coeffs[1],
        coeffs_prime[0],
        coeffs_prime[1],
        inv_factor,
    );
    let (a2, b2, c2, d2) = matrix_arithmetic(a1, b1, c1, d1, factor);
    coeffs.set(0, a2);
    coeffs.set(1, b2);
    coeffs_prime.set(0, c2);
    coeffs_prime.set(1, d2);
}

/// The low-degree extension, recursively: mixes the halves of both carried
/// vectors by the level's inverse matrices, recurses, and mixes back by the
/// forward matrices, per the terminal two-point case above. The contract
/// pins the output as `extend_v`; what that recursion means — evaluations on
/// `S` become evaluations on `S'` — is `lemma_extend_v_interpolates`, under
/// the `extension_hypothesis`, and is surfaced on `EcFftCache::extend`.
#[verifier::rlimit(60)]
pub fn serial_low_degree_extention(trees: &Vec<FfTree>, p: Vec<Fp>, q: Vec<Fp>, depth: usize) -> (r:
    (Vec<Fp>, Vec<Fp>))
    requires
        depth + 2 <= trees@.len(),
        p@.len() == pow2((trees@.len() - 1 - depth) as nat),
        q@.len() == p@.len(),
        forall|l: int|
            0 <= l < trees@.len() ==> level_sizes(
                #[trigger] trees@[l]@,
                trees@.len() as nat,
                l as nat,
            ),
    ensures
        (seq_views(r.0@), seq_views(r.1@)) == extend_v(
            Seq::new(trees@.len(), |i: int| trees@[i]@),
            depth as nat,
            seq_views(p@),
            seq_views(q@),
        ),
        r.0@.len() == p@.len(),
        r.1@.len() == q@.len(),
    decreases p@.len(),
{
    let ghost tv = Seq::new(trees@.len(), |i: int| trees@[i]@);
    let tlen = trees.len();
    let ghost k = trees@.len() as nat;
    let ghost p0 = seq_views(p@);
    let ghost q0 = seq_views(q@);
    proof {
        vstd::arithmetic::power2::lemma_pow2_unfold((k - 1 - depth) as nat);
        vstd::arithmetic::power2::lemma_pow2_pos((k - 2 - depth) as nat);
    }
    let len = p.len();
    proof {
        vstd::arithmetic::power2::lemma2_to64();
        if len > 2 && k - 1 - depth == 1 {
            assert(len == pow2(1));
            assert(false);
        }
    }
    if len == 2 {
        let tree = &trees[depth];
        let factor = tree.get_factor();
        let inv_factor = tree.get_inv_factor();
        proof {
            assert(tv[depth as int] == trees@[depth as int]@);
            assert(level_sizes(trees@[depth as int]@, k, depth as nat));
            assert(pow2((k - 2 - depth) as nat) >= 1);
        }
        let mut cp = p;
        let mut cq = q;
        bottom_poly_conversion(&mut cp, &mut cq, &factor[0], &inv_factor[0]);
        proof {
            assert(seq_views(cp@) =~= extend_v(tv, depth as nat, p0, q0).0);
            assert(seq_views(cq@) =~= extend_v(tv, depth as nat, p0, q0).1);
        }
        (cp, cq)
    } else {
        let half = len / 2;
        let (mut l, mut r) = split_vec(p, half);
        let (mut lq, mut rq) = split_vec(q, half);
        let tree = &trees[depth];
        proof {
            assert(tv[depth as int] == trees@[depth as int]@);
            assert(level_sizes(trees@[depth as int]@, k, depth as nat));
            assert(seq_views(l@) =~= p0.take(half as int));
            assert(seq_views(r@) =~= p0.skip(half as int));
            assert(seq_views(lq@) =~= q0.take(half as int));
            assert(seq_views(rq@) =~= q0.skip(half as int));
        }
        let inv_mats = tree.get_inv_factor();
        serial_matrix_arithmetic(&mut l, &mut r, &mut lq, &mut rq, inv_mats);
        proof {
            assert(Seq::new(inv_mats@.len(), |i: int| mat_view(inv_mats@[i])) =~= tv[
                depth as int].inv_factor);
        }
        proof {
            assert(l@.len() == half && r@.len() == half && lq@.len() == half && rq@.len()
                == half);
            assert(half == pow2((k - 2 - depth) as nat));
        }
        let (l2, lq2) = serial_low_degree_extention(trees, l, lq, depth + 1);
        let (r2, rq2) = serial_low_degree_extention(trees, r, rq, depth + 1);
        let mut l3 = l2;
        let mut r3 = r2;
        let mut lq3 = lq2;
        let mut rq3 = rq2;
        let fwd_mats = tree.get_factor();
        serial_matrix_arithmetic(&mut l3, &mut r3, &mut lq3, &mut rq3, fwd_mats);
        proof {
            assert(Seq::new(fwd_mats@.len(), |i: int| mat_view(fwd_mats@[i])) =~= tv[
                depth as int].factor);
        }
        let out_p = concat_vec(l3, r3);
        let out_q = concat_vec(lq3, rq3);
        proof {
            assert(seq_views(out_p@) =~= extend_v(tv, depth as nat, p0, q0).0);
            assert(seq_views(out_q@) =~= extend_v(tv, depth as nat, p0, q0).1);
        }
        (out_p, out_q)
    }
}

/// The combine step of the outer transform on vectors: output `2*i` pairs the
/// `S`-evaluations with powered-coset entry `2*i`, output `2*i + 1` pairs the
/// `S'`-evaluations with entry `2*i + 1`.
pub fn serial_integrate_evaluation(
    low_prime: &Vec<Fp>,
    high_prime: &Vec<Fp>,
    low: &Vec<Fp>,
    high: &Vec<Fp>,
    powered_coset: &Vec<Fp>,
) -> (r: Vec<Fp>)
    requires
        low_prime@.len() == high_prime@.len(),
        low@.len() == low_prime@.len(),
        high@.len() == low_prime@.len(),
        powered_coset@.len() == 2 * low_prime@.len(),
    ensures
        seq_views(r@) == integrate_v(
            seq_views(low_prime@),
            seq_views(high_prime@),
            seq_views(low@),
            seq_views(high@),
            seq_views(powered_coset@),
        ),
{
    let n = low_prime.len();
    let n2 = powered_coset.len();
    let mut out: Vec<Fp> = Vec::new();
    let mut i: usize = 0;
    while i < n
        invariant
            i <= n,
            n == low_prime@.len() && n == high_prime@.len() && n == low@.len() && n == high@.len(),
            n2 == powered_coset@.len(),
            n2 == 2 * n,
            out@.len() == 2 * i,
            forall|t: int|
                0 <= t < i ==> out@[2 * t]@ == fadd(
                    low_prime@[t]@,
                    fmul(powered_coset@[2 * t]@, high_prime@[t]@),
                ) && out@[2 * t + 1]@ == fadd(
                    low@[t]@,
                    fmul(powered_coset@[2 * t + 1]@, high@[t]@),
                ),
        decreases n - i,
    {
        let even = low_prime[i].add(&powered_coset[2 * i].mul(&high_prime[i]));
        let odd = low[i].add(&powered_coset[2 * i + 1].mul(&high[i]));
        out.push(even);
        out.push(odd);
        i += 1;
    }
    proof {
        assert(seq_views(out@) =~= integrate_v(
            seq_views(low_prime@),
            seq_views(high_prime@),
            seq_views(low@),
            seq_views(high@),
            seq_views(powered_coset@),
        ));
    }
    out
}

} // verus!
