//! The classical Cooley-Tukey radix-2 FFT over the scalar field, the
//! reference transform for fields that admit a `2^k`-th root of unity:
//! precomputed twiddle tables, bit-reversal, and the in-order butterfly
//! recursion, with the inverse transform scaling by `1/n`.

use vstd::prelude::*;

use vstd::arithmetic::power2::pow2;

use crate::common::{concat_vec, split_vec};
use crate::field::{pow_mod, sub_mod, Field};
use crate::fr::{r_mod, r_root_of_unity, r_two_adicity, Scalar};
use crate::polynomial::seq_views;

verus! {

/// Addition in the scalar field.
pub open spec fn sadd(a: nat, b: nat) -> nat {
    (a + b) % r_mod()
}

/// Subtraction in the scalar field.
pub open spec fn ssub(a: nat, b: nat) -> nat {
    sub_mod(a, b, r_mod())
}

/// Multiplication in the scalar field.
pub open spec fn smul(a: nat, b: nat) -> nat {
    (a * b) % r_mod()
}

/// `y` is the multiplicative inverse of `x` in the scalar field, or zero
/// where `x` has no inverse.
pub open spec fn is_scalar_inv(x: nat, y: nat) -> bool {
    if x % r_mod() != 0 {
        smul(x, y) == 1 && y < r_mod()
    } else {
        y == 0
    }
}

/// The `k`-bit reversal of an index.
pub open spec fn bitrev(i: nat, k: nat) -> nat
    decreases k,
{
    if k == 0 {
        0
    } else {
        bitrev(i / 2, (k - 1) as nat) + (i % 2) * pow2((k - 1) as nat)
    }
}

/// The bit-reversal permutation of a vector of length `2^k`.
pub open spec fn bitrev_permute(s: Seq<nat>, k: nat) -> Seq<nat> {
    Seq::new(s.len(), |i: int| s[bitrev(i as nat, k) as int])
}

/// The in-order butterfly recursion on residues: a pair becomes its sum and
/// difference; a longer vector transforms its halves with a doubled twiddle
/// stride and recombines position `i` of the halves through twiddle
/// `i * chunk`.
pub open spec fn fft_rec_v(s: Seq<nat>, tw: Seq<nat>, chunk: nat) -> Seq<nat>
    decreases s.len(),
{
    if s.len() <= 2 {
        seq![sadd(s[0], s[1]), ssub(s[0], s[1])]
    } else {
        let half = s.len() as int / 2;
        let l = fft_rec_v(s.take(half), tw, chunk * 2);
        let r = fft_rec_v(s.skip(half), tw, chunk * 2);
        Seq::new(half as nat, |i: int| sadd(l[i], smul(r[i], tw[i * chunk]))) + Seq::new(
            half as nat,
            |i: int| ssub(l[i], smul(r[i], tw[i * chunk])),
        )
    }
}

/// The forward transform on residues: bit-reverse, then run the butterflies.
pub open spec fn dft_v(s: Seq<nat>, tw: Seq<nat>, k: nat) -> Seq<nat> {
    fft_rec_v(bitrev_permute(s, k), tw, 1)
}

/// The inverse transform on residues: the forward transform over the inverse
/// twiddles, scaled elementwise by the inverse of the length.
pub open spec fn idft_v(s: Seq<nat>, inv_tw: Seq<nat>, n_inv: nat, k: nat) -> Seq<nat> {
    Seq::new(s.len(), |i: int| smul(dft_v(s, inv_tw, k)[i], n_inv))
}

/// The residues a transform holds: the level, the two twiddle tables, and
/// the inverse of the length.
pub struct ClassicFftV {
    pub k: nat,
    pub tw: Seq<nat>,
    pub inv_tw: Seq<nat>,
    pub n_inv: nat,
}

/// The classical radix-2 FFT for length `2^k`.
pub struct ClassicFft {
    // polynomial length 2^k
    k: u32,
    // twiddle factors: powers of an order-2^k root of unity
    twiddle_factors: Vec<Scalar>,
    // powers of the root's inverse
    inv_twiddle_factors: Vec<Scalar>,
    // 1 / 2^k, for the inverse transform
    n_inv: Scalar,
}

impl View for ClassicFft {
    type V = ClassicFftV;

    closed spec fn view(&self) -> ClassicFftV {
        ClassicFftV {
            k: self.k as nat,
            tw: seq_views(self.twiddle_factors@),
            inv_tw: seq_views(self.inv_twiddle_factors@),
            n_inv: self.n_inv@,
        }
    }
}

/// The transform's invariant: the forward table holds the consecutive powers
/// of `g`, the `2^(S-k)`-th power of the scalar field's canonical `2^S`-th
/// root of unity; the inverse table holds the powers of `g`'s inverse; and
/// `n_inv` inverts `2^k`.
pub open spec fn classic_fft_wf(c: ClassicFftV) -> bool {
    let g = pow_mod(r_root_of_unity(), pow2((r_two_adicity() - c.k) as nat), r_mod());
    &&& 1 <= c.k <= r_two_adicity()
    &&& c.tw.len() == pow2((c.k - 1) as nat)
    &&& c.inv_tw.len() == pow2((c.k - 1) as nat)
    &&& forall|i: int| 0 <= i < c.tw.len() ==> c.tw[i] == pow_mod(g, i as nat, r_mod())
    &&& exists|gi: nat|
        #[trigger] is_scalar_inv(g, gi) && forall|i: int|
            0 <= i < c.inv_tw.len() ==> c.inv_tw[i] == pow_mod(gi, i as nat, r_mod())
    &&& smul(pow2(c.k), c.n_inv) == 1
}

impl ClassicFft {
    /// Precomputes the twiddle tables for length `2^k`: square the canonical
    /// root of unity down to an element of order `2^k`, invert it, and tabulate
    /// both elements' powers.
    pub fn new(k: u32) -> (r: ClassicFft)
        requires
            1 <= k <= 28,
        ensures
            r@.k == k,
            classic_fft_wf(r@),
    {
        proof {
            vstd::arithmetic::power2::lemma2_to64();
        }
        let n: usize = 1 << (k as usize);
        proof {
            assert(pow2(k as nat) <= pow2(28)) by {
                if k < 28 {
                    vstd::arithmetic::power2::lemma_pow2_strictly_increases(k as nat, 28);
                }
            }
            vstd::bits::lemma_usize_shl_is_mul(1, k as usize);
            vstd::arithmetic::power2::lemma_pow2_unfold(k as nat);
        }
        let half_n: usize = n / 2;
        let ghost rv = r_root_of_unity();
        let mut multiplicative_generator = Scalar::root_of_unity();
        let mut t: u32 = 0;
        proof {
            assert(pow_mod(rv, 1, r_mod()) == (rv * (1nat % r_mod())) % r_mod()) by {
                assert(pow_mod(rv, 0, r_mod()) == 1nat % r_mod());
            }
            vstd::arithmetic::div_mod::lemma_small_mod(1nat, r_mod());
            vstd::arithmetic::div_mod::lemma_small_mod(rv, r_mod());
        }
        while t < 28 - k
            invariant
                t <= 28 - k,
                k >= 1,
                multiplicative_generator@ == pow_mod(rv, pow2(t as nat), r_mod()),
            decreases 28 - k - t,
        {
            let squared = multiplicative_generator.mul(&multiplicative_generator);
            proof {
                crate::field::lemma_pow_mod_adds(rv, pow2(t as nat), pow2(t as nat), r_mod());
                vstd::arithmetic::power2::lemma_pow2_unfold((t + 1) as nat);
            }
            multiplicative_generator = squared;
            t += 1;
        }
        let ghost g = multiplicative_generator@;
        proof {
            crate::field::lemma_pow_mod_bound(rv, pow2((28 - k) as nat), r_mod());
        }
        let inv_multiplicative_generator = multiplicative_generator.invert_or_zero();
        let n_inv_base = Scalar::from_raw([n as u64, 0, 0, 0]);
        proof {
            assert(crate::field::limbs_nat([n as u64, 0, 0, 0]) == n as nat);
            vstd::arithmetic::div_mod::lemma_small_mod(pow2(k as nat), r_mod());
            vstd::arithmetic::power2::lemma_pow2_pos(k as nat);
        }
        let n_inv = n_inv_base.invert_or_zero();

        let mut twiddle_factors: Vec<Scalar> = Vec::new();
        let one = <Scalar as Field>::one();
        let mut w = one;
        let mut i: usize = 0;
        proof {
            assert(pow_mod(g, 0, r_mod()) == 1nat % r_mod());
            vstd::arithmetic::div_mod::lemma_small_mod(1nat, r_mod());
        }
        while i < half_n
            invariant
                i <= half_n,
                twiddle_factors@.len() == i,
                g == multiplicative_generator@,
                g < r_mod(),
                w@ == pow_mod(g, i as nat, r_mod()),
                forall|j: int|
                    0 <= j < i ==> twiddle_factors@[j]@ == pow_mod(g, j as nat, r_mod()),
            decreases half_n - i,
        {
            twiddle_factors.push(w);
            let next = w.mul(&multiplicative_generator);
            proof {
                crate::field::lemma_pow_mod_adds(g, i as nat, 1, r_mod());
                assert(pow_mod(g, 1, r_mod()) == (g * (1nat % r_mod())) % r_mod()) by {
                    assert(pow_mod(g, 0, r_mod()) == 1nat % r_mod());
                }
                vstd::arithmetic::div_mod::lemma_small_mod(1nat, r_mod());
                vstd::arithmetic::div_mod::lemma_small_mod(g, r_mod());
            }
            w = next;
            i += 1;
        }

        let ghost gi = inv_multiplicative_generator@;
        let mut inv_twiddle_factors: Vec<Scalar> = Vec::new();
        let mut w = one;
        let mut i: usize = 0;
        proof {
            assert(pow_mod(gi, 0, r_mod()) == 1nat % r_mod());
            vstd::arithmetic::div_mod::lemma_small_mod(1nat, r_mod());
        }
        while i < half_n
            invariant
                i <= half_n,
                inv_twiddle_factors@.len() == i,
                gi == inv_multiplicative_generator@,
                gi < r_mod(),
                w@ == pow_mod(gi, i as nat, r_mod()),
                forall|j: int|
                    0 <= j < i ==> inv_twiddle_factors@[j]@ == pow_mod(gi, j as nat, r_mod()),
            decreases half_n - i,
        {
            inv_twiddle_factors.push(w);
            let next = w.mul(&inv_multiplicative_generator);
            proof {
                crate::field::lemma_pow_mod_adds(gi, i as nat, 1, r_mod());
                assert(pow_mod(gi, 1, r_mod()) == (gi * (1nat % r_mod())) % r_mod()) by {
                    assert(pow_mod(gi, 0, r_mod()) == 1nat % r_mod());
                }
                vstd::arithmetic::div_mod::lemma_small_mod(1nat, r_mod());
                vstd::arithmetic::div_mod::lemma_small_mod(gi, r_mod());
            }
            w = next;
            i += 1;
        }

        let r = ClassicFft { k, twiddle_factors, inv_twiddle_factors, n_inv };
        proof {
            assert(seq_views(r.twiddle_factors@).len() == half_n);
            assert forall|j: int| 0 <= j < r@.tw.len() implies r@.tw[j] == pow_mod(
                g,
                j as nat,
                r_mod(),
            ) by {
                assert(seq_views(r.twiddle_factors@)[j] == r.twiddle_factors@[j]@);
            }
            assert forall|j: int| 0 <= j < r@.inv_tw.len() implies r@.inv_tw[j] == pow_mod(
                gi,
                j as nat,
                r_mod(),
            ) by {
                assert(seq_views(r.inv_twiddle_factors@)[j] == r.inv_twiddle_factors@[j]@);
            }
            assert(is_scalar_inv(g, gi));
            assert(classic_fft_wf(r@));
        }
        r
    }

    /// The forward transform, in place: bit-reverse, then run the
    /// butterflies over the forward twiddle table.
    pub fn dft(&self, coeffs: &mut Vec<Scalar>) -> (r: ())
        requires
            classic_fft_wf(self@),
            old(coeffs)@.len() == pow2(self@.k),
        ensures
            seq_views(final(coeffs)@) == dft_v(seq_views(old(coeffs)@), self@.tw, self@.k),
            final(coeffs)@.len() == old(coeffs)@.len(),
    {
        proof {
            vstd::arithmetic::power2::lemma_pow2_unfold(self@.k);
            vstd::arithmetic::power2::lemma_pow2_pos((self@.k - 1) as nat);
        }
        let permuted = swap_bit_reverse(coeffs, self.k);
        let out = classic_fft_arithmetic(permuted, 1, &self.twiddle_factors, Ghost(self@.k));
        proof {
            assert(seq_views(out@) == fft_rec_v(
                bitrev_permute(seq_views(coeffs@), self@.k),
                seq_views(self.twiddle_factors@),
                1,
            ));
        }
        *coeffs = out;
    }

    /// The inverse transform, in place: the butterflies over the inverse
    /// twiddle table, then the elementwise division by the length.
    pub fn idft(&self, coeffs: &mut Vec<Scalar>) -> (r: ())
        requires
            classic_fft_wf(self@),
            old(coeffs)@.len() == pow2(self@.k),
        ensures
            seq_views(final(coeffs)@) == idft_v(
                seq_views(old(coeffs)@),
                self@.inv_tw,
                self@.n_inv,
                self@.k,
            ),
            final(coeffs)@.len() == old(coeffs)@.len(),
    {
        proof {
            vstd::arithmetic::power2::lemma_pow2_unfold(self@.k);
            vstd::arithmetic::power2::lemma_pow2_pos((self@.k - 1) as nat);
        }
        let ghost s0 = seq_views(coeffs@);
        let permuted = swap_bit_reverse(coeffs, self.k);
        let mut out = classic_fft_arithmetic(permuted, 1, &self.inv_twiddle_factors, Ghost(self@.k));
        let ghost raw = seq_views(out@);
        let n = out.len();
        let mut i: usize = 0;
        while i < n
            invariant
                i <= n,
                out@.len() == n,
                raw.len() == n,
                forall|t: int| i <= t < n ==> out@[t]@ == raw[t],
                forall|t: int| 0 <= t < i ==> out@[t]@ == smul(raw[t], self@.n_inv),
            decreases n - i,
        {
            let scaled = out[i].mul(&self.n_inv);
            out.set(i, scaled);
            i += 1;
        }
        proof {
            assert(raw == dft_v(s0, self@.inv_tw, self@.k));
            assert(seq_views(out@) =~= idft_v(s0, self@.inv_tw, self@.n_inv, self@.k));
        }
        *coeffs = out;
    }
}

/// The `k`-bit reversal of an index, by peeling bits.
fn bitrev_index(i: usize, k: u32) -> (r: usize)
    requires
        k <= 28,
    ensures
        r == bitrev(i as nat, k as nat),
        r < pow2(k as nat),
{
    proof {
        vstd::arithmetic::power2::lemma2_to64();
    }
    let mut x: usize = i;
    let mut j: usize = 0;
    let mut t: u32 = 0;
    while t < k
        invariant
            t <= k <= 28,
            j < pow2(t as nat),
            bitrev(i as nat, k as nat) == j * pow2((k - t) as nat) + bitrev(
                x as nat,
                (k - t) as nat,
            ),
        decreases k - t,
    {
        proof {
            vstd::arithmetic::power2::lemma2_to64();
            vstd::arithmetic::power2::lemma_pow2_unfold((k - t) as nat);
            vstd::arithmetic::power2::lemma_pow2_unfold((t + 1) as nat);
            assert(pow2((t + 1) as nat) <= pow2(28)) by {
                if t + 1 < 28 {
                    vstd::arithmetic::power2::lemma_pow2_strictly_increases((t + 1) as nat, 28);
                }
            }
            assert((2 * j + (x as nat % 2)) * pow2((k - t - 1) as nat) + bitrev(
                x as nat / 2,
                (k - t - 1) as nat,
            ) == j * pow2((k - t) as nat) + bitrev(x as nat, (k - t) as nat)) by {
                assert((2 * j + (x as nat % 2)) * pow2((k - t - 1) as nat) == 2 * j * pow2(
                    (k - t - 1) as nat,
                ) + (x as nat % 2) * pow2((k - t - 1) as nat)) by (nonlinear_arith);
                assert(2 * j * pow2((k - t - 1) as nat) == j * (2 * pow2((k - t - 1) as nat)))
                    by (nonlinear_arith);
            }
        }
        j = 2 * j + (x % 2);
        x = x / 2;
        t += 1;
    }
    proof {
        assert(bitrev(x as nat, 0) == 0);
        assert(pow2(0) == 1);
        vstd::arithmetic::mul::lemma_mul_basics(j as int);
        assert(j * pow2((k - t) as nat) == j);
    }
    j
}

/// The bit-reversal permutation of a vector of length `2^k`, as a new vector.
fn swap_bit_reverse(coeffs: &Vec<Scalar>, k: u32) -> (r: Vec<Scalar>)
    requires
        k <= 28,
        coeffs@.len() == pow2(k as nat),
    ensures
        r@.len() == coeffs@.len(),
        seq_views(r@) == bitrev_permute(seq_views(coeffs@), k as nat),
{
    let n = coeffs.len();
    let mut out: Vec<Scalar> = Vec::new();
    let mut i: usize = 0;
    while i < n
        invariant
            i <= n,
            n == coeffs@.len(),
            n == pow2(k as nat),
            k <= 28,
            out@.len() == i,
            forall|t: int|
                0 <= t < i ==> out@[t]@ == seq_views(coeffs@)[bitrev(t as nat, k as nat) as int],
        decreases n - i,
    {
        let src = bitrev_index(i, k);
        out.push(coeffs[src]);
        proof {
            assert(seq_views(coeffs@)[src as int] == coeffs@[src as int]@);
        }
        i += 1;
    }
    proof {
        assert(seq_views(out@) =~= bitrev_permute(seq_views(coeffs@), k as nat));
    }
    out
}

/// The butterfly recursion: a pair becomes its sum and difference; a longer
/// vector transforms its halves with a doubled twiddle stride and recombines
/// them through the twiddle table.
fn classic_fft_arithmetic(
    coeffs: Vec<Scalar>,
    twiddle_chunk: usize,
    twiddles: &Vec<Scalar>,
    Ghost(e): Ghost<nat>,
) -> (r: Vec<Scalar>)
    requires
        e >= 1,
        coeffs@.len() == pow2(e),
        twiddle_chunk >= 1,
        coeffs@.len() * twiddle_chunk == 2 * twiddles@.len(),
    ensures
        seq_views(r@) == fft_rec_v(seq_views(coeffs@), seq_views(twiddles@), twiddle_chunk as nat),
        r@.len() == coeffs@.len(),
    decreases coeffs@.len(),
{
    proof {
        vstd::arithmetic::power2::lemma2_to64();
        vstd::arithmetic::power2::lemma_pow2_unfold(e);
        vstd::arithmetic::power2::lemma_pow2_pos((e - 1) as nat);
    }
    let ghost s0 = seq_views(coeffs@);
    let ghost twv = seq_views(twiddles@);
    let n = coeffs.len();
    if n == 2 {
        let a = coeffs[0].add(&coeffs[1]);
        let b = coeffs[0].sub(&coeffs[1]);
        let mut out: Vec<Scalar> = Vec::new();
        out.push(a);
        out.push(b);
        proof {
            assert(seq_views(out@) =~= fft_rec_v(s0, twv, twiddle_chunk as nat));
        }
        out
    } else {
        proof {
            if e == 1 {
                assert(false);
            }
        }
        let half = n / 2;
        let tlen = twiddles.len();
        let (left, right) = split_vec(coeffs, half);
        proof {
            assert(seq_views(left@) =~= s0.take(half as int));
            assert(seq_views(right@) =~= s0.skip(half as int));
            assert(half * (2 * twiddle_chunk) == 2 * twiddles@.len()) by (nonlinear_arith)
                requires
                    n == 2 * half && n * twiddle_chunk == 2 * twiddles@.len(),
            ;
            assert(half * twiddle_chunk == tlen) by (nonlinear_arith)
                requires
                    n == 2 * half && n * twiddle_chunk == 2 * tlen,
            ;
            assert(2 * twiddle_chunk <= half * twiddle_chunk) by (nonlinear_arith)
                requires
                    half >= 2 && twiddle_chunk >= 1,
            ;
        }
        let l = classic_fft_arithmetic(left, twiddle_chunk * 2, twiddles, Ghost((e - 1) as nat));
        let r = classic_fft_arithmetic(right, twiddle_chunk * 2, twiddles, Ghost((e - 1) as nat));
        let ghost lv = seq_views(l@);
        let ghost rv = seq_views(r@);
        let mut out_l: Vec<Scalar> = Vec::new();
        let mut out_r: Vec<Scalar> = Vec::new();
        let mut i: usize = 0;
        while i < half
            invariant
                i <= half,
                l@.len() == half && r@.len() == half,
                lv == seq_views(l@) && rv == seq_views(r@),
                twiddle_chunk >= 1,
                half * twiddle_chunk == twiddles@.len(),
                twiddles@.len() <= usize::MAX,
                twv == seq_views(twiddles@),
                out_l@.len() == i && out_r@.len() == i,
                forall|t: int|
                    0 <= t < i ==> out_l@[t]@ == sadd(lv[t], smul(rv[t], twv[t * twiddle_chunk]))
                        && out_r@[t]@ == ssub(lv[t], smul(rv[t], twv[t * twiddle_chunk])),
            decreases half - i,
        {
            proof {
                assert(i * twiddle_chunk < half * twiddle_chunk) by (nonlinear_arith)
                    requires
                        i < half && twiddle_chunk >= 1,
                ;
                assert(0 <= i * twiddle_chunk) by (nonlinear_arith);
                assert(twv[(i * twiddle_chunk) as int] == twiddles@[(i * twiddle_chunk) as int]@);
            }
            let tf = right_twiddle(&twiddles, i, twiddle_chunk);
            let t = r[i].mul(&tf);
            out_l.push(l[i].add(&t));
            out_r.push(l[i].sub(&t));
            i += 1;
        }
        let out = concat_vec(out_l, out_r);
        proof {
            assert(seq_views(out@) =~= fft_rec_v(s0, twv, twiddle_chunk as nat)) by {
                assert(seq_views(out_l@) =~= Seq::new(
                    half as nat,
                    |t: int|
                        sadd(
                            fft_rec_v(s0.take(half as int), twv, (twiddle_chunk * 2) as nat)[t],
                            smul(
                                fft_rec_v(s0.skip(half as int), twv, (twiddle_chunk * 2) as nat)[t],
                                twv[t * twiddle_chunk],
                            ),
                        ),
                ));
                assert(seq_views(out_r@) =~= Seq::new(
                    half as nat,
                    |t: int|
                        ssub(
                            fft_rec_v(s0.take(half as int), twv, (twiddle_chunk * 2) as nat)[t],
                            smul(
                                fft_rec_v(s0.skip(half as int), twv, (twiddle_chunk * 2) as nat)[t],
                                twv[t * twiddle_chunk],
                            ),
                        ),
                ));
                assert(seq_views(out@) =~= seq_views(out_l@) + seq_views(out_r@));
            }
        }
        out
    }
}

/// The twiddle for position `i` at stride `chunk`.
fn right_twiddle(twiddles: &Vec<Scalar>, i: usize, chunk: usize) -> (r: Scalar)
    requires
        i * chunk < twiddles@.len(),
    ensures
        r@ == twiddles@[i as int * chunk as int]@,
{
    let n = twiddles.len();
    proof {
        assert(i * chunk < n);
    }
    let idx = i * chunk;
    twiddles[idx]
}

} // verus!
