//! End-to-end checks of the ECFFT engine: the precomputed caches, the isogeny
//! chain over the real cosets, the low-degree extension against the naive
//! oracle, and full evaluation against Horner on the domain.

use ecfft::ecfft::curve::Ep;
use ecfft::ecfft::isogeny::Isogeny;
use ecfft::ecfft::utils::EcFftCache;
use ecfft::field::Field;
use ecfft::fp::Fp;
use ecfft::{Coefficients, EcFft, Polynomial};

fn next_rand(state: &mut u64) -> u64 {
    let mut x = *state;
    x ^= x << 13;
    x ^= x >> 7;
    x ^= x << 17;
    *state = x;
    x
}

fn rand_fp(state: &mut u64) -> Fp {
    Fp::from_raw([
        next_rand(state),
        next_rand(state),
        next_rand(state),
        next_rand(state),
    ])
}

fn arb_poly_fq(state: &mut u64, k: usize) -> Polynomial<Fp, Coefficients> {
    let mut values = Vec::new();
    for _ in 0..(1usize << k) {
        values.push(rand_fp(state));
    }
    Polynomial::<Fp, Coefficients>::new(values)
}

/// The x-coordinates of `R + (i << depth) * G` for all i: the coset the
/// level-`(14 - depth)` cache is built for.
fn layer_coset(depth: usize) -> Vec<Fp> {
    let n: usize = 1 << 14;
    let step: usize = 1 << depth;
    let g = Ep::generator();
    let mut point = Ep::representative();
    let mut out = Vec::new();
    let mut i: usize = 0;
    while i < n {
        out.push(point.to_affine().point_projective());
        let mut next = point;
        for _ in 0..step {
            next = next.add_point(&g);
        }
        point = next;
        i += step;
    }
    out
}

/// A big-endian comparison key for sorting field elements.
fn fp_key(x: &Fp) -> [u8; 32] {
    let le = x.to_bytes();
    let mut be = [0u8; 32];
    for i in 0..32 {
        be[i] = le[31 - i];
    }
    be
}

fn sort_fps(v: &mut Vec<Fp>) {
    v.sort_by(|a, b| fp_key(a).cmp(&fp_key(b)));
}

#[test]
fn test_precomputed_params() {
    let k = 14;
    let ecfft = EcFft::new();

    for i in 1..k {
        let mut n = 1 << (k - i);
        let cache = ecfft.get_cache(k - i);
        let coset = cache.get_coset();

        assert_eq!(coset.len(), n);

        for j in 0..(k - i) {
            let tree = cache.get_tree(j);
            let (s, s_prime) = tree.get_domain();
            let factor = tree.get_factor();
            let inv_factor = tree.get_inv_factor();

            n /= 2;

            assert_eq!(s.len(), n);
            assert_eq!(s_prime.len(), n);
            assert_eq!(factor.len(), n / 2);
            assert_eq!(inv_factor.len(), n / 2);
        }
    }
}

#[test]
fn test_isogeny_and_domain() {
    let max_k = 14;

    for d in 0..max_k {
        let k = max_k - d;
        let coset = layer_coset(d);
        let ecfft_params = EcFftCache::new(k, coset);
        let cache = ecfft_params.get_tree(0);
        let (mut s, mut s_prime) = cache.get_domain().clone();

        for i in 0..(k - 1) {
            let half_n = 1 << (k - (i + 1) - 1);
            let isogeny = Isogeny::new(i + 1);

            s = s.iter().map(|coeff| isogeny.evaluate(*coeff)).collect();
            s_prime = s_prime
                .iter()
                .map(|coeff| isogeny.evaluate(*coeff))
                .collect();
            sort_fps(&mut s);
            s.dedup();
            sort_fps(&mut s_prime);
            s_prime.dedup();

            assert_eq!(half_n, s.len());
            assert_eq!(half_n, s_prime.len());

            let cache = ecfft_params.get_tree(i + 1);
            let (mut l, mut l_prime) = cache.get_domain().clone();
            sort_fps(&mut l);
            sort_fps(&mut l_prime);

            assert_eq!(s, l);
            assert_eq!(s_prime, l_prime);
        }

        assert_eq!(s.len(), 1);
        assert_eq!(s_prime.len(), 1);
    }
}

#[test]
fn test_isogeny_identifies_twin_pairs() {
    // the matrix tables pair position i with position half + i of each
    // half-domain: the level's isogeny must send both to the same value,
    // which moreover is the next level's point at position i. This is the
    // fact of the baked constants that the extension's conditional
    // correctness theorems hypothesise, so check it at every level of every
    // cache size.
    for d in 0..14 {
        let k = 14 - d;
        let coset = layer_coset(d);
        let params = EcFftCache::new(k, coset);
        for level in 0..(k - 1) {
            let isogeny = Isogeny::new(level + 1);
            let (s, s_prime) = params.get_tree(level).get_domain();
            let (next_s, next_sp) = params.get_tree(level + 1).get_domain();
            let half = s.len() / 2;
            for i in 0..half {
                assert_eq!(isogeny.evaluate(s[i]), isogeny.evaluate(s[half + i]));
                assert_eq!(isogeny.evaluate(s[i]), next_s[i]);
                assert_eq!(
                    isogeny.evaluate(s_prime[i]),
                    isogeny.evaluate(s_prime[half + i]),
                );
                assert_eq!(isogeny.evaluate(s_prime[i]), next_sp[i]);
            }
        }
    }
}

#[test]
fn test_powered_coset_holds_half_degree_powers() {
    let k = 4;
    let coset = layer_coset(14 - k);
    let params = EcFftCache::new(k, coset);
    let coset = params.get_coset();
    let powered = params.get_powered_coset();
    assert_eq!(powered.len(), coset.len());
    let exp = 1u64 << (k - 1);
    for j in 0..coset.len() {
        assert_eq!(powered[j], coset[j].pow_u64(exp));
    }
}

fn check_extend(k: usize, seed: u64) {
    let depth = 14 - k;
    let mut state = seed;
    let poly_a = arb_poly_fq(&mut state, k - 1);
    let poly_b = arb_poly_fq(&mut state, k - 1);
    let coset = layer_coset(depth);
    let ecfft_params = EcFftCache::new(k, coset);
    let cache = ecfft_params.get_tree(0);
    let (s, s_prime) = cache.get_domain().clone();
    let evals_s = poly_a.clone().to_point_value(&s);
    let evals_s_prime = poly_a.to_point_value(&s_prime);
    let evals_s_alt = poly_b.clone().to_point_value(&s);
    let evals_s_prime_alt = poly_b.to_point_value(&s_prime);

    let (got, got_alt) = ecfft_params.extend(evals_s.get_values(), evals_s_alt.get_values(), k);

    assert_eq!(got, evals_s_prime.get_values());
    assert_eq!(got_alt, evals_s_prime_alt.get_values());
}

#[test]
fn test_extend_two_point_case() {
    // the terminal case: length-2 evaluations of degree-one polynomials
    check_extend(2, 0x9e37_79b9_7f4a_7c15);
}

#[test]
fn test_extend_matches_direct_evaluation() {
    check_extend(5, 0xc2b2_ae3d_27d4_eb4f);
}

#[test]
fn test_evaluate_matches_horner_on_domain() {
    let ecfft = EcFft::new();
    let mut state: u64 = 0x8765_4321_1234_5678;
    for k in 1..=10 {
        let poly_a = arb_poly_fq(&mut state, k);
        let cache = ecfft.get_cache(k);
        assert_eq!(cache.get_coset().len(), poly_a.clone().len());

        // order(n^2) normal evaluation
        let poly_b = poly_a.clone().to_point_value(cache.get_coset());

        // order(n log^2 n) ecfft evaluation
        let poly_c = ecfft.evaluate(k, poly_a.clone());

        assert_eq!(poly_b, poly_c)
    }
}

#[test]
fn test_evaluate_top_level_spot_checks() {
    // the full-size transform, checked against Horner at a handful of
    // domain points: the quadratic oracle over the whole 2^14 domain would
    // take minutes
    let ecfft = EcFft::new();
    let k = 14;
    let mut state: u64 = 0x0f0f_1e1e_2d2d_3c3c;
    let poly = arb_poly_fq(&mut state, k);
    let coset = ecfft.get_cache(k).get_coset().clone();
    let evals = ecfft.evaluate(k, poly.clone()).get_values();
    assert_eq!(evals.len(), coset.len());
    let values = poly.get_values();
    let mut j: usize = 1;
    for _ in 0..32 {
        j = (j.wrapping_mul(0x9e37) + 7) % coset.len();
        assert_eq!(evals[j], ecfft::naive::evaluate(&values, &coset[j]));
    }
}

#[test]
fn test_zero_and_constant_one_polynomials() {
    let ecfft = EcFft::new();
    let k = 3;
    let n = 1usize << k;
    let zero = <Fp as Field>::zero();
    let one = <Fp as Field>::one();

    let zero_poly = Polynomial::<Fp, Coefficients>::new(vec![zero; n]);
    let evals = ecfft.evaluate(k, zero_poly).get_values();
    assert_eq!(evals, vec![zero; n]);

    let mut constant_one = vec![zero; n];
    constant_one[0] = one;
    let one_poly = Polynomial::<Fp, Coefficients>::new(constant_one);
    let evals = ecfft.evaluate(k, one_poly).get_values();
    assert_eq!(evals, vec![one; n]);
}
