//! Naive reference routines on raw coefficient vectors: Horner evaluation and
//! O(n^2) convolution, generic over the field.

use vstd::prelude::*;

use crate::field::Field;
use crate::fp::Fp;
use crate::fr::Scalar;
use crate::polynomial::{
    conv_prefix, conv_term, convolution, lemma_seq_views_push, lemma_seq_views_update, poly_eval,
    seq_views,
};

verus! {

/// Horner evaluation of a coefficient vector at `at`.
pub fn evaluate<F: Field>(coeffs: &Vec<F>, at: &F) -> (r: F)
    ensures
        r@ == poly_eval(seq_views(coeffs@), at@, F::modulus()),
{
    let ghost s = seq_views(coeffs@);
    let ghost m = F::modulus();
    let mut acc = F::zero();
    let mut i: usize = coeffs.len();
    proof {
        assert(s.skip(i as int) =~= Seq::<nat>::empty());
    }
    while i > 0
        invariant
            i <= coeffs@.len(),
            s == seq_views(coeffs@),
            m == F::modulus(),
            acc@ == poly_eval(s.skip(i as int), at@, m),
        decreases i,
    {
        i -= 1;
        let t = acc.mul(at);
        acc = coeffs[i].add(&t);
        proof {
            F::modulus_gt_one();
            let rest = s.skip(i as int + 1);
            assert(s.skip(i as int).drop_first() =~= rest);
            assert(s.skip(i as int)[0] == s[i as int]);
            vstd::arithmetic::div_mod::lemma_add_mod_noop_right(
                s[i as int] as int,
                (at@ * poly_eval(rest, at@, m)) as int,
                m as int,
            );
        }
    }
    proof {
        assert(s.skip(0) =~= s);
    }
    acc
}

/// The convolution of two coefficient vectors, each output position reduced
/// mod the field's modulus.
pub(crate) fn convolution_multiply<F: Field>(a: &Vec<F>, b: &Vec<F>) -> (r: Vec<F>)
    requires
        a@.len() + b@.len() <= usize::MAX,
    ensures
        r@.len() == a@.len() + b@.len(),
        forall|t: int|
            0 <= t < r@.len() ==> seq_views(r@)[t] == convolution(
                seq_views(a@),
                seq_views(b@),
                t,
            ) % (F::modulus() as int),
{
    let ghost av = seq_views(a@);
    let ghost bv = seq_views(b@);
    let ghost m = F::modulus();
    proof {
        F::modulus_gt_one();
    }
    let n = a.len() + b.len();
    let mut c: Vec<F> = Vec::new();
    while c.len() < n
        invariant
            c@.len() <= n,
            forall|t: int| 0 <= t < c@.len() ==> seq_views(c@)[t] == 0,
        decreases n - c@.len(),
    {
        let z = F::zero();
        proof {
            lemma_seq_views_push(c@, z);
        }
        c.push(z);
    }
    let mut ia: usize = 0;
    proof {
        assert forall|t: int| 0 <= t < c@.len() implies seq_views(c@)[t] == conv_prefix(
            av,
            bv,
            t,
            0,
        ) % (m as int) by {
            vstd::arithmetic::div_mod::lemma_small_mod(0nat, m);
        }
    }
    while ia < a.len()
        invariant
            ia <= a@.len(),
            av == seq_views(a@),
            bv == seq_views(b@),
            m == F::modulus(),
            m > 1,
            a@.len() + b@.len() <= usize::MAX,
            c@.len() == a@.len() + b@.len(),
            forall|t: int|
                0 <= t < c@.len() ==> seq_views(c@)[t] == conv_prefix(av, bv, t, ia as int) % (
                m as int),
        decreases a@.len() - ia,
    {
        let mut j: usize = 0;
        while j < b.len()
            invariant
                ia < a@.len(),
                j <= b@.len(),
                av == seq_views(a@),
                bv == seq_views(b@),
                m == F::modulus(),
                m > 1,
                a@.len() + b@.len() <= usize::MAX,
                c@.len() == a@.len() + b@.len(),
                forall|t: int|
                    0 <= t < c@.len() ==> seq_views(c@)[t] == (conv_prefix(av, bv, t, ia as int) + (
                    if ia as int <= t < ia + j {
                        conv_term(av, bv, t, ia as int)
                    } else {
                        0
                    })) % (m as int),
            decreases b@.len() - j,
        {
            let t = ia + j;
            let prod = a[ia].mul(&b[j]);
            let ghost old_c = c@;
            let sum = c[t].add(&prod);
            proof {
                lemma_seq_views_update(c@, t as int, sum);
            }
            c.set(t, sum);
            proof {
                let ti = t as int;
                assert(seq_views(old_c)[ti] == (conv_prefix(av, bv, ti, ia as int) + 0) % (
                m as int));
                assert(conv_term(av, bv, ti, ia as int) == (av[ia as int] * bv[ti - ia]) as int);
                assert(sum@ == (seq_views(old_c)[ti] + prod@) % m);
                vstd::arithmetic::div_mod::lemma_add_mod_noop(
                    conv_prefix(av, bv, ti, ia as int),
                    (av[ia as int] * bv[j as int]) as int,
                    m as int,
                );
                assert(seq_views(c@) =~= seq_views(old_c).update(ti, sum@));
            }
            j += 1;
        }
        proof {
            assert forall|t: int| 0 <= t < c@.len() implies seq_views(c@)[t] == conv_prefix(
                av,
                bv,
                t,
                ia as int + 1,
            ) % (m as int) by {
                if !(ia as int <= t < ia + b@.len()) {
                    assert(conv_term(av, bv, t, ia as int) == 0);
                }
            }
        }
        ia += 1;
    }
    c
}

/// O(n^2) coefficient multiplication over the scalar field.
pub fn naive_multiply_fr(a: Vec<Scalar>, b: Vec<Scalar>) -> (r: Vec<Scalar>)
    requires
        a@.len() + b@.len() <= usize::MAX,
    ensures
        r@.len() == a@.len() + b@.len(),
        forall|t: int|
            0 <= t < r@.len() ==> r@[t]@ == convolution(seq_views(a@), seq_views(b@), t) % (
            crate::fr::r_mod() as int),
{
    let r = convolution_multiply(&a, &b);
    proof {
        assert forall|t: int| 0 <= t < r@.len() implies r@[t]@ == convolution(
            seq_views(a@),
            seq_views(b@),
            t,
        ) % (crate::fr::r_mod() as int) by {
            assert(seq_views(r@)[t] == r@[t]@);
        }
    }
    r
}

/// O(n^2) coefficient multiplication over the base field.
pub fn naive_multiply_fq(a: Vec<Fp>, b: Vec<Fp>) -> (r: Vec<Fp>)
    requires
        a@.len() + b@.len() <= usize::MAX,
    ensures
        r@.len() == a@.len() + b@.len(),
        forall|t: int|
            0 <= t < r@.len() ==> r@[t]@ == convolution(seq_views(a@), seq_views(b@), t) % (
            crate::fp::p_mod() as int),
{
    let r = convolution_multiply(&a, &b);
    proof {
        assert forall|t: int| 0 <= t < r@.len() implies r@[t]@ == convolution(
            seq_views(a@),
            seq_views(b@),
            t,
        ) % (crate::fp::p_mod() as int) by {
            assert(seq_views(r@)[t] == r@[t]@);
        }
    }
    r
}

} // verus!
