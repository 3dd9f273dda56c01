//! Prime-field scaffolding: the mathematical model (residues as `nat`), the
//! `Field` trait that the polynomial routines are generic over, and the two
//! concrete fields of the engine, both backed by `halo2curves`.
//!
//! A field element is carried together with its canonical little-endian byte
//! representation; the view of an element is the integer those bytes encode,
//! always a residue of the field's modulus.

use vstd::prelude::*;

verus! {

/// The integer a little-endian byte string encodes.
pub open spec fn bytes_nat(s: Seq<u8>) -> nat
    decreases s.len(),
{
    if s.len() == 0 {
        0
    } else {
        s[0] as nat + 256 * bytes_nat(s.drop_first())
    }
}

/// The integer four little-endian 64-bit limbs encode.
pub open spec fn limbs_nat(l: [u64; 4]) -> nat {
    l[0] as nat + l[1] as nat * 0x10000000000000000 + l[2] as nat
        * 0x100000000000000000000000000000000 + l[3] as nat
        * 0x1000000000000000000000000000000000000000000000000
}

/// `base^exp % m`.
pub open spec fn pow_mod(base: nat, exp: nat, m: nat) -> nat
    decreases exp,
{
    if exp == 0 {
        1nat % m
    } else {
        (base * pow_mod(base, (exp - 1) as nat, m)) % m
    }
}

/// `(a - b) % m` on residues, kept inside `nat`.
pub open spec fn sub_mod(a: nat, b: nat, m: nat) -> nat
    recommends
        b <= m,
{
    (((a + m) - b) as nat) % m
}

/// A reduced power is a residue.
pub proof fn lemma_pow_mod_bound(x: nat, e: nat, m: nat)
    requires
        m > 1,
    ensures
        pow_mod(x, e, m) < m,
{
    if e == 0 {
        vstd::arithmetic::div_mod::lemma_mod_bound(1, m as int);
    } else {
        vstd::arithmetic::div_mod::lemma_mod_bound(
            (x * pow_mod(x, (e - 1) as nat, m)) as int,
            m as int,
        );
    }
}

/// Powers add: `x^(a+b) = x^a * x^b` mod `m`.
pub proof fn lemma_pow_mod_adds(x: nat, a: nat, b: nat, m: nat)
    requires
        m > 1,
    ensures
        pow_mod(x, a + b, m) == (pow_mod(x, a, m) * pow_mod(x, b, m)) % m,
    decreases a,
{
    vstd::arithmetic::div_mod::lemma_mod_bound(pow_mod(x, b, m) as int, m as int);
    if a == 0 {
        assert(pow_mod(x, 0, m) == 1nat % m);
        vstd::arithmetic::div_mod::lemma_small_mod(1nat, m);
        if b == 0 {
            assert((1nat % m) < m);
            vstd::arithmetic::div_mod::lemma_small_mod(pow_mod(x, b, m), m);
        } else {
            assert(pow_mod(x, b, m) == (x * pow_mod(x, (b - 1) as nat, m)) % m);
            vstd::arithmetic::div_mod::lemma_mod_bound(
                (x * pow_mod(x, (b - 1) as nat, m)) as int,
                m as int,
            );
            vstd::arithmetic::div_mod::lemma_small_mod(pow_mod(x, b, m), m);
        }
        assert(pow_mod(x, a, m) == 1);
        vstd::arithmetic::mul::lemma_mul_basics(pow_mod(x, b, m) as int);
        assert(pow_mod(x, b, m) % m == pow_mod(x, b, m));
    } else {
        lemma_pow_mod_adds(x, (a - 1) as nat, b, m);
        let pa1 = pow_mod(x, (a - 1) as nat, m) as int;
        let pb = pow_mod(x, b, m) as int;
        let xi = x as int;
        let mi = m as int;
        assert(pow_mod(x, a + b, m) == (xi * ((pa1 * pb) % mi)) % mi) by {
            assert(pow_mod(x, a + b, m) == (x * pow_mod(x, (a + b - 1) as nat, m)) % m);
        }
        vstd::arithmetic::div_mod::lemma_mul_mod_noop_right(xi, pa1 * pb, mi);
        assert(xi * (pa1 * pb) == (xi * pa1) * pb) by (nonlinear_arith);
        vstd::arithmetic::div_mod::lemma_mul_mod_noop_left(xi * pa1, pb, mi);
        assert(pow_mod(x, a, m) == (xi * pa1) % mi);
        assert(pow_mod(x, a + b, m) == ((xi * pa1) * pb) % mi);
        assert((pow_mod(x, a, m) * pow_mod(x, b, m)) % m == (((xi * pa1) % mi) * pb) % mi);
    }
}

/// Multiplying by a residue congruent to one does not change a residue.
pub proof fn lemma_mul_one_mod(x: int, u: int, m: int)
    requires
        0 < m,
        u % m == 1,
    ensures
        (x * u) % m == x % m,
{
    vstd::arithmetic::div_mod::lemma_mul_mod_noop_right(x, u, m);
}

/// Multiplying by two copies of an inverse pair cancels mod `m`.
pub proof fn lemma_cancel_pairs2(x: int, z: int, k: int, m: int)
    requires
        0 < m,
        (z * k) % m == 1,
    ensures
        (x * k * k * (z * z)) % m == x % m,
{
    assert(x * k * k * (z * z) == (x * (z * k)) * (z * k)) by (nonlinear_arith);
    lemma_mul_one_mod(x * (z * k), z * k, m);
    lemma_mul_one_mod(x, z * k, m);
}

/// Multiplying by three copies of an inverse pair cancels mod `m`.
pub proof fn lemma_cancel_pairs3(x: int, z: int, k: int, m: int)
    requires
        0 < m,
        (z * k) % m == 1,
    ensures
        (x * k * k * k * (z * z * z)) % m == x % m,
{
    assert(x * k * k * k * (z * z * z) == ((x * (z * k)) * (z * k)) * (z * k))
        by (nonlinear_arith);
    lemma_mul_one_mod((x * (z * k)) * (z * k), z * k, m);
    lemma_mul_one_mod(x * (z * k), z * k, m);
    lemma_mul_one_mod(x, z * k, m);
}

/// Equal little-endian byte strings are the only way to encode equal integers.
pub proof fn lemma_bytes_nat_injective(s1: Seq<u8>, s2: Seq<u8>)
    requires
        s1.len() == s2.len(),
        bytes_nat(s1) == bytes_nat(s2),
    ensures
        s1 =~= s2,
    decreases s1.len(),
{
    if s1.len() > 0 {
        let n1 = bytes_nat(s1);
        let b1 = s1[0] as nat;
        let b2 = s2[0] as nat;
        let r1 = bytes_nat(s1.drop_first());
        let r2 = bytes_nat(s2.drop_first());
        assert(b1 + 256 * r1 == b2 + 256 * r2);
        assert(b1 == (b1 + 256 * r1) % 256 && b2 == (b2 + 256 * r2) % 256) by {
            vstd::arithmetic::div_mod::lemma_mod_multiples_vanish(r1 as int, b1 as int, 256);
            vstd::arithmetic::div_mod::lemma_mod_multiples_vanish(r2 as int, b2 as int, 256);
            vstd::arithmetic::div_mod::lemma_small_mod(b1, 256);
            vstd::arithmetic::div_mod::lemma_small_mod(b2, 256);
        }
        assert(b1 == b2);
        assert(r1 == r2);
        lemma_bytes_nat_injective(s1.drop_first(), s2.drop_first());
        assert(s1 =~= seq![s1[0]] + s1.drop_first());
        assert(s2 =~= seq![s2[0]] + s2.drop_first());
    }
}

/// What the polynomial routines need of a prime field: modular addition and
/// multiplication on residues, the two constants, and decidable equality.
pub trait Field: Sized + Copy + View<V = nat> {
    /// The field's modulus.
    spec fn modulus() -> nat;

    proof fn modulus_gt_one()
        ensures
            Self::modulus() > 1,
    ;

    fn zero() -> (r: Self)
        ensures
            r@ == 0,
    ;

    fn one() -> (r: Self)
        ensures
            r@ == 1,
    ;

    fn add(&self, rhs: &Self) -> (r: Self)
        ensures
            r@ == (self@ + rhs@) % Self::modulus(),
    ;

    fn mul(&self, rhs: &Self) -> (r: Self)
        ensures
            r@ == (self@ * rhs@) % Self::modulus(),
    ;

    fn eq_el(&self, rhs: &Self) -> (r: bool)
        ensures
            r == (self@ == rhs@),
    ;
}

} // verus!
