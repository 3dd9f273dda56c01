//! The parameter-generating curve `y^2 = x^3 + x + b` over the base field,
//! with Jacobian-projective arithmetic:
//!
//! * `a = 1`
//! * `b = 0xc6871bc29d461633bfb29b83daa1fd135df7da06ba329825dcdee14b5ed61a0`
//! * `2^14` divides the order of `E(F_p)`, and the generator spans a subgroup
//!   of order `2^14` whose coset by the representative point supplies the
//!   evaluation domain.
//!
//! A projective point `(x, y, z)` with `z != 0` stands for the affine point
//! `(x / z^2, y / z^3)`; every point with `z == 0` is the identity. Each
//! operation's contract mirrors its formula over residues, so the coordinates
//! of every result are pinned exactly.

use vstd::prelude::*;

use crate::field::Field;
use crate::fp::{p_mod, Fp};

verus! {

/// Addition in the base field.
pub open spec fn fadd(a: nat, b: nat) -> nat {
    (a + b) % p_mod()
}

/// Subtraction in the base field.
pub open spec fn fsub(a: nat, b: nat) -> nat {
    crate::field::sub_mod(a, b, p_mod())
}

/// Multiplication in the base field.
pub open spec fn fmul(a: nat, b: nat) -> nat {
    (a * b) % p_mod()
}

/// The curve coefficient `a`.
pub open spec fn curve_a_v() -> nat {
    1
}

/// The curve coefficient `b`.
pub open spec fn curve_b_v() -> nat {
    0xc6871bc29d461633bfb29b83daa1fd135df7da06ba329825dcdee14b5ed61a0nat
}

/// The projective generator of the order-`2^14` subgroup.
pub open spec fn generator_v() -> (nat, nat, nat) {
    (
        0x1c30bfe9bd1623f6260d26c12f05dd8175ce795513e0bf38f3c0656f8ff34e2cnat,
        0x2851ed59c90496afe1c47936c576ec08d158cae28c7b02381ee3da4379313853nat,
        1,
    )
}

/// The projective representative of the coset that supplies the domain.
pub open spec fn representative_v() -> (nat, nat, nat) {
    (
        0x19d9b63388a8b6533390169392010587497c46cd5f3705373013ff91324dd873nat,
        0x737e1ab7c2b3a75c9d8e37e568729c1867ccec0c36810ab9d3ee38d780e552enat,
        1,
    )
}

/// The projective identity.
pub open spec fn pt_identity() -> (nat, nat, nat) {
    (0, 0, 0)
}

/// Coordinates that are residues of the base field.
pub open spec fn pt_wf(p: (nat, nat, nat)) -> bool {
    p.0 < p_mod() && p.1 < p_mod() && p.2 < p_mod()
}

/// Jacobian doubling (`dbl-2007-bl`), on residues.
pub open spec fn double_v(p: (nat, nat, nat)) -> (nat, nat, nat) {
    if p.2 == 0 {
        pt_identity()
    } else {
        let xx = fmul(p.0, p.0);
        let yy = fmul(p.1, p.1);
        let yyyy = fmul(yy, yy);
        let zz = fmul(p.2, p.2);
        let a = fadd(p.0, yy);
        let b = fsub(fsub(fmul(a, a), xx), yyyy);
        let s = fadd(b, b);
        let c = fadd(fadd(xx, xx), xx);
        let d = fmul(fmul(zz, zz), curve_a_v());
        let m = fadd(c, d);
        let e = fadd(s, s);
        let t = fsub(fmul(m, m), e);
        let f = fsub(s, t);
        let l1 = fadd(yyyy, yyyy);
        let l2 = fadd(l1, l1);
        let l = fadd(l2, l2);
        let y3 = fsub(fmul(m, f), l);
        let n = fadd(p.1, p.2);
        let z3 = fsub(fsub(fmul(n, n), yy), zz);
        (t, y3, z3)
    }
}

/// Jacobian addition, with its identity, doubling and inverse cases, on
/// residues.
pub open spec fn add_point_v(p: (nat, nat, nat), q: (nat, nat, nat)) -> (nat, nat, nat) {
    if p.2 == 0 {
        q
    } else if q.2 == 0 {
        p
    } else {
        let z1z1 = fmul(p.2, p.2);
        let z2z2 = fmul(q.2, q.2);
        let u1 = fmul(p.0, z2z2);
        let u2 = fmul(q.0, z1z1);
        let s1 = fmul(fmul(p.1, z2z2), q.2);
        let s2 = fmul(fmul(q.1, z1z1), p.2);
        if u1 == u2 {
            if s1 == s2 {
                double_v(p)
            } else {
                pt_identity()
            }
        } else {
            let h = fsub(u2, u1);
            let h2 = fadd(h, h);
            let i = fmul(h2, h2);
            let j = fmul(h, i);
            let r0 = fsub(s2, s1);
            let r = fadd(r0, r0);
            let v = fmul(u1, i);
            let x3 = fsub(fsub(fsub(fmul(r, r), j), v), v);
            let s1j = fmul(s1, j);
            let s1j2 = fadd(s1j, s1j);
            let y3 = fsub(fmul(r, fsub(v, x3)), s1j2);
            let zs = fadd(p.2, q.2);
            let z3 = fmul(fsub(fsub(fmul(zs, zs), z1z1), z2z2), h);
            (x3, y3, z3)
        }
    }
}

/// The projective curve equation: `y^2 = x^3 + a·x·z^4 + b·z^6`, or the
/// identity.
pub open spec fn on_curve_v(p: (nat, nat, nat)) -> bool {
    let z2 = fmul(p.2, p.2);
    let z4 = fmul(z2, z2);
    let z6 = fmul(z4, z2);
    fsub(fmul(p.1, p.1), fmul(fadd(fmul(p.0, p.0), fmul(curve_a_v(), z4)), p.0)) == fmul(
        z6,
        curve_b_v(),
    ) || p.2 == 0
}

/// The affine curve equation: `y^2 = x^3 + a·x + b`, or the affine identity
/// encoding `(0, 0)`.
pub open spec fn on_curve_affine_v(p: (nat, nat)) -> bool {
    fsub(fmul(p.1, p.1), fmul(fadd(fmul(p.0, p.0), curve_a_v()), p.0)) == curve_b_v() || (p.0 == 0
        && p.1 == 0)
}

/// One step of most-significant-bit-first double-and-add.
pub open spec fn mul_step_v(acc: (nat, nat, nat), p: (nat, nat, nat), bit: bool) -> (
    nat,
    nat,
    nat,
) {
    if bit {
        add_point_v(double_v(acc), p)
    } else {
        double_v(acc)
    }
}

/// Double-and-add over the low `nbits` bits of one byte, highest bit first.
pub open spec fn mul_bits_v(acc: (nat, nat, nat), p: (nat, nat, nat), byte: u8, nbits: int) -> (
    nat,
    nat,
    nat,
)
    decreases nbits,
{
    if nbits <= 0 {
        acc
    } else {
        mul_bits_v(mul_step_v(acc, p, (byte >> (nbits - 1) as u8) & 1 == 1), p, byte, nbits - 1)
    }
}

/// Double-and-add over a little-endian byte string, highest byte first.
pub open spec fn mul_bytes_v(acc: (nat, nat, nat), p: (nat, nat, nat), s: Seq<u8>) -> (
    nat,
    nat,
    nat,
)
    decreases s.len(),
{
    if s.len() == 0 {
        acc
    } else {
        mul_bytes_v(mul_bits_v(acc, p, s.last(), 8), p, s.drop_last())
    }
}

/// Scalar multiplication of `p` by the integer the little-endian byte string
/// encodes: most-significant-bit-first double-and-add from the identity.
pub open spec fn ep_mul_v(p: (nat, nat, nat), s: Seq<u8>) -> (nat, nat, nat) {
    mul_bytes_v(pt_identity(), p, s)
}

/// The formulas keep coordinates inside the field.
pub proof fn lemma_add_point_wf(p: (nat, nat, nat), q: (nat, nat, nat))
    requires
        pt_wf(p),
        pt_wf(q),
    ensures
        pt_wf(add_point_v(p, q)),
        pt_wf(double_v(p)),
{
}

/// A point of the curve, in Jacobian-projective coordinates.
#[derive(Clone, Copy, Debug)]
pub struct Ep {
    x: Fp,
    y: Fp,
    z: Fp,
}

/// A point of the curve, in affine coordinates; `(0, 0)` encodes the identity.
#[derive(Clone, Copy, Debug)]
pub struct EpAffine {
    x: Fp,
    y: Fp,
}

impl View for Ep {
    type V = (nat, nat, nat);

    closed spec fn view(&self) -> (nat, nat, nat) {
        (self.x@, self.y@, self.z@)
    }
}

impl View for EpAffine {
    type V = (nat, nat);

    closed spec fn view(&self) -> (nat, nat) {
        (self.x@, self.y@)
    }
}

impl Ep {
    fn curve_constant_a() -> (r: Fp)
        ensures
            r@ == curve_a_v(),
    {
        let r = Fp::from_raw([1, 0, 0, 0]);
        proof {
            vstd::arithmetic::div_mod::lemma_small_mod(1nat, p_mod());
        }
        r
    }

    fn curve_constant_b() -> (r: Fp)
        ensures
            r@ == curve_b_v(),
    {
        let r = Fp::from_raw(
            [0x5dcdee14b5ed61a0, 0x35df7da06ba32982, 0x3bfb29b83daa1fd1, 0xc6871bc29d46163],
        );
        proof {
            vstd::arithmetic::div_mod::lemma_small_mod(curve_b_v(), p_mod());
        }
        r
    }

    /// The generator of the order-`2^14` subgroup.
    pub fn generator() -> (r: Ep)
        ensures
            r@ == generator_v(),
            pt_wf(r@),
    {
        let x = Fp::from_raw(
            [0xf3c0656f8ff34e2c, 0x75ce795513e0bf38, 0x260d26c12f05dd81, 0x1c30bfe9bd1623f6],
        );
        let y = Fp::from_raw(
            [0x1ee3da4379313853, 0xd158cae28c7b0238, 0xe1c47936c576ec08, 0x2851ed59c90496af],
        );
        let z = Fp::from_raw([1, 0, 0, 0]);
        proof {
            vstd::arithmetic::div_mod::lemma_small_mod(generator_v().0, p_mod());
            vstd::arithmetic::div_mod::lemma_small_mod(generator_v().1, p_mod());
            vstd::arithmetic::div_mod::lemma_small_mod(1nat, p_mod());
        }
        Ep { x, y, z }
    }

    /// The representative point: its coset of the generator's subgroup gives
    /// the evaluation domain.
    pub fn representative() -> (r: Ep)
        ensures
            r@ == representative_v(),
            pt_wf(r@),
    {
        let x = Fp::from_raw(
            [0x3013ff91324dd873, 0x497c46cd5f370537, 0x3390169392010587, 0x19d9b63388a8b653],
        );
        let y = Fp::from_raw(
            [0x9d3ee38d780e552e, 0x867ccec0c36810ab, 0xc9d8e37e568729c1, 0x737e1ab7c2b3a75],
        );
        let z = Fp::from_raw([1, 0, 0, 0]);
        proof {
            vstd::arithmetic::div_mod::lemma_small_mod(representative_v().0, p_mod());
            vstd::arithmetic::div_mod::lemma_small_mod(representative_v().1, p_mod());
            vstd::arithmetic::div_mod::lemma_small_mod(1nat, p_mod());
        }
        Ep { x, y, z }
    }

    /// The projective identity.
    pub fn identity() -> (r: Ep)
        ensures
            r@ == pt_identity(),
            pt_wf(r@),
    {
        let zero = <Fp as Field>::zero();
        Ep { x: zero, y: zero, z: zero }
    }

    /// Whether the point is the identity: `z == 0`.
    pub fn is_identity(&self) -> (r: bool)
        ensures
            r == (self@.2 == 0),
    {
        let zero = <Fp as Field>::zero();
        self.z == zero
    }

    /// Whether the point satisfies the projective curve equation.
    pub fn is_on_curve(&self) -> (r: bool)
        ensures
            r == on_curve_v(self@),
    {
        let z2 = self.z.square();
        let z4 = z2.square();
        let z6 = z4.mul(&z2);
        let a = Ep::curve_constant_a();
        let b = Ep::curve_constant_b();
        let lhs = self.y.square().sub(&self.x.square().add(&a.mul(&z4)).mul(&self.x));
        let rhs = z6.mul(&b);
        let zero = <Fp as Field>::zero();
        lhs == rhs || self.z == zero
    }

    /// Jacobian doubling.
    pub fn double(&self) -> (r: Ep)
        ensures
            r@ == double_v(self@),
    {
        if self.is_identity() {
            return Ep::identity();
        }
        let xx = self.x.square();
        let yy = self.y.square();
        let yyyy = yy.square();
        let zz = self.z.square();
        let a = self.x.add(&yy);
        let b = a.square().sub(&xx).sub(&yyyy);
        let s = b.add(&b);
        let c = xx.add(&xx).add(&xx);
        let d = zz.square().mul(&Ep::curve_constant_a());
        let m = c.add(&d);
        let e = s.add(&s);
        let t = m.square().sub(&e);
        let x3 = t;
        let f = s.sub(&t);
        let l1 = yyyy.add(&yyyy);
        let l2 = l1.add(&l1);
        let l = l2.add(&l2);
        let y3 = m.mul(&f).sub(&l);
        let n = self.y.add(&self.z);
        let z3 = n.square().sub(&yy).sub(&zz);
        Ep { x: x3, y: y3, z: z3 }
    }

    /// Jacobian addition.
    pub fn add_point(&self, rhs: &Ep) -> (r: Ep)
        ensures
            r@ == add_point_v(self@, rhs@),
    {
        if self.is_identity() {
            return *rhs;
        }
        if rhs.is_identity() {
            return *self;
        }
        let z1z1 = self.z.square();
        let z2z2 = rhs.z.square();
        let u1 = self.x.mul(&z2z2);
        let u2 = rhs.x.mul(&z1z1);
        let s1 = self.y.mul(&z2z2).mul(&rhs.z);
        let s2 = rhs.y.mul(&z1z1).mul(&self.z);
        if u1 == u2 {
            if s1 == s2 {
                self.double()
            } else {
                Ep::identity()
            }
        } else {
            let h = u2.sub(&u1);
            let h2 = h.add(&h);
            let i = h2.mul(&h2);
            let j = h.mul(&i);
            let r0 = s2.sub(&s1);
            let r1 = r0.add(&r0);
            let v = u1.mul(&i);
            let x3 = r1.mul(&r1).sub(&j).sub(&v).sub(&v);
            let s1j = s1.mul(&j);
            let s1j2 = s1j.add(&s1j);
            let y3 = r1.mul(&v.sub(&x3)).sub(&s1j2);
            let zs = self.z.add(&rhs.z);
            let z3 = zs.mul(&zs).sub(&z1z1).sub(&z2z2).mul(&h);
            Ep { x: x3, y: y3, z: z3 }
        }
    }

    /// Scalar multiplication by the integer a base-field element's canonical
    /// representation encodes, by most-significant-bit-first double-and-add.
    pub fn mul(&self, scalar: &Fp) -> (r: Ep)
        ensures
            r@ == ep_mul_v(self@, scalar.repr_spec()),
    {
        let bytes = scalar.to_bytes();
        let ghost s = scalar.repr_spec();
        let mut acc = Ep::identity();
        let mut bi: usize = 32;
        proof {
            assert(s.take(32) =~= s);
        }
        let ghost target = ep_mul_v(self@, s);
        while bi > 0
            invariant
                bi <= 32,
                bytes@ == s,
                s.len() == 32,
                target == ep_mul_v(self@, s),
                mul_bytes_v(acc@, self@, s.take(bi as int)) == target,
            decreases bi,
        {
            bi -= 1;
            let byte = bytes[bi];
            proof {
                let prefix = s.take(bi as int + 1);
                assert(prefix.last() == s[bi as int]);
                assert(prefix.drop_last() =~= s.take(bi as int));
            }
            let mut k: usize = 8;
            while k > 0
                invariant
                    k <= 8,
                    bi < 32,
                    bytes@ == s,
                    s.len() == 32,
                    byte == s[bi as int],
                    target == ep_mul_v(self@, s),
                    mul_bytes_v(
                        mul_bits_v(acc@, self@, byte, k as int),
                        self@,
                        s.take(bi as int),
                    ) == target,
                decreases k,
            {
                k -= 1;
                let bit = (byte >> (k as u8)) & 1 == 1;
                let ghost acc0 = acc@;
                acc = acc.double();
                if bit {
                    acc = acc.add_point(self);
                }
                proof {
                    assert(acc@ == mul_step_v(acc0, self@, (byte >> (k as u8)) & 1 == 1));
                    assert(mul_bits_v(acc0, self@, byte, k as int + 1) == mul_bits_v(
                        mul_step_v(acc0, self@, (byte >> (k as u8)) & 1 == 1),
                        self@,
                        byte,
                        k as int,
                    ));
                }
            }
        }
        proof {
            assert(s.take(0) =~= Seq::<u8>::empty());
        }
        acc
    }

    /// The affine point `(x / z^2, y / z^3)`, or `(0, 0)` for the identity.
    /// The result is pinned by the relations `r.x * z^2 = x` and
    /// `r.y * z^3 = y` in the field.
    pub fn to_affine(&self) -> (r: EpAffine)
        ensures
            self@.2 == 0 ==> r@ == (0nat, 0nat),
            self@.2 != 0 && self@.2 < p_mod() ==> fmul(r@.0, fmul(self@.2, self@.2)) == self@.0
                % p_mod() && fmul(r@.1, fmul(fmul(self@.2, self@.2), self@.2)) == self@.1 % p_mod(),
            r@.0 < p_mod() && r@.1 < p_mod(),
    {
        let zinv = self.z.invert_or_zero();
        let zinv2 = zinv.square();
        let x = self.x.mul(&zinv2);
        let zinv3 = zinv2.mul(&zinv);
        let y = self.y.mul(&zinv3);
        proof {
            let m = p_mod() as int;
            let xx = self.x@ as int;
            let yy = self.y@ as int;
            let z = self.z@ as int;
            let k = zinv@ as int;
            if self.z@ == 0 {
                assert(x@ == 0 && y@ == 0);
            } else if self.z@ < p_mod() {
                vstd::arithmetic::div_mod::lemma_small_mod(self.z@, p_mod());
                assert((z * k) % m == 1);
                vstd::arithmetic::div_mod::lemma_mul_mod_noop_right(xx, k * k, m);
                assert(xx * (k * k) == xx * k * k) by (nonlinear_arith);
                assert(x@ == (xx * k * k) % m);
                vstd::arithmetic::div_mod::lemma_mul_mod_noop_right(x@ as int, z * z, m);
                vstd::arithmetic::div_mod::lemma_mul_mod_noop_left(xx * k * k, z * z, m);
                crate::field::lemma_cancel_pairs2(xx, z, k, m);
                assert(fmul(x@, fmul(self.z@, self.z@)) == self.x@ % p_mod());
                // y: collapse zinv3 = ((k*k) % m * k) % m under the product
                assert(yy * (((k * k) % m) * k) == (yy * k) * ((k * k) % m))
                    by (nonlinear_arith);
                vstd::arithmetic::div_mod::lemma_mul_mod_noop_right(yy, ((k * k) % m) * k, m);
                vstd::arithmetic::div_mod::lemma_mul_mod_noop_right(yy * k, k * k, m);
                assert((yy * k) * (k * k) == yy * k * k * k) by (nonlinear_arith);
                assert(y@ == (yy * k * k * k) % m);
                // goal side: collapse ((z*z) % m * z) % m under the product
                vstd::arithmetic::div_mod::lemma_mul_mod_noop_right(
                    y@ as int,
                    ((z * z) % m) * z,
                    m,
                );
                assert((y@ as int) * (((z * z) % m) * z) == ((y@ as int) * z) * ((z * z) % m))
                    by (nonlinear_arith);
                vstd::arithmetic::div_mod::lemma_mul_mod_noop_right((y@ as int) * z, z * z, m);
                assert(((y@ as int) * z) * (z * z) == (y@ as int) * (z * z * z))
                    by (nonlinear_arith);
                vstd::arithmetic::div_mod::lemma_mul_mod_noop_left(
                    yy * k * k * k,
                    z * z * z,
                    m,
                );
                assert((yy * k * k * k) * (z * z * z) == yy * k * k * k * (z * z * z))
                    by (nonlinear_arith);
                crate::field::lemma_cancel_pairs3(yy, z, k, m);
                assert(fmul(y@, fmul(fmul(self.z@, self.z@), self.z@)) == self.y@ % p_mod());
            }
        }
        EpAffine { x, y }
    }
}

impl EpAffine {
    /// The affine generator.
    pub fn generator() -> (r: EpAffine)
        ensures
            r@ == (generator_v().0, generator_v().1),
    {
        let p = Ep::generator();
        EpAffine { x: p.x, y: p.y }
    }

    /// The affine representative.
    pub fn representative() -> (r: EpAffine)
        ensures
            r@ == (representative_v().0, representative_v().1),
    {
        let p = Ep::representative();
        EpAffine { x: p.x, y: p.y }
    }

    /// Whether the point satisfies the affine curve equation.
    pub fn is_on_curve(&self) -> (r: bool)
        ensures
            r == on_curve_affine_v(self@),
    {
        let a = Ep::curve_constant_a();
        let b = Ep::curve_constant_b();
        let lhs = self.y.square().sub(&self.x.square().add(&a).mul(&self.x));
        let zero = <Fp as Field>::zero();
        lhs == b || (self.x == zero && self.y == zero)
    }

    /// The x-coordinate, the domain value the engine projects a point to.
    pub fn point_projective(&self) -> (r: Fp)
        ensures
            r@ == self@.0,
    {
        self.x
    }

    /// The point in Jacobian-projective coordinates.
    pub fn to_curve(&self) -> (r: Ep)
        ensures
            self@.0 == 0 && self@.1 == 0 ==> r@ == pt_identity(),
            !(self@.0 == 0 && self@.1 == 0) ==> r@ == (self@.0, self@.1, 1nat),
    {
        let zero = <Fp as Field>::zero();
        let one = <Fp as Field>::one();
        if self.x == zero && self.y == zero {
            Ep { x: zero, y: zero, z: zero }
        } else {
            Ep { x: self.x, y: self.y, z: one }
        }
    }
}

} // verus!
