//! The quadratic extension of the base field: elements `a + b·u` with
//! `u² = −1`. Multiplication uses the Karatsuba trick — three base-field
//! products recover both components — working directly on double-length
//! integers to defer reductions.

use vstd::prelude::*;
#[allow(unused_imports)]
use vstd::arithmetic::div_mod::{
    lemma_mod_bound, lemma_mod_multiples_vanish, lemma_mul_mod_noop_general, lemma_small_mod,
};
#[allow(unused_imports)]
use vstd::arithmetic::mul::lemma_mul_nonnegative;
#[allow(unused_imports)]
use crate::arith::{
    fadd, fhalf, fmul, fneg, fpow, fsub, lemma_diff_squares, lemma_double_product,
    lemma_fhalf_unique, lemma_fsub_is_add_neg, lemma_redv_muladd, lemma_redv_mulsub, prime, redv,
    rmont,
};
#[allow(unused_imports)]
use crate::big::{bpow, lemma_div_below, lemma_vpre_nonneg, Big, DNLEN, NLEN};
#[allow(unused_imports)]
use crate::dbig::DBig;
#[allow(unused_imports)]
use crate::fp::{add_xes, imul_xes, neg_xes, FP, FEXCESS};
#[allow(unused_imports)]
use crate::rom;

verus! {

/// An element of the quadratic extension: the real and imaginary parts.
#[derive(Clone, Copy)]
pub struct FP2 {
    pub a: FP,
    pub b: FP,
}

/// Negation of a pair of residues.
pub open spec fn fp2_neg(v: (int, int)) -> (int, int) {
    (fneg(v.0), fneg(v.1))
}

/// Addition of pairs of residues.
pub open spec fn fp2_add(v: (int, int), w: (int, int)) -> (int, int) {
    (fadd(v.0, w.0), fadd(v.1, w.1))
}

/// Subtraction of pairs of residues.
pub open spec fn fp2_sub(v: (int, int), w: (int, int)) -> (int, int) {
    (fsub(v.0, w.0), fsub(v.1, w.1))
}

/// Multiplication of pairs of residues over `u² = −1`:
/// `(a + b·u)(c + d·u) = (ac − bd) + (ad + bc)·u`.
pub open spec fn fp2_mul(v: (int, int), w: (int, int)) -> (int, int) {
    (fsub(fmul(v.0, w.0), fmul(v.1, w.1)), fadd(fmul(v.0, w.1), fmul(v.1, w.0)))
}

impl FP2 {
    /// Both components satisfy the excess invariant.
    pub open spec fn wf(self) -> bool {
        self.a.wf() && self.b.wf()
    }

    /// The pair of field residues this element denotes.
    pub open spec fn fe2(self) -> (int, int) {
        (self.a.feval(), self.b.feval())
    }

    /// The zero element.
    pub fn new() -> (r: FP2)
        ensures
            r.wf(),
            r.fe2() == (0int, 0int),
    {
        FP2 { a: FP::new(), b: FP::new() }
    }

    /// An element from a small signed integer (imaginary part zero).
    pub fn new_int(a: i64) -> (r: FP2)
        requires
            -0x10000000 < a < 0x10000000,
        ensures
            r.wf(),
            r.fe2() == ((a as int) % prime(), 0int),
    {
        FP2 { a: FP::new_int(a), b: FP::new() }
    }

    /// An element from two small signed integers.
    pub fn new_ints(a: i64, b: i64) -> (r: FP2)
        requires
            -0x10000000 < a < 0x10000000,
            -0x10000000 < b < 0x10000000,
        ensures
            r.wf(),
            r.fe2() == ((a as int) % prime(), (b as int) % prime()),
    {
        FP2 { a: FP::new_int(a), b: FP::new_int(b) }
    }

    /// A copy of another element.
    pub fn new_copy(x: &FP2) -> (r: FP2)
        ensures
            r == *x,
    {
        FP2 { a: x.a, b: x.b }
    }

    /// An element from two base-field elements.
    pub fn new_fps(c: &FP, d: &FP) -> (r: FP2)
        ensures
            r.a == *c,
            r.b == *d,
    {
        FP2 { a: *c, b: *d }
    }

    /// An element from two plain integers, converted to Montgomery form.
    pub fn new_bigs(c: &Big, d: &Big) -> (r: FP2)
        requires
            c.is_norm(),
            d.is_norm(),
        ensures
            r.wf(),
            r.fe2() == (c.val() % prime(), d.val() % prime()),
    {
        FP2 { a: FP::new_big(c), b: FP::new_big(d) }
    }

    /// An element from one base-field element (imaginary part zero).
    pub fn new_fp(c: &FP) -> (r: FP2)
        ensures
            r.a == *c,
            r.b.wf(),
            r.fe2() == (c.feval(), 0int),
    {
        FP2 { a: *c, b: FP::new() }
    }

    /// An element from one plain integer (imaginary part zero).
    pub fn new_big(c: &Big) -> (r: FP2)
        requires
            c.is_norm(),
        ensures
            r.wf(),
            r.fe2() == (c.val() % prime(), 0int),
    {
        FP2 { a: FP::new_big(c), b: FP::new() }
    }

    /// Fully reduce both components.
    pub fn reduce(&mut self)
        requires
            old(self).wf(),
        ensures
            final(self).wf(),
            final(self).fe2() == old(self).fe2(),
            final(self).a.xes == 1,
            final(self).b.xes == 1,
    {
        self.a.reduce();
        self.b.reduce();
    }

    /// Renormalise both components.
    pub fn norm(&mut self)
        requires
            old(self).wf(),
        ensures
            final(self).wf(),
            final(self).fe2() == old(self).fe2(),
            final(self).a.xes == old(self).a.xes,
            final(self).b.xes == old(self).b.xes,
    {
        self.a.norm();
        self.b.norm();
    }

    /// Whether this element is zero.
    pub fn iszilch(&self) -> (r: bool)
        requires
            self.wf(),
        ensures
            r <==> self.fe2() == (0int, 0int),
    {
        self.a.iszilch() && self.b.iszilch()
    }

    /// Constant-time conditional assignment from `g` when `d` is one.
    pub fn cmove(&mut self, g: &FP2, d: i64)
        requires
            d == 0 || d == 1,
            old(self).wf(),
            g.wf(),
        ensures
            final(self).wf(),
            final(self).fe2() == (if d == 1 { g.fe2() } else { old(self).fe2() }),
    {
        self.a.cmove(&g.a, d);
        self.b.cmove(&g.b, d);
    }

    /// Whether this element is one.
    pub fn isunity(&self) -> (r: bool)
        requires
            self.wf(),
        ensures
            r <==> self.fe2() == (1int, 0int),
    {
        let one = FP::new_int(1);
        proof {
            rom::lemma_prime_shape();
            lemma_small_mod(1, prime() as nat);
        }
        self.a.equals(&one) && self.b.iszilch()
    }

    /// Whether two elements denote the same pair of residues.
    pub fn equals(&self, x: &FP2) -> (r: bool)
        requires
            self.wf(),
            x.wf(),
        ensures
            r <==> self.fe2() == x.fe2(),
    {
        self.a.equals(&x.a) && self.b.equals(&x.b)
    }

    /// The canonical residue of the real part.
    pub fn geta(&self) -> (r: Big)
        requires
            self.wf(),
        ensures
            r.is_norm(),
            r.val() == self.fe2().0,
            0 <= r.val() < prime(),
    {
        self.a.redc()
    }

    /// The canonical residue of the imaginary part.
    pub fn getb(&self) -> (r: Big)
        requires
            self.wf(),
        ensures
            r.is_norm(),
            r.val() == self.fe2().1,
            0 <= r.val() < prime(),
    {
        self.b.redc()
    }

    /// Overwrite this element with `x`.
    pub fn copy(&mut self, x: &FP2)
        ensures
            *final(self) == *x,
    {
        self.a = x.a;
        self.b = x.b;
    }

    /// Set to zero.
    pub fn zero(&mut self)
        ensures
            final(self).wf(),
            final(self).fe2() == (0int, 0int),
            final(self).a.xes == 1,
            final(self).b.xes == 1,
    {
        self.a.zero();
        self.b.zero();
    }

    /// Set to one.
    pub fn one(&mut self)
        ensures
            final(self).wf(),
            final(self).fe2() == (1int, 0int),
            final(self).a.xes == 2,
            final(self).b.xes == 1,
    {
        self.a.one();
        self.b.zero();
    }

    /// Negate both components.
    pub fn neg(&mut self)
        requires
            old(self).wf(),
        ensures
            final(self).wf(),
            final(self).fe2() == fp2_neg(old(self).fe2()),
            final(self).a.xes == neg_xes(old(self).a.xes as int),
            final(self).b.xes == neg_xes(old(self).b.xes as int),
    {
        self.a.neg();
        self.b.neg();
    }

    /// The conjugate: negate the imaginary part.
    pub fn conj(&mut self)
        requires
            old(self).wf(),
        ensures
            final(self).wf(),
            final(self).fe2() == (old(self).fe2().0, fneg(old(self).fe2().1)),
            final(self).a == old(self).a,
            final(self).b.xes == neg_xes(old(self).b.xes as int),
    {
        self.b.neg();
        self.b.norm();
    }

    /// Component-wise addition.
    pub fn add(&mut self, x: &FP2)
        requires
            old(self).wf(),
            x.wf(),
        ensures
            final(self).wf(),
            final(self).fe2() == fp2_add(old(self).fe2(), x.fe2()),
            final(self).a.xes == add_xes(old(self).a.xes as int, x.a.xes as int),
            final(self).b.xes == add_xes(old(self).b.xes as int, x.b.xes as int),
    {
        self.a.add(&x.a);
        self.b.add(&x.b);
    }

    /// Component-wise doubling.
    pub fn dbl(&mut self)
        requires
            old(self).wf(),
        ensures
            final(self).wf(),
            final(self).fe2() == fp2_add(old(self).fe2(), old(self).fe2()),
            final(self).a.xes == add_xes(old(self).a.xes as int, old(self).a.xes as int),
            final(self).b.xes == add_xes(old(self).b.xes as int, old(self).b.xes as int),
    {
        self.a.dbl();
        self.b.dbl();
    }

    /// Component-wise subtraction.
    pub fn sub(&mut self, x: &FP2)
        requires
            old(self).wf(),
            x.wf(),
        ensures
            final(self).wf(),
            final(self).fe2() == fp2_sub(old(self).fe2(), x.fe2()),
            final(self).a.xes == add_xes(old(self).a.xes as int, neg_xes(x.a.xes as int)),
            final(self).b.xes == add_xes(old(self).b.xes as int, neg_xes(x.b.xes as int)),
    {
        let mut m = FP2::new_copy(x);
        m.neg();
        self.add(&m);
        proof {
            lemma_fsub_is_add_neg(old(self).fe2().0, x.fe2().0);
            lemma_fsub_is_add_neg(old(self).fe2().1, x.fe2().1);
        }
    }

    /// Reverse subtraction: this element becomes `x` minus it.
    pub fn rsub(&mut self, x: &FP2)
        requires
            old(self).wf(),
            x.wf(),
        ensures
            final(self).wf(),
            final(self).fe2() == fp2_sub(x.fe2(), old(self).fe2()),
            final(self).a.xes == add_xes(neg_xes(old(self).a.xes as int), x.a.xes as int),
            final(self).b.xes == add_xes(neg_xes(old(self).b.xes as int), x.b.xes as int),
    {
        self.neg();
        self.add(x);
        proof {
            lemma_fsub_is_add_neg(x.fe2().0, old(self).fe2().0);
            lemma_fsub_is_add_neg(x.fe2().1, old(self).fe2().1);
        }
    }

    /// Scale both components by a base-field element.
    pub fn pmul(&mut self, s: &FP)
        requires
            old(self).wf(),
            s.wf(),
        ensures
            final(self).wf(),
            final(self).fe2() == (fmul(old(self).fe2().0, s.feval()), fmul(
                old(self).fe2().1,
                s.feval(),
            )),
            final(self).a.xes == 2,
            final(self).b.xes == 2,
    {
        self.a.mul(s);
        self.b.mul(s);
    }

    /// Scale both components by a small signed integer.
    pub fn imul(&mut self, c: i64)
        requires
            old(self).wf(),
            -0x2000 <= c <= 0x2000,
        ensures
            final(self).wf(),
            final(self).fe2() == ((old(self).fe2().0 * c) % prime(), (old(self).fe2().1 * c)
                % prime()),
            final(self).a.xes == imul_xes(old(self).a.xes as int, c as int),
            final(self).b.xes == imul_xes(old(self).b.xes as int, c as int),
    {
        self.a.imul(c);
        self.b.imul(c);
    }

    /// Squaring: `(a + b·u)² = (a − b)(a + b) + 2ab·u`.
    pub fn sqr(&mut self)
        requires
            old(self).wf(),
        ensures
            final(self).wf(),
            final(self).fe2() == fp2_mul(old(self).fe2(), old(self).fe2()),
            final(self).a.xes == 2,
            final(self).b.xes == 2,
    {
        let ghost va = self.a.feval();
        let ghost vb = self.b.feval();
        let mut w1 = FP::new_copy(&self.a);
        let mut w3 = FP::new_copy(&self.a);
        let mut mb = FP::new_copy(&self.b);

        w1.add(&self.b);

        w3.add(&self.a);
        w3.norm();
        self.b.mul(&w3);

        mb.neg();
        self.a.add(&mb);

        w1.norm();
        self.a.norm();

        self.a.mul(&w1);
        proof {
            // real part: (a − b)(a + b) == a² − b²
            lemma_fsub_is_add_neg(va, vb);
            lemma_diff_squares(va, vb);
            // imaginary part: b·(a + a) == ab + ab
            lemma_double_product(va, vb);
        }
    }

    /// Full multiplication by the Karatsuba trick: the two real products,
    /// the product of the component sums, and one subtraction recover the
    /// cross term. The real part is kept nonnegative by adding the modulus
    /// scaled to the double width before subtracting.
    pub fn mul(&mut self, y: &FP2)
        requires
            old(self).wf(),
            y.wf(),
        ensures
            final(self).wf(),
            final(self).fe2() == fp2_mul(old(self).fe2(), y.fe2()),
            final(self).a.xes == 3,
            final(self).b.xes == 2,
    {
        proof {
            rom::lemma_prime_shape();
            lemma_excess_sumprod(
                self.a.xes as int,
                self.b.xes as int,
                y.a.xes as int,
                y.b.xes as int,
            );
        }
        if ((self.a.xes + self.b.xes) as i64) * ((y.a.xes + y.b.xes) as i64) > FEXCESS as i64 {
            if self.a.xes > 1 {
                self.a.reduce();
            }
            if self.b.xes > 1 {
                self.b.reduce();
            }
            proof {
                assert(self.a.xes == 1 && self.b.xes == 1);
                assert(((self.a.xes + self.b.xes) as int) * ((y.a.xes + y.b.xes) as int)
                    <= 0x10000) by (nonlinear_arith)
                    requires
                        self.a.xes + self.b.xes == 2,
                        1 <= y.a.xes + y.b.xes <= 0x7ffe,
                ;
            }
        }
        let ghost aa = self.a.x.val();
        let ghost ab = self.b.x.val();
        let ghost ca = y.a.x.val();
        let ghost cb = y.b.x.val();
        proof {
            lemma_vpre_nonneg(self.a.x.w@, NLEN as int);
            lemma_vpre_nonneg(self.b.x.w@, NLEN as int);
            lemma_vpre_nonneg(y.a.x.w@, NLEN as int);
            lemma_vpre_nonneg(y.b.x.w@, NLEN as int);
            lemma_fp2_mul_guard(
                aa,
                ab,
                ca,
                cb,
                (self.a.xes + self.b.xes) as int,
                (y.a.xes + y.b.xes) as int,
            );
        }
        let pbig = Big::modulus();
        let mut pr = DBig::new();
        pr.ucopy(&pbig);

        let mut c = Big::new_copy(&self.a.x);
        let mut d = Big::new_copy(&y.a.x);

        let va = Big::mul(&self.a.x, &y.a.x);
        let vb = Big::mul(&self.b.x, &y.b.x);

        c.add(&self.b.x);
        d.add(&y.b.x);

        let e = Big::mul(&c, &d);
        let mut f = DBig::new_copy(&va);
        f.add(&vb);
        let mut db = DBig::new_copy(&vb);
        db.rsub(&pr);

        let mut da = DBig::new_copy(&va);
        da.add(&db);
        let mut de = DBig::new_copy(&e);
        de.sub(&f);

        let ghost dav = da.val();
        let ghost dev = de.val();
        self.a.x = FP::modulo(&mut da);
        self.a.xes = 3;
        self.b.x = FP::modulo(&mut de);
        self.b.xes = 2;
        proof {
            // the scaled modulus vanishes from the real part
            lemma_mod_multiples_vanish(bpow(NLEN as nat), aa * ca - ab * cb, prime());
            assert(prime() * bpow(NLEN as nat) + (aa * ca - ab * cb) == dav);
            lemma_redv_mulsub(self.a.x.val(), aa, ca, ab, cb);
            lemma_redv_muladd(self.b.x.val(), aa, cb, ab, ca);
            // excess bounds from the reduction quotients
            crate::big::lemma_bpow_pos(NLEN as nat);
            lemma_div_below(dav, bpow(NLEN as nat), 2 * prime());
            lemma_div_below(dev, bpow(NLEN as nat), prime());
        }
    }

    /// Halve both components.
    pub fn div2(&mut self)
        requires
            old(self).wf(),
        ensures
            final(self).wf(),
            final(self).fe2() == (fhalf(old(self).fe2().0), fhalf(old(self).fe2().1)),
            final(self).a.xes == old(self).a.xes,
            final(self).b.xes == old(self).b.xes,
    {
        let ghost va = self.a.feval();
        let ghost vb = self.b.feval();
        self.a.div2();
        self.b.div2();
        proof {
            crate::arith::lemma_residue_bounds(0);
            lemma_fhalf_apply(va, self.a.feval());
            lemma_fhalf_apply(vb, self.b.feval());
        }
    }

    /// Multiply by `u` (the square root of −1): `(a, b) ↦ (−b, a)`.
    pub fn times_i(&mut self)
        requires
            old(self).wf(),
        ensures
            final(self).wf(),
            final(self).fe2() == (fneg(old(self).fe2().1), old(self).fe2().0),
            final(self).a.xes == neg_xes(old(self).b.xes as int),
            final(self).b.xes == old(self).a.xes,
    {
        let z = FP::new_copy(&self.a);
        self.a.copy(&self.b);
        self.a.neg();
        self.b.copy(&z);
    }

    /// Multiply by `1 + u`, the non-residue that defines the next
    /// extension: `(a, b) ↦ (a − b, a + b)`.
    pub fn mul_ip(&mut self)
        requires
            old(self).wf(),
        ensures
            final(self).wf(),
            final(self).fe2() == (fsub(old(self).fe2().0, old(self).fe2().1), fadd(
                old(self).fe2().0,
                old(self).fe2().1,
            )),
            final(self).a.xes == add_xes(neg_xes(old(self).b.xes as int), old(self).a.xes as int),
            final(self).b.xes == add_xes(old(self).a.xes as int, old(self).b.xes as int),
    {
        let t = FP2::new_copy(self);
        let z = FP::new_copy(&self.a);
        self.a.copy(&self.b);
        self.a.neg();
        self.b.copy(&z);
        self.add(&t);
        proof {
            lemma_fsub_is_add_neg(old(self).fe2().0, old(self).fe2().1);
        }
    }

    /// Twice the quotient by `1 + u`: `(a, b) ↦ (a + b, b − a)`.
    pub fn div_ip2(&mut self)
        requires
            old(self).wf(),
        ensures
            final(self).wf(),
            final(self).fe2() == (fadd(old(self).fe2().0, old(self).fe2().1), fsub(
                old(self).fe2().1,
                old(self).fe2().0,
            )),
            final(self).a.xes == add_xes(old(self).a.xes as int, old(self).b.xes as int),
            final(self).b.xes == add_xes(old(self).b.xes as int, neg_xes(old(self).a.xes as int)),
    {
        let mut t = FP2::new();
        self.norm();
        t.a.copy(&self.a);
        t.a.add(&self.b);
        t.b.copy(&self.b);
        t.b.sub(&self.a);
        t.norm();
        self.copy(&t);
    }

    /// Divide by `1 + u`: `(a, b) ↦ ((a + b)/2, (b − a)/2)`.
    pub fn div_ip(&mut self)
        requires
            old(self).wf(),
        ensures
            final(self).wf(),
            final(self).fe2() == (fhalf(fadd(old(self).fe2().0, old(self).fe2().1)), fhalf(
                fsub(old(self).fe2().1, old(self).fe2().0),
            )),
            final(self).a.xes == add_xes(old(self).a.xes as int, old(self).b.xes as int),
            final(self).b.xes == add_xes(old(self).b.xes as int, neg_xes(old(self).a.xes as int)),
    {
        self.div_ip2();
        self.div2();
        proof {
            crate::arith::lemma_residue_bounds(0);
        }
    }

    /// The sum-and-difference transform: `(a, b) ↦ (a + b, a − b)`.
    pub fn spmt(&mut self)
        requires
            old(self).wf(),
        ensures
            final(self).wf(),
            final(self).fe2() == (fadd(old(self).fe2().0, old(self).fe2().1), fsub(
                old(self).fe2().0,
                old(self).fe2().1,
            )),
            final(self).a.xes == add_xes(old(self).a.xes as int, old(self).b.xes as int),
            final(self).b.xes == add_xes(old(self).a.xes as int, neg_xes(old(self).b.xes as int)),
    {
        let b = FP::new_copy(&self.b);
        self.b = FP::new_copy(&self.a);
        self.a.add(&b);
        self.b.sub(&b);
    }

    /// The sign convention for serialisation: decided by the imaginary
    /// part unless it is zero, then by the real part.
    pub fn is_neg(&mut self) -> (r: bool)
        requires
            old(self).wf(),
        ensures
            final(self).wf(),
            final(self).fe2() == old(self).fe2(),
            r == (if old(self).fe2().1 == 0 {
                old(self).fe2().0 > fneg(old(self).fe2().0)
            } else {
                old(self).fe2().1 > fneg(old(self).fe2().1)
            }),
    {
        if self.b.iszilch() {
            return self.a.is_neg();
        }
        self.b.is_neg()
    }
}

/// Applying the half: a residue whose double is the original residue is
/// its field half.
proof fn lemma_fhalf_apply(v: int, h: int)
    requires
        0 <= v < prime(),
        0 <= h < prime(),
        fadd(h, h) == v,
    ensures
        h == fhalf(v),
{
    lemma_fhalf_unique(v, h);
}

/// The product of summed excesses fits a wide word.
proof fn lemma_excess_sumprod(xa: int, xb: int, ya: int, yb: int)
    requires
        1 <= xa <= 0x3fff,
        1 <= xb <= 0x3fff,
        1 <= ya <= 0x3fff,
        1 <= yb <= 0x3fff,
    ensures
        (xa + xb) * (ya + yb) <= 0x40000000,
{
    assert((xa + xb) * (ya + yb) <= 0x40000000) by (nonlinear_arith)
        requires
            1 <= xa <= 0x3fff,
            1 <= xb <= 0x3fff,
            1 <= ya <= 0x3fff,
            1 <= yb <= 0x3fff,
    ;
}

/// The bounds needed by the Karatsuba multiplication: with the combined
/// excesses within the doubled budget, every intermediate fits its width
/// and the reduction bound.
proof fn lemma_fp2_mul_guard(aa: int, ab: int, ca: int, cb: int, sa: int, sc: int)
    requires
        0 <= aa,
        0 <= ab,
        0 <= ca,
        0 <= cb,
        aa + ab < sa * prime(),
        ca + cb < sc * prime(),
        1 <= sa,
        1 <= sc,
        sa * sc <= 0x10000,
    ensures
        aa * ca >= 0,
        ab * cb >= 0,
        aa * cb >= 0,
        ab * ca >= 0,
        aa * ca + ab * cb < bpow(DNLEN as nat),
        ab * cb <= prime() * bpow(NLEN as nat),
        aa * ca + (prime() * bpow(NLEN as nat) - ab * cb) <= bpow(NLEN as nat) * (bpow(
            NLEN as nat,
        ) - prime()),
        aa * ca + (prime() * bpow(NLEN as nat) - ab * cb) < bpow(DNLEN as nat),
        aa * ca + (prime() * bpow(NLEN as nat) - ab * cb) < bpow(NLEN as nat) * (2 * prime()),
        (aa + ab) * (ca + cb) <= bpow(NLEN as nat) * (bpow(NLEN as nat) - prime()),
        aa * ca + ab * cb <= (aa + ab) * (ca + cb),
        (aa + ab) * (ca + cb) - (aa * ca + ab * cb) == aa * cb + ab * ca,
        (aa + ab) * (ca + cb) < bpow(NLEN as nat) * prime(),
{
    rom::lemma_prime_shape();
    let p = prime();
    let rr = bpow(NLEN as nat);
    crate::big::lemma_bpow_pos(NLEN as nat);
    lemma_mul_nonnegative(aa, ca);
    lemma_mul_nonnegative(ab, cb);
    lemma_mul_nonnegative(aa, cb);
    lemma_mul_nonnegative(ab, ca);
    assert((aa + ab) * (ca + cb) == aa * ca + ab * cb + (aa * cb + ab * ca)) by (nonlinear_arith);
    assert((aa + ab) * (ca + cb) < (sa * sc) * (p * p)) by (nonlinear_arith)
        requires
            0 <= aa + ab < sa * p,
            0 <= ca + cb < sc * p,
            1 <= sa,
            1 <= sc,
            p >= 1,
    ;
    assert((sa * sc) * (p * p) <= 0x10000 * (p * p)) by (nonlinear_arith)
        requires
            sa * sc <= 0x10000,
            p >= 1,
    ;
    // every partial product is below the full product bound
    assert(aa * ca <= (aa + ab) * (ca + cb)) by (nonlinear_arith)
        requires
            0 <= aa,
            0 <= ab,
            0 <= ca,
            0 <= cb,
    ;
    assert(ab * cb <= (aa + ab) * (ca + cb)) by (nonlinear_arith)
        requires
            0 <= aa,
            0 <= ab,
            0 <= ca,
            0 <= cb,
    ;
    // width of the double-length sum
    assert(0x20000 * (p * p) < bpow(DNLEN as nat));
    assert(aa * ca + ab * cb <= 0x20000 * (p * p)) by (nonlinear_arith)
        requires
            aa * ca <= 0x10000 * (p * p),
            ab * cb <= 0x10000 * (p * p),
    ;
    // the subtrahend stays below the scaled modulus
    assert(0x10000 * (p * p) <= p * rr) by (nonlinear_arith)
        requires
            0x10000 * p < rr,
            p >= 1,
    ;
    // the combined real part stays within the reduction bound
    assert(aa * ca + (p * rr - ab * cb) <= 0x10000 * (p * p) + p * rr);
    assert(0x10000 * (p * p) + p * rr <= rr * (rr - p)) by (nonlinear_arith)
        requires
            0x10000 * (p * p) <= rr * p,
            0x10000 * p < rr,
            3 * p <= rr,
            p >= 1,
            rr >= 1,
    ;
    assert(3 * p <= rr) by (nonlinear_arith)
        requires
            0x8000 * p < rr,
            p >= 1,
    ;
    assert(aa * ca + (p * rr - ab * cb) < 2 * (p * rr));
    assert(2 * (p * rr) == rr * (2 * p)) by (nonlinear_arith);
    assert(0x10000 * (p * p) < rr * p) by (nonlinear_arith)
        requires
            0x10000 * p < rr,
            p >= 1,
    ;
    assert(rr * p == p * rr) by (nonlinear_arith);
    assert(rr * (bpow(NLEN as nat) - p) == rr * (rr - p));
    crate::big::lemma_bpow_adds(NLEN as nat, NLEN as nat);
    assert(rr * (rr - p) < rr * rr) by (nonlinear_arith)
        requires
            p >= 1,
            rr >= 1,
    ;
}

impl FP2 {
    /// The multiplicative inverse by the norm:
    /// `(a + b·u)⁻¹ = (a − b·u) / (a² + b²)`; the norm is inverted in the
    /// base field by Fermat's little theorem.
    pub fn inverse(&mut self)
        requires
            old(self).wf(),
        ensures
            final(self).wf(),
            final(self).fe2() == (fmul(
                old(self).fe2().0,
                crate::arith::finv(fp2_norm(old(self).fe2())),
            ), fmul(old(self).fe2().1, fneg(crate::arith::finv(fp2_norm(old(self).fe2()))))),
            final(self).a.xes == 2,
            final(self).b.xes == 2,
    {
        self.norm();
        let mut w1 = FP::new_copy(&self.a);
        let mut w2 = FP::new_copy(&self.b);

        w1.sqr();
        w2.sqr();
        w1.add(&w2);
        w1.inverse();
        self.a.mul(&w1);
        w1.neg();
        w1.norm();
        self.b.mul(&w1);
    }

    /// The square root, by the half-trace method: writes a root into this
    /// element and reports success; a non-square is zeroed. Each branch is
    /// taken exactly as its Euler test decides.
    pub fn sqrt(&mut self) -> (r: bool)
        requires
            old(self).wf(),
        ensures
            final(self).wf(),
            old(self).fe2() == (0int, 0int) ==> r && final(self).fe2() == (0int, 0int),
            old(self).fe2() != (0int, 0int) && !crate::arith::euler_qr(
                fp2_norm(old(self).fe2()),
            ) ==> !r && final(self).fe2() == (0int, 0int),
            old(self).fe2() != (0int, 0int) && crate::arith::euler_qr(fp2_norm(old(self).fe2()))
                ==> {
                let v = old(self).fe2();
                let s = crate::arith::froot(fp2_norm(v));
                let c1 = fhalf(fadd(v.0, s));
                let c2 = fhalf(fsub(v.0, s));
                &&& (crate::arith::euler_qr(c1) ==> r && final(self).fe2() == (
                    crate::arith::froot(c1),
                    fmul(
                        v.1,
                        crate::arith::finv(
                            fadd(crate::arith::froot(c1), crate::arith::froot(c1)),
                        ),
                    ),
                ))
                &&& (!crate::arith::euler_qr(c1) && crate::arith::euler_qr(c2) ==> r
                    && final(self).fe2() == (
                    crate::arith::froot(c2),
                    fmul(
                        v.1,
                        crate::arith::finv(
                            fadd(crate::arith::froot(c2), crate::arith::froot(c2)),
                        ),
                    ),
                ))
                &&& (!crate::arith::euler_qr(c1) && !crate::arith::euler_qr(c2) ==> !r
                    && final(self).fe2() == (0int, 0int))
            },
    {
        if self.iszilch() {
            return true;
        }
        let ghost v = self.fe2();
        let mut w1 = FP::new_copy(&self.b);
        let mut w2 = FP::new_copy(&self.a);
        w1.sqr();
        w2.sqr();
        w1.add(&w2);
        if w1.jacobi() != 1 {
            self.zero();
            return false;
        }
        let mut s = w1.sqrt();
        w1.copy(&s);
        w2.copy(&self.a);
        w2.add(&w1);
        w2.norm();
        w2.div2();
        proof {
            crate::arith::lemma_residue_bounds(0);
            lemma_fhalf_unique(fadd(v.0, crate::arith::froot(fp2_norm(v))), w2.feval());
        }
        if w2.jacobi() != 1 {
            w2.copy(&self.a);
            w2.sub(&w1);
            w2.norm();
            w2.div2();
            proof {
                lemma_fhalf_unique(fsub(v.0, crate::arith::froot(fp2_norm(v))), w2.feval());
            }
            if w2.jacobi() != 1 {
                self.zero();
                return false;
            }
        }
        let mut x = w2.sqrt();
        self.a.copy(&x);
        x.dbl();
        x.inverse();
        self.b.mul(&x);
        true
    }
}

/// The norm of a pair of residues: the sum of the squares of the parts.
pub open spec fn fp2_norm(v: (int, int)) -> int {
    fadd(fmul(v.0, v.0), fmul(v.1, v.1))
}

/// Addition in the quadratic extension is associative.
pub proof fn lemma_fp2_add_assoc(v: (int, int), w: (int, int), x: (int, int))
    ensures
        fp2_add(fp2_add(v, w), x) == fp2_add(v, fp2_add(w, x)),
{
    crate::arith::lemma_fadd_assoc(v.0, w.0, x.0);
    crate::arith::lemma_fadd_assoc(v.1, w.1, x.1);
}

/// Multiplication in the quadratic extension is commutative.
pub proof fn lemma_fp2_mul_comm(v: (int, int), w: (int, int))
    ensures
        fp2_mul(v, w) == fp2_mul(w, v),
{
}

/// Multiplication distributes over addition in the quadratic extension.
pub proof fn lemma_fp2_mul_distrib(v: (int, int), w: (int, int), x: (int, int))
    ensures
        fp2_mul(v, fp2_add(w, x)) == fp2_add(fp2_mul(v, w), fp2_mul(v, x)),
{
    let p = prime();
    lemma_flatten2(v.0, w.0, x.0);
    lemma_flatten2(v.1, w.1, x.1);
    lemma_flatten2(v.0, w.1, x.1);
    lemma_flatten2(v.1, w.0, x.0);
    // real parts
    assert(fp2_mul(v, fp2_add(w, x)).0 == (v.0 * (w.0 + x.0) - v.1 * (w.1 + x.1)) % p) by {
        vstd::arithmetic::div_mod::lemma_sub_mod_noop(
            v.0 * (w.0 + x.0),
            v.1 * (w.1 + x.1),
            p,
        );
    }
    assert(fp2_add(fp2_mul(v, w), fp2_mul(v, x)).0 == ((v.0 * w.0 - v.1 * w.1) + (v.0 * x.0 - v.1
        * x.1)) % p) by {
        vstd::arithmetic::div_mod::lemma_sub_mod_noop(v.0 * w.0, v.1 * w.1, p);
        vstd::arithmetic::div_mod::lemma_sub_mod_noop(v.0 * x.0, v.1 * x.1, p);
        vstd::arithmetic::div_mod::lemma_add_mod_noop(
            v.0 * w.0 - v.1 * w.1,
            v.0 * x.0 - v.1 * x.1,
            p,
        );
    }
    assert(v.0 * (w.0 + x.0) - v.1 * (w.1 + x.1) == (v.0 * w.0 - v.1 * w.1) + (v.0 * x.0 - v.1
        * x.1)) by (nonlinear_arith);
    // imaginary parts
    assert(fp2_mul(v, fp2_add(w, x)).1 == (v.0 * (w.1 + x.1) + v.1 * (w.0 + x.0)) % p) by {
        vstd::arithmetic::div_mod::lemma_add_mod_noop(
            v.0 * (w.1 + x.1),
            v.1 * (w.0 + x.0),
            p,
        );
    }
    assert(fp2_add(fp2_mul(v, w), fp2_mul(v, x)).1 == ((v.0 * w.1 + v.1 * w.0) + (v.0 * x.1 + v.1
        * x.0)) % p) by {
        vstd::arithmetic::div_mod::lemma_add_mod_noop(v.0 * w.1, v.1 * w.0, p);
        vstd::arithmetic::div_mod::lemma_add_mod_noop(v.0 * x.1, v.1 * x.0, p);
        vstd::arithmetic::div_mod::lemma_add_mod_noop(
            v.0 * w.1 + v.1 * w.0,
            v.0 * x.1 + v.1 * x.0,
            p,
        );
    }
    assert(v.0 * (w.1 + x.1) + v.1 * (w.0 + x.0) == (v.0 * w.1 + v.1 * w.0) + (v.0 * x.1 + v.1
        * x.0)) by (nonlinear_arith);
}

/// A product over a sum flattens to plain integer arithmetic modulo the
/// prime.
proof fn lemma_flatten2(a: int, b: int, c: int)
    ensures
        fmul(a, fadd(b, c)) == (a * (b + c)) % prime(),
        fmul(a, b) == (a * b) % prime(),
        fmul(a, c) == (a * c) % prime(),
{
    lemma_mul_mod_noop_general(a, b + c, prime());
}

/// The unit of the quadratic extension, as a pair of residues.
pub open spec fn fp2_one() -> (int, int) {
    (1int % prime(), 0int)
}

/// Exponentiation in the quadratic extension, reduced at every step.
pub open spec fn fp2_pow(v: (int, int), e: nat) -> (int, int)
    decreases e,
{
    if e == 0 {
        fp2_one()
    } else {
        fp2_mul(v, fp2_pow(v, (e - 1) as nat))
    }
}

/// Both components of a pair of residues lie below the prime.
pub open spec fn fp2_reduced(v: (int, int)) -> bool {
    0 <= v.0 < prime() && 0 <= v.1 < prime()
}

/// Multiplication in the quadratic extension is associative.
pub proof fn lemma_fp2_mul_assoc(v: (int, int), w: (int, int), x: (int, int))
    ensures
        fp2_mul(fp2_mul(v, w), x) == fp2_mul(v, fp2_mul(w, x)),
{
    let p = prime();
    let d0 = v.0 * w.0 - v.1 * w.1;
    let d1 = v.0 * w.1 + v.1 * w.0;
    let g0 = w.0 * x.0 - w.1 * x.1;
    let g1 = w.0 * x.1 + w.1 * x.0;
    // flatten the left product
    lemma_sub_mod_noop2(v.0 * w.0, v.1 * w.1);
    lemma_add_mod_noop2(v.0 * w.1, v.1 * w.0);
    assert(fp2_mul(v, w) == ((d0 % p, d1 % p)));
    lemma_mul_mod_noop_general(d0, x.0, p);
    lemma_mul_mod_noop_general(d0, x.1, p);
    lemma_mul_mod_noop_general(d1, x.0, p);
    lemma_mul_mod_noop_general(d1, x.1, p);
    lemma_sub_mod_noop2(d0 * x.0, d1 * x.1);
    lemma_add_mod_noop2(d0 * x.1, d1 * x.0);
    assert(fp2_mul(fp2_mul(v, w), x) == ((d0 * x.0 - d1 * x.1) % p, (d0 * x.1 + d1 * x.0) % p));
    // flatten the right product
    lemma_sub_mod_noop2(w.0 * x.0, w.1 * x.1);
    lemma_add_mod_noop2(w.0 * x.1, w.1 * x.0);
    assert(fp2_mul(w, x) == ((g0 % p, g1 % p)));
    lemma_mul_mod_noop_general(v.0, g0, p);
    lemma_mul_mod_noop_general(v.0, g1, p);
    lemma_mul_mod_noop_general(v.1, g0, p);
    lemma_mul_mod_noop_general(v.1, g1, p);
    lemma_sub_mod_noop2(v.0 * g0, v.1 * g1);
    lemma_add_mod_noop2(v.0 * g1, v.1 * g0);
    assert(fp2_mul(v, fp2_mul(w, x)) == ((v.0 * g0 - v.1 * g1) % p, (v.0 * g1 + v.1 * g0) % p));
    // the flattened integers agree, by distributing and reassociating
    vstd::arithmetic::mul::lemma_mul_is_distributive_sub_other_way(x.0, v.0 * w.0, v.1 * w.1);
    vstd::arithmetic::mul::lemma_mul_is_distributive_sub_other_way(x.1, v.0 * w.0, v.1 * w.1);
    vstd::arithmetic::mul::lemma_mul_is_distributive_add_other_way(x.0, v.0 * w.1, v.1 * w.0);
    vstd::arithmetic::mul::lemma_mul_is_distributive_add_other_way(x.1, v.0 * w.1, v.1 * w.0);
    vstd::arithmetic::mul::lemma_mul_is_distributive_sub(v.0, w.0 * x.0, w.1 * x.1);
    vstd::arithmetic::mul::lemma_mul_is_distributive_sub(v.1, w.0 * x.0, w.1 * x.1);
    vstd::arithmetic::mul::lemma_mul_is_distributive_add(v.0, w.0 * x.1, w.1 * x.0);
    vstd::arithmetic::mul::lemma_mul_is_distributive_add(v.1, w.0 * x.1, w.1 * x.0);
    vstd::arithmetic::mul::lemma_mul_is_associative(v.0, w.0, x.0);
    vstd::arithmetic::mul::lemma_mul_is_associative(v.0, w.0, x.1);
    vstd::arithmetic::mul::lemma_mul_is_associative(v.0, w.1, x.0);
    vstd::arithmetic::mul::lemma_mul_is_associative(v.0, w.1, x.1);
    vstd::arithmetic::mul::lemma_mul_is_associative(v.1, w.0, x.0);
    vstd::arithmetic::mul::lemma_mul_is_associative(v.1, w.0, x.1);
    vstd::arithmetic::mul::lemma_mul_is_associative(v.1, w.1, x.0);
    vstd::arithmetic::mul::lemma_mul_is_associative(v.1, w.1, x.1);
    assert(d0 * x.0 - d1 * x.1 == v.0 * g0 - v.1 * g1);
    assert(d0 * x.1 + d1 * x.0 == v.0 * g1 + v.1 * g0);
}

/// The subtraction of two residues of products, flattened.
proof fn lemma_sub_mod_noop2(a: int, b: int)
    ensures
        fsub(a % prime(), b % prime()) == (a - b) % prime(),
{
    vstd::arithmetic::div_mod::lemma_sub_mod_noop(a, b, prime());
}

/// The addition of two residues of products, flattened.
proof fn lemma_add_mod_noop2(a: int, b: int)
    ensures
        fadd(a % prime(), b % prime()) == (a + b) % prime(),
{
    vstd::arithmetic::div_mod::lemma_add_mod_noop(a, b, prime());
}

/// Every power has reduced components.
pub proof fn lemma_fp2_pow_reduced(v: (int, int), e: nat)
    ensures
        fp2_reduced(fp2_pow(v, e)),
    decreases e,
{
    let p = prime();
    if e == 0 {
        lemma_small_mod(1, p as nat);
    } else {
        lemma_mod_bound(v.0 * fp2_pow(v, (e - 1) as nat).0 - v.1 * fp2_pow(v, (e - 1) as nat).1,
            p);
        lemma_mod_bound(v.0 * fp2_pow(v, (e - 1) as nat).1 + v.1 * fp2_pow(v, (e - 1) as nat).0,
            p);
    }
}

/// The unit is neutral for multiplication on reduced pairs.
pub proof fn lemma_fp2_mul_one(w: (int, int))
    requires
        fp2_reduced(w),
    ensures
        fp2_mul(fp2_one(), w) == w,
        fp2_mul(w, fp2_one()) == w,
{
    let p = prime();
    lemma_mul_mod_noop_general(1int, w.0, p);
    lemma_mul_mod_noop_general(1int, w.1, p);
    lemma_small_mod(w.0 as nat, p as nat);
    lemma_small_mod(w.1 as nat, p as nat);
    assert(fmul(1int % p, w.0) == w.0 % p);
    assert(fmul(1int % p, w.1) == w.1 % p);
    assert(fmul(0, w.0) == 0) by {
        lemma_small_mod(0, p as nat);
    }
    assert(fmul(0, w.1) == 0) by {
        lemma_small_mod(0, p as nat);
    }
    assert(fsub(w.0, 0) == w.0) by {
        lemma_small_mod(w.0 as nat, p as nat);
    }
    assert(fadd(w.1, 0) == w.1) by {
        lemma_small_mod(w.1 as nat, p as nat);
    }
    assert(fadd(w.0, 0) == w.0) by {
        lemma_small_mod(w.0 as nat, p as nat);
    }
    assert(fsub(w.1, 0) == w.1 && fmul(w.0, 1int % p) == w.0 % p && fmul(w.1, 1int % p) == w.1
        % p) by {
        lemma_small_mod(w.1 as nat, p as nat);
        lemma_mul_mod_noop_general(w.0, 1int, p);
        lemma_mul_mod_noop_general(w.1, 1int, p);
    }
}

/// The first power of a reduced pair is the pair itself.
pub proof fn lemma_fp2_pow_one(v: (int, int))
    requires
        fp2_reduced(v),
    ensures
        fp2_pow(v, 1) == v,
{
    assert(fp2_pow(v, 1) == fp2_mul(v, fp2_one())) by {
        reveal_with_fuel(fp2_pow, 3);
    }
    lemma_fp2_mul_one(v);
}

/// Splitting an exponent in the quadratic extension.
pub proof fn lemma_fp2_pow_adds(v: (int, int), e1: nat, e2: nat)
    ensures
        fp2_pow(v, e1 + e2) == fp2_mul(fp2_pow(v, e1), fp2_pow(v, e2)),
    decreases e1,
{
    if e1 == 0 {
        lemma_fp2_pow_reduced(v, e2);
        lemma_fp2_mul_one(fp2_pow(v, e2));
    } else {
        lemma_fp2_pow_adds(v, (e1 - 1) as nat, e2);
        assert(fp2_pow(v, e1 + e2) == fp2_mul(v, fp2_pow(v, ((e1 + e2) - 1) as nat)));
        lemma_fp2_mul_assoc(v, fp2_pow(v, (e1 - 1) as nat), fp2_pow(v, e2));
    }
}

/// Extending a power table in the quadratic extension by one step.
proof fn lemma_fp2_pow_step(v: (int, int), k: nat)
    ensures
        fp2_mul(fp2_pow(v, k), v) == fp2_pow(v, (k + 1) as nat),
{
    lemma_fp2_mul_comm(fp2_pow(v, k), v);
    assert(fp2_pow(v, (k + 1) as nat) == fp2_mul(v, fp2_pow(v, k)));
}

/// Squaring a power in the quadratic extension doubles the exponent.
proof fn lemma_fp2_double_pow(v: (int, int), k: nat)
    ensures
        fp2_mul(fp2_pow(v, k), fp2_pow(v, k)) == fp2_pow(v, (2 * k) as nat),
{
    lemma_fp2_pow_adds(v, k, k);
}

impl FP2 {
    /// Raise to the power of a fixed-width exponent, by the same
    /// constant-time 4-bit windowed ladder as the base field.
    pub fn pow(&self, e: &Big) -> (r: FP2)
        requires
            self.wf(),
            e.is_norm(),
        ensures
            r.wf(),
            r.fe2() == fp2_pow(self.fe2(), e.val() as nat),
    {
        proof {
            rom::lemma_prime_shape();
            lemma_vpre_nonneg(e.w@, NLEN as int);
            crate::big::lemma_vpre_bound(e.w@, NLEN as int);
        }
        let digits = FP::recode_nibbles(e);
        let tb = self.power_table();
        FP2::window_ladder(&tb, &digits, Ghost(self.fe2()), Ghost(e.val()))
    }

    /// The table of the first sixteen powers of this element.
    fn power_table(&self) -> (tb: [FP2; 16])
        requires
            self.wf(),
        ensures
            forall|j: int| 0 <= j < 16 ==> #[trigger] tb@[j].wf(),
            forall|j: int|
                0 <= j < 16 ==> #[trigger] tb@[j].fe2() == fp2_pow(self.fe2(), j as nat),
    {
        proof {
            rom::lemma_prime_shape();
        }
        let ghost xv = self.fe2();
        let mut tb: [FP2; 16] = [FP2::new(); 16];
        let mut unit = FP2::new();
        unit.one();
        tb[0] = unit;
        tb[1] = FP2::new_copy(self);
        proof {
            lemma_small_mod(1, prime() as nat);
            assert(fp2_pow(xv, 0) == fp2_one());
            lemma_fp2_pow_one(xv);
        }
        let mut k: usize = 2;
        while k < 16
            invariant
                2 <= k <= 16,
                self.wf(),
                xv == self.fe2(),
                forall|j: int| 0 <= j < k ==> #[trigger] tb@[j].wf(),
                forall|j: int| 0 <= j < k ==> #[trigger] tb@[j].fe2() == fp2_pow(xv, j as nat),
            decreases 16 - k,
        {
            let mut c = FP2::new_copy(&tb[k - 1]);
            c.mul(self);
            tb[k] = c;
            proof {
                lemma_fp2_pow_step(xv, (k - 1) as nat);
            }
            k = k + 1;
        }
        tb
    }

    /// Accumulate the windowed power from the top nibble down.
    fn window_ladder(
        tb: &[FP2; 16],
        digits: &[u64; 102],
        xg: Ghost<(int, int)>,
        eg: Ghost<int>,
    ) -> (r: FP2)
        requires
            0 <= eg@ < bpow(NLEN as nat),
            forall|j: int| 0 <= j < 16 ==> #[trigger] tb@[j].wf(),
            forall|j: int| 0 <= j < 16 ==> #[trigger] tb@[j].fe2() == fp2_pow(xg@, j as nat),
            forall|j: int|
                0 <= j < 102 ==> digits@[j] == (eg@ / crate::big::pow2s((4 * j) as nat)) % 16,
            forall|j: int| 0 <= j < 102 ==> digits@[j] < 16,
        ensures
            r.wf(),
            r.fe2() == fp2_pow(xg@, eg@ as nat),
    {
        let ghost xv = xg@;
        let ghost ev = eg@;
        let top = digits[101] as usize;
        let mut r = FP2::new_copy(&tb[top]);
        proof {
            crate::fp::lemma_top_digit(ev);
            assert(digits@[101] == (ev / crate::big::pow2s((4 * 101) as nat)) % 16);
            crate::big::lemma_pow2s_pos(404);
            vstd::arithmetic::div_mod::lemma_div_pos_is_pos(ev, crate::big::pow2s(404));
            lemma_small_mod((ev / crate::big::pow2s(404)) as nat, 16nat);
        }
        let mut i: usize = 101;
        while i > 0
            invariant
                i <= 101,
                r.wf(),
                ev >= 0,
                forall|j: int|
                    0 <= j < 102 ==> digits@[j] == (ev / crate::big::pow2s((4 * j) as nat)) % 16,
                forall|j: int| 0 <= j < 102 ==> digits@[j] < 16,
                forall|j: int| 0 <= j < 16 ==> #[trigger] tb@[j].wf(),
                forall|j: int| 0 <= j < 16 ==> #[trigger] tb@[j].fe2() == fp2_pow(xv, j as nat),
                r.fe2() == fp2_pow(xv, (ev / crate::big::pow2s((4 * i) as nat)) as nat),
            decreases i,
        {
            i = i - 1;
            let ghost ehi = ev / crate::big::pow2s((4 * (i + 1)) as nat);
            proof {
                crate::big::lemma_pow2s_pos((4 * (i + 1)) as nat);
                vstd::arithmetic::div_mod::lemma_div_pos_is_pos(
                    ev,
                    crate::big::pow2s((4 * (i + 1)) as nat),
                );
            }
            r.sqr();
            proof {
                lemma_fp2_double_pow(xv, ehi as nat);
            }
            r.sqr();
            proof {
                lemma_fp2_double_pow(xv, (2 * ehi) as nat);
            }
            r.sqr();
            proof {
                lemma_fp2_double_pow(xv, (4 * ehi) as nat);
            }
            r.sqr();
            proof {
                lemma_fp2_double_pow(xv, (8 * ehi) as nat);
            }
            let d = digits[i] as usize;
            r.mul(&tb[d]);
            proof {
                crate::big::lemma_pow2s_pos((4 * i) as nat);
                vstd::arithmetic::div_mod::lemma_div_denominator(
                    ev,
                    crate::big::pow2s((4 * i) as nat),
                    16,
                );
                crate::big::lemma_pow2s_adds((4 * i) as nat, 4);
                assert(crate::big::pow2s(4) == 16) by {
                    reveal_with_fuel(crate::big::pow2s, 5);
                }
                let elo = ev / crate::big::pow2s((4 * i) as nat);
                vstd::arithmetic::div_mod::lemma_fundamental_div_mod(elo, 16);
                assert(elo == 16 * ehi + elo % 16);
                lemma_fp2_pow_adds(xv, (16 * ehi) as nat, (elo % 16) as nat);
            }
        }
        proof {
            assert(crate::big::pow2s(0) == 1);
        }
        r
    }
}

/// The denoted pair of any element has reduced components.
pub proof fn lemma_fe2_reduced(x: FP2)
    ensures
        fp2_reduced(x.fe2()),
{
    lemma_mod_bound(x.a.x.val() * crate::arith::rinv(), prime());
    lemma_mod_bound(x.b.x.val() * crate::arith::rinv(), prime());
}

/// The components of any product pair are reduced.
pub proof fn lemma_fp2_mul_reduced(v: (int, int), w: (int, int))
    ensures
        fp2_reduced(fp2_mul(v, w)),
{
    lemma_mod_bound(v.0 * w.0 % prime() - v.1 * w.1 % prime(), prime());
    lemma_mod_bound(v.0 * w.1 % prime() + v.1 * w.0 % prime(), prime());
}

} // verus!
