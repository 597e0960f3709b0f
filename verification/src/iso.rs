//! The 3-isogeny from the Shallue–van de Woestijne–Ulas auxiliary curve
//! onto the G2 twist: the coefficient tables of the four isogeny
//! polynomials, the curve constants of the auxiliary curve, the roots of
//! unity and η patch constants used by the map, and the Horner evaluation
//! that carries a point of the auxiliary curve to the twist.

use vstd::prelude::*;
#[allow(unused_imports)]
use vstd::arithmetic::div_mod::lemma_small_mod;
#[allow(unused_imports)]
use crate::arith::{fadd, fmul, fneg, fsub, prime};
#[allow(unused_imports)]
use crate::big::{bpow, vpre, Big};
#[allow(unused_imports)]
use crate::ecp2::ECP2;
#[allow(unused_imports)]
use crate::fp::FP;
#[allow(unused_imports)]
use crate::fp2::{fp2_add, fp2_mul, fp2_neg, fp2_pow, FP2};

verus! {

/// A point of the auxiliary curve of the 3-isogeny, in the projective
/// form (X·Z, Y·Z, Z).
#[allow(non_camel_case_types)]
pub struct ISO3_FP2 {
    pub x: FP2,
    pub y: FP2,
    pub z: FP2,
}

impl ISO3_FP2 {
    /// All coordinates satisfy the excess invariant.
    pub open spec fn wf(self) -> bool {
        self.x.wf() && self.y.wf() && self.z.wf()
    }

    /// Evaluate the 3-isogeny at this point: each polynomial of the map
    /// is evaluated by Horner's rule in the projective form, and the four
    /// values are recombined into projective coordinates on the twist.
    pub fn iso3_to_ecp2(&self) -> (r: ECP2)
        requires
            self.wf(),
        ensures
            r.wf(),
            r.x.fe2() == iso3_image(self.x.fe2(), self.y.fe2(), self.z.fe2()).0,
            r.y.fe2() == iso3_image(self.x.fe2(), self.y.fe2(), self.z.fe2()).1,
            r.z.fe2() == iso3_image(self.x.fe2(), self.y.fe2(), self.z.fe2()).2,
    {
        let zv = z_powers(&self.z);
        let xn = eval_iso3_poly(&xnum_coeffs(), &self.x, &zv);
        let xd = eval_iso3_poly(&xden_coeffs(), &self.x, &zv);
        let mut yn = eval_iso3_poly(&ynum_coeffs(), &self.x, &zv);
        let mut yd = eval_iso3_poly(&yden_coeffs(), &self.x, &zv);

        // the y-numerator carries the y-coordinate; the y-denominator the
        // projective scale
        yn.mul(&self.y);
        yd.mul(&self.z);

        let mut z_g2 = FP2::new_copy(&xd);
        z_g2.mul(&yd);
        let mut x_g2 = FP2::new_copy(&xn);
        x_g2.mul(&yd);
        let mut y_g2 = FP2::new_copy(&yn);
        y_g2.mul(&xd);

        ECP2::new_projective(x_g2, y_g2, z_g2)
    }
}

/// Horner evaluation of a degree-3 isogeny polynomial in projective form:
/// `((k3·x + k2·z)·x + k1·z²)·x + k0·z³`.
pub open spec fn iso3_horner(
    k0: (int, int),
    k1: (int, int),
    k2: (int, int),
    k3: (int, int),
    x: (int, int),
    z: (int, int),
) -> (int, int) {
    fp2_add(
        fp2_mul(
            fp2_add(
                fp2_mul(fp2_add(fp2_mul(k3, x), fp2_mul(k2, z)), x),
                fp2_mul(k1, fp2_mul(z, z)),
            ),
            x,
        ),
        fp2_mul(k0, fp2_mul(fp2_mul(z, z), z)),
    )
}

/// The image of a projective point under the 3-isogeny: the recombined
/// projective coordinates on the twist.
pub open spec fn iso3_image(x: (int, int), y: (int, int), z: (int, int)) -> (
    (int, int),
    (int, int),
    (int, int),
) {
    let xn = iso3_horner(xnum_k0(), xnum_k1(), xnum_k2(), xnum_k3(), x, z);
    let xd = iso3_horner(xden_k0(), xden_k1(), xden_k2(), xden_k3(), x, z);
    let yn = fp2_mul(iso3_horner(ynum_k0(), ynum_k1(), ynum_k2(), ynum_k3(), x, z), y);
    let yd = fp2_mul(iso3_horner(yden_k0(), yden_k1(), yden_k2(), yden_k3(), x, z), z);
    (fp2_mul(xn, yd), fp2_mul(yn, xd), fp2_mul(xd, yd))
}

/// The powers z, z² and z³ of a projective scale.
pub fn z_powers(z: &FP2) -> (r: [FP2; 3])
    requires
        z.wf(),
    ensures
        forall|i: int| 0 <= i < 3 ==> #[trigger] r@[i].wf(),
        r@[0].fe2() == z.fe2(),
        r@[1].fe2() == fp2_mul(z.fe2(), z.fe2()),
        r@[2].fe2() == fp2_mul(fp2_mul(z.fe2(), z.fe2()), z.fe2()),
    {
    let mut two = FP2::new_copy(z);
    two.sqr();
    let mut three = FP2::new_copy(&two);
    three.mul(z);
    [FP2::new_copy(z), two, three]
}

/// Horner evaluation of one isogeny polynomial at a point of the
/// auxiliary curve, in projective form.
fn eval_iso3_poly(k: &[FP2; 4], x: &FP2, zv: &[FP2; 3]) -> (r: FP2)
    requires
        x.wf(),
        forall|i: int| 0 <= i < 4 ==> #[trigger] k@[i].wf(),
        forall|i: int| 0 <= i < 3 ==> #[trigger] zv@[i].wf(),
    ensures
        r.wf(),
        zv@[1].fe2() == fp2_mul(zv@[0].fe2(), zv@[0].fe2()) && zv@[2].fe2() == fp2_mul(
            fp2_mul(zv@[0].fe2(), zv@[0].fe2()),
            zv@[0].fe2(),
        ) ==> r.fe2() == iso3_horner(
            k@[0].fe2(),
            k@[1].fe2(),
            k@[2].fe2(),
            k@[3].fe2(),
            x.fe2(),
            zv@[0].fe2(),
        ),
{
    let mut m = FP2::new_copy(&k[3]);
    m.mul(x);
    let mut zk = FP2::new_copy(&k[2]);
    zk.mul(&zv[0]);
    m.add(&zk);
    m.mul(x);
    let mut zk1 = FP2::new_copy(&k[1]);
    zk1.mul(&zv[1]);
    m.add(&zk1);
    m.mul(x);
    let mut zk0 = FP2::new_copy(&k[0]);
    zk0.mul(&zv[2]);
    m.add(&zk0);
    m
}

/// The four positive eighth roots of unity used to recognise square
/// roots: 1, u, and the square roots of −u and of u (the pairs (s, s)
/// and (s, −s) built from the square root of −1/2).
pub fn roots_of_unity() -> (r: [FP2; 4])
    ensures
        forall|i: int| 0 <= i < 4 ==> #[trigger] r@[i].wf(),
        r@[0].fe2() == (1int, 0int),
        r@[1].fe2() == (0int, 1int),
        r@[2].fe2() == (rt_neg_half(), rt_neg_half()),
        r@[3].fe2() == (rt_neg_half(), fneg(rt_neg_half())),
{
    let a = FP2::new_ints(1, 0);
    let b = FP2::new_ints(0, 1);
    let s = FP::new_big(&Big::root_neg_half());
    let c = FP2::new_fps(&s, &s);
    let mut neg_sqrt_1 = FP::new_copy(&s);
    neg_sqrt_1.neg();
    let d = FP2::new_fps(&s, &neg_sqrt_1);
    proof {
        crate::rom::lemma_prime_shape();
        lemma_small_mod(1, prime() as nat);
        lemma_small_mod(rt_neg_half() as nat, prime() as nat);
    }
    [a, b, c, d]
}

/// The square root of −1/2, as a residue: twice its square is −1, so the
/// pairs (s, s) and (s, −s) square to −u and u.
pub open spec fn rt_neg_half() -> int {
    0x6af0e0437ff400b6831e36d6bd17ffe48395dabc2d3435e77f76e17009241c5ee67992f72ec05f4c81084fbede3cc09int
}

/// The first η patch value, as a residue.
pub open spec fn ev1() -> int {
    0x699be3b8c6870965e5bf892ad5d2cc7b0e85a117402dfd83b7f4a947e02d978498255a2aaec0ac627b5afbdf1bf1c90int
}

/// The second η patch value, as a residue.
pub open spec fn ev2() -> int {
    0x8157cd83046453f5dd0972b6e3949e4288020b5b8a9cc99ca07e27089a2ce2436d965026adad3ef7baba37f2183e9b5int
}

/// The third η patch value, as a residue.
pub open spec fn ev3() -> int {
    0xab1c2ffdd6c253ca155231eb3e71ba044fd562f6f72bc5bad5ec46a0b7a3b0247cf08ce6c6317f40edbc653a72dee17int
}

/// The fourth η patch value, as a residue.
pub open spec fn ev4() -> int {
    0xaa404866706722864480885d68ad0ccac1967c7544b447873cc37e0181271e006df72162a3d3e0287bf597fbf7f8fc1int
}

/// The four η patch constants that repair the square-root candidate in
/// the fallback branch of the map.
pub fn etas() -> (r: [FP2; 4])
    ensures
        forall|i: int| 0 <= i < 4 ==> #[trigger] r@[i].wf(),
        r@[0].fe2() == (ev1(), ev2()),
        r@[1].fe2() == (fneg(ev2()), ev1()),
        r@[2].fe2() == (ev3(), ev4()),
        r@[3].fe2() == (fneg(ev4()), ev3()),
{
    let e1 = FP::new_big(&Big::eta1());
    let e2 = FP::new_big(&Big::eta2());
    let e3 = FP::new_big(&Big::eta3());
    let e4 = FP::new_big(&Big::eta4());
    let a = FP2::new_fps(&e1, &e2);
    let mut negative_ev2 = FP::new_copy(&e2);
    negative_ev2.neg();
    let b = FP2::new_fps(&negative_ev2, &e1);
    let c = FP2::new_fps(&e3, &e4);
    let mut negative_ev4 = FP::new_copy(&e4);
    negative_ev4.neg();
    let d = FP2::new_fps(&negative_ev4, &e3);
    proof {
        crate::rom::lemma_prime_shape();
        lemma_small_mod(ev1() as nat, prime() as nat);
        lemma_small_mod(ev2() as nat, prime() as nat);
        lemma_small_mod(ev3() as nat, prime() as nat);
        lemma_small_mod(ev4() as nat, prime() as nat);
    }
    [a, b, c, d]
}

// spec-level coefficient values of the 3-isogeny polynomials

/// Coefficient 0 of the numerator of the x-coordinate map.
pub open spec fn xnum_k0() -> (int, int) {
    (0x5c759507e8e333ebb5b7a9a47d7ed8532c52d39fd3a042a88b58423c50ae15d5c2638e343d9c71c6238aaaaaaaa97d6int, 0x5c759507e8e333ebb5b7a9a47d7ed8532c52d39fd3a042a88b58423c50ae15d5c2638e343d9c71c6238aaaaaaaa97d6int)
}

/// Coefficient 1 of the numerator of the x-coordinate map.
pub open spec fn xnum_k1() -> (int, int) {
    (0x0int, 0x11560bf17baa99bc32126fced787c88f984f87adf7ae0c7f9a208c6b4f20a4181472aaa9cb8d555526a9ffffffffc71aint)
}

/// Coefficient 2 of the numerator of the x-coordinate map.
pub open spec fn xnum_k2() -> (int, int) {
    (0x11560bf17baa99bc32126fced787c88f984f87adf7ae0c7f9a208c6b4f20a4181472aaa9cb8d555526a9ffffffffc71eint, 0x8ab05f8bdd54cde190937e76bc3e447cc27c3d6fbd7063fcd104635a790520c0a395554e5c6aaaa9354ffffffffe38dint)
}

/// Coefficient 3 of the numerator of the x-coordinate map.
pub open spec fn xnum_k3() -> (int, int) {
    (0x171d6541fa38ccfaed6dea691f5fb614cb14b4e7f4e810aa22d6108f142b85757098e38d0f671c7188e2aaaaaaaa5ed1int, 0x0int)
}

/// Coefficient 0 of the denominator of the x-coordinate map.
pub open spec fn xden_k0() -> (int, int) {
    (0x0int, 0x1a0111ea397fe69a4b1ba7b6434bacd764774b84f38512bf6730d2a0f6b0f6241eabfffeb153ffffb9feffffffffaa63int)
}

/// Coefficient 1 of the denominator of the x-coordinate map.
pub open spec fn xden_k1() -> (int, int) {
    (0xcint, 0x1a0111ea397fe69a4b1ba7b6434bacd764774b84f38512bf6730d2a0f6b0f6241eabfffeb153ffffb9feffffffffaa9fint)
}

/// Coefficient 2 of the denominator of the x-coordinate map.
pub open spec fn xden_k2() -> (int, int) {
    (0x1int, 0x0int)
}

/// Coefficient 3 of the denominator of the x-coordinate map.
pub open spec fn xden_k3() -> (int, int) {
    (0x0int, 0x0int)
}

/// Coefficient 0 of the numerator of the y-coordinate map.
pub open spec fn ynum_k0() -> (int, int) {
    (0x1530477c7ab4113b59a4c18b076d11930f7da5d4a07f649bf54439d87d27e500fc8c25ebf8c92f6812cfc71c71c6d706int, 0x1530477c7ab4113b59a4c18b076d11930f7da5d4a07f649bf54439d87d27e500fc8c25ebf8c92f6812cfc71c71c6d706int)
}

/// Coefficient 1 of the numerator of the y-coordinate map.
pub open spec fn ynum_k1() -> (int, int) {
    (0x0int, 0x5c759507e8e333ebb5b7a9a47d7ed8532c52d39fd3a042a88b58423c50ae15d5c2638e343d9c71c6238aaaaaaaa97beint)
}

/// Coefficient 2 of the numerator of the y-coordinate map.
pub open spec fn ynum_k2() -> (int, int) {
    (0x11560bf17baa99bc32126fced787c88f984f87adf7ae0c7f9a208c6b4f20a4181472aaa9cb8d555526a9ffffffffc71cint, 0x8ab05f8bdd54cde190937e76bc3e447cc27c3d6fbd7063fcd104635a790520c0a395554e5c6aaaa9354ffffffffe38fint)
}

/// Coefficient 3 of the numerator of the y-coordinate map.
pub open spec fn ynum_k3() -> (int, int) {
    (0x124c9ad43b6cf79bfbf7043de3811ad0761b0f37a1e26286b0e977c69aa274524e79097a56dc4bd9e1b371c71c718b10int, 0x0int)
}

/// Coefficient 0 of the denominator of the y-coordinate map.
pub open spec fn yden_k0() -> (int, int) {
    (0x1a0111ea397fe69a4b1ba7b6434bacd764774b84f38512bf6730d2a0f6b0f6241eabfffeb153ffffb9feffffffffa8fbint, 0x1a0111ea397fe69a4b1ba7b6434bacd764774b84f38512bf6730d2a0f6b0f6241eabfffeb153ffffb9feffffffffa8fbint)
}

/// Coefficient 1 of the denominator of the y-coordinate map.
pub open spec fn yden_k1() -> (int, int) {
    (0x0int, 0x1a0111ea397fe69a4b1ba7b6434bacd764774b84f38512bf6730d2a0f6b0f6241eabfffeb153ffffb9feffffffffa9d3int)
}

/// Coefficient 2 of the denominator of the y-coordinate map.
pub open spec fn yden_k2() -> (int, int) {
    (0x12int, 0x1a0111ea397fe69a4b1ba7b6434bacd764774b84f38512bf6730d2a0f6b0f6241eabfffeb153ffffb9feffffffffaa99int)
}

/// Coefficient 3 of the denominator of the y-coordinate map.
pub open spec fn yden_k3() -> (int, int) {
    (0x1int, 0x0int)
}


/// Limb form of the real part of coefficient 0 of the
/// numerator of the x-coordinate map.
fn xnum_a0_limbs() -> (r: Big)
    ensures
        r.val() == 0x5c759507e8e333ebb5b7a9a47d7ed8532c52d39fd3a042a88b58423c50ae15d5c2638e343d9c71c6238aaaaaaaa97d6int,
        r.is_norm(),
        r.val() < prime(),
{
    let r = Big {
        w: [
            0xaaa97d6, 0x11c55555, 0x1671c718, 0xc71c687, 0xe15d5c2, 0x211e285, 0x10aa22d6, 0x73fa740, 0x532c52d, 0x123ebf6c, 0xed6dea6, 0x1d1c667d, 0x1c759507, 0x2,
        ],
    };
    proof {
        reveal_with_fuel(vpre, 16);
        reveal_with_fuel(bpow, 16);
        assert(r.val() == 0x5c759507e8e333ebb5b7a9a47d7ed8532c52d39fd3a042a88b58423c50ae15d5c2638e343d9c71c6238aaaaaaaa97d6int);
    }
    r
}

/// Limb form of the imaginary part of coefficient 0 of the
/// numerator of the x-coordinate map.
fn xnum_b0_limbs() -> (r: Big)
    ensures
        r.val() == 0x5c759507e8e333ebb5b7a9a47d7ed8532c52d39fd3a042a88b58423c50ae15d5c2638e343d9c71c6238aaaaaaaa97d6int,
        r.is_norm(),
        r.val() < prime(),
{
    let r = Big {
        w: [
            0xaaa97d6, 0x11c55555, 0x1671c718, 0xc71c687, 0xe15d5c2, 0x211e285, 0x10aa22d6, 0x73fa740, 0x532c52d, 0x123ebf6c, 0xed6dea6, 0x1d1c667d, 0x1c759507, 0x2,
        ],
    };
    proof {
        reveal_with_fuel(vpre, 16);
        reveal_with_fuel(bpow, 16);
        assert(r.val() == 0x5c759507e8e333ebb5b7a9a47d7ed8532c52d39fd3a042a88b58423c50ae15d5c2638e343d9c71c6238aaaaaaaa97d6int);
    }
    r
}

/// Limb form of the real part of coefficient 1 of the
/// numerator of the x-coordinate map.
fn xnum_a1_limbs() -> (r: Big)
    ensures
        r.val() == 0x0int,
        r.is_norm(),
        r.val() < prime(),
{
    proof {
        crate::rom::lemma_prime_shape();
    }
    Big::new_int(0x0)
}

/// Limb form of the imaginary part of coefficient 1 of the
/// numerator of the x-coordinate map.
fn xnum_b1_limbs() -> (r: Big)
    ensures
        r.val() == 0x11560bf17baa99bc32126fced787c88f984f87adf7ae0c7f9a208c6b4f20a4181472aaa9cb8d555526a9ffffffffc71aint,
        r.is_norm(),
        r.val() < prime(),
{
    let r = Big {
        w: [
            0x1fffc71a, 0x154fffff, 0x3555549, 0x5555397, 0xa418147, 0x635a790, 0x11fe6882, 0x15bef5c1, 0xf984f87, 0x16bc3e44, 0xc849bf3, 0x17553378, 0x1560bf17, 0x8,
        ],
    };
    proof {
        reveal_with_fuel(vpre, 16);
        reveal_with_fuel(bpow, 16);
        assert(r.val() == 0x11560bf17baa99bc32126fced787c88f984f87adf7ae0c7f9a208c6b4f20a4181472aaa9cb8d555526a9ffffffffc71aint);
    }
    r
}

/// Limb form of the real part of coefficient 2 of the
/// numerator of the x-coordinate map.
fn xnum_a2_limbs() -> (r: Big)
    ensures
        r.val() == 0x11560bf17baa99bc32126fced787c88f984f87adf7ae0c7f9a208c6b4f20a4181472aaa9cb8d555526a9ffffffffc71eint,
        r.is_norm(),
        r.val() < prime(),
{
    let r = Big {
        w: [
            0x1fffc71e, 0x154fffff, 0x3555549, 0x5555397, 0xa418147, 0x635a790, 0x11fe6882, 0x15bef5c1, 0xf984f87, 0x16bc3e44, 0xc849bf3, 0x17553378, 0x1560bf17, 0x8,
        ],
    };
    proof {
        reveal_with_fuel(vpre, 16);
        reveal_with_fuel(bpow, 16);
        assert(r.val() == 0x11560bf17baa99bc32126fced787c88f984f87adf7ae0c7f9a208c6b4f20a4181472aaa9cb8d555526a9ffffffffc71eint);
    }
    r
}

/// Limb form of the imaginary part of coefficient 2 of the
/// numerator of the x-coordinate map.
fn xnum_b2_limbs() -> (r: Big)
    ensures
        r.val() == 0x8ab05f8bdd54cde190937e76bc3e447cc27c3d6fbd7063fcd104635a790520c0a395554e5c6aaaa9354ffffffffe38dint,
        r.is_norm(),
        r.val() < prime(),
{
    let r = Big {
        w: [
            0x1fffe38d, 0x1aa7ffff, 0x11aaaaa4, 0x12aaa9cb, 0x520c0a3, 0x31ad3c8, 0x18ff3441, 0x1adf7ae0, 0x7cc27c3, 0x1b5e1f22, 0x6424df9, 0x1baa99bc, 0xab05f8b, 0x4,
        ],
    };
    proof {
        reveal_with_fuel(vpre, 16);
        reveal_with_fuel(bpow, 16);
        assert(r.val() == 0x8ab05f8bdd54cde190937e76bc3e447cc27c3d6fbd7063fcd104635a790520c0a395554e5c6aaaa9354ffffffffe38dint);
    }
    r
}

/// Limb form of the real part of coefficient 3 of the
/// numerator of the x-coordinate map.
fn xnum_a3_limbs() -> (r: Big)
    ensures
        r.val() == 0x171d6541fa38ccfaed6dea691f5fb614cb14b4e7f4e810aa22d6108f142b85757098e38d0f671c7188e2aaaaaaaa5ed1int,
        r.is_norm(),
        r.val() < prime(),
{
    let r = Big {
        w: [
            0xaaa5ed1, 0x7155555, 0x19c71c62, 0x11c71a1e, 0x18575709, 0x8478a15, 0x2a88b58, 0x1cfe9d02, 0x14cb14b4, 0x8fafdb0, 0x1b5b7a9a, 0x147199f5, 0x11d6541f, 0xb,
        ],
    };
    proof {
        reveal_with_fuel(vpre, 16);
        reveal_with_fuel(bpow, 16);
        assert(r.val() == 0x171d6541fa38ccfaed6dea691f5fb614cb14b4e7f4e810aa22d6108f142b85757098e38d0f671c7188e2aaaaaaaa5ed1int);
    }
    r
}

/// Limb form of the imaginary part of coefficient 3 of the
/// numerator of the x-coordinate map.
fn xnum_b3_limbs() -> (r: Big)
    ensures
        r.val() == 0x0int,
        r.is_norm(),
        r.val() < prime(),
{
    proof {
        crate::rom::lemma_prime_shape();
    }
    Big::new_int(0x0)
}

/// The four coefficients of the numerator of the x-coordinate map of the 3-isogeny, lowest degree
/// first, as elements of the quadratic extension.
pub fn xnum_coeffs() -> (r: [FP2; 4])
    ensures
        forall|i: int| 0 <= i < 4 ==> #[trigger] r@[i].wf(),
        r@[0].fe2() == xnum_k0(),
        r@[1].fe2() == xnum_k1(),
        r@[2].fe2() == xnum_k2(),
        r@[3].fe2() == xnum_k3(),
{
    let a0 = xnum_a0_limbs();
    let b0 = xnum_b0_limbs();
    let a1 = xnum_a1_limbs();
    let b1 = xnum_b1_limbs();
    let a2 = xnum_a2_limbs();
    let b2 = xnum_b2_limbs();
    let a3 = xnum_a3_limbs();
    let b3 = xnum_b3_limbs();
    proof {
        lemma_small_mod(a0.val() as nat, prime() as nat);
        lemma_small_mod(b0.val() as nat, prime() as nat);
        lemma_small_mod(a1.val() as nat, prime() as nat);
        lemma_small_mod(b1.val() as nat, prime() as nat);
        lemma_small_mod(a2.val() as nat, prime() as nat);
        lemma_small_mod(b2.val() as nat, prime() as nat);
        lemma_small_mod(a3.val() as nat, prime() as nat);
        lemma_small_mod(b3.val() as nat, prime() as nat);
    }
    [
        FP2::new_bigs(&a0, &b0),
        FP2::new_bigs(&a1, &b1),
        FP2::new_bigs(&a2, &b2),
        FP2::new_bigs(&a3, &b3),
    ]
}

/// Limb form of the real part of coefficient 0 of the
/// denominator of the x-coordinate map.
fn xden_a0_limbs() -> (r: Big)
    ensures
        r.val() == 0x0int,
        r.is_norm(),
        r.val() < prime(),
{
    proof {
        crate::rom::lemma_prime_shape();
    }
    Big::new_int(0x0)
}

/// Limb form of the imaginary part of coefficient 0 of the
/// denominator of the x-coordinate map.
fn xden_b0_limbs() -> (r: Big)
    ensures
        r.val() == 0x1a0111ea397fe69a4b1ba7b6434bacd764774b84f38512bf6730d2a0f6b0f6241eabfffeb153ffffb9feffffffffaa63int,
        r.is_norm(),
        r.val() < prime(),
{
    let mut r = Big::modulus();
    r.dec(0x48);
    r
}

/// Limb form of the real part of coefficient 1 of the
/// denominator of the x-coordinate map.
fn xden_a1_limbs() -> (r: Big)
    ensures
        r.val() == 0xcint,
        r.is_norm(),
        r.val() < prime(),
{
    proof {
        crate::rom::lemma_prime_shape();
    }
    Big::new_int(0xc)
}

/// Limb form of the imaginary part of coefficient 1 of the
/// denominator of the x-coordinate map.
fn xden_b1_limbs() -> (r: Big)
    ensures
        r.val() == 0x1a0111ea397fe69a4b1ba7b6434bacd764774b84f38512bf6730d2a0f6b0f6241eabfffeb153ffffb9feffffffffaa9fint,
        r.is_norm(),
        r.val() < prime(),
{
    let mut r = Big::modulus();
    r.dec(0xc);
    r
}

/// Limb form of the real part of coefficient 2 of the
/// denominator of the x-coordinate map.
fn xden_a2_limbs() -> (r: Big)
    ensures
        r.val() == 0x1int,
        r.is_norm(),
        r.val() < prime(),
{
    proof {
        crate::rom::lemma_prime_shape();
    }
    Big::new_int(0x1)
}

/// Limb form of the imaginary part of coefficient 2 of the
/// denominator of the x-coordinate map.
fn xden_b2_limbs() -> (r: Big)
    ensures
        r.val() == 0x0int,
        r.is_norm(),
        r.val() < prime(),
{
    proof {
        crate::rom::lemma_prime_shape();
    }
    Big::new_int(0x0)
}

/// Limb form of the real part of coefficient 3 of the
/// denominator of the x-coordinate map.
fn xden_a3_limbs() -> (r: Big)
    ensures
        r.val() == 0x0int,
        r.is_norm(),
        r.val() < prime(),
{
    proof {
        crate::rom::lemma_prime_shape();
    }
    Big::new_int(0x0)
}

/// Limb form of the imaginary part of coefficient 3 of the
/// denominator of the x-coordinate map.
fn xden_b3_limbs() -> (r: Big)
    ensures
        r.val() == 0x0int,
        r.is_norm(),
        r.val() < prime(),
{
    proof {
        crate::rom::lemma_prime_shape();
    }
    Big::new_int(0x0)
}

/// The four coefficients of the denominator of the x-coordinate map of the 3-isogeny, lowest degree
/// first, as elements of the quadratic extension.
pub fn xden_coeffs() -> (r: [FP2; 4])
    ensures
        forall|i: int| 0 <= i < 4 ==> #[trigger] r@[i].wf(),
        r@[0].fe2() == xden_k0(),
        r@[1].fe2() == xden_k1(),
        r@[2].fe2() == xden_k2(),
        r@[3].fe2() == xden_k3(),
{
    let a0 = xden_a0_limbs();
    let b0 = xden_b0_limbs();
    let a1 = xden_a1_limbs();
    let b1 = xden_b1_limbs();
    let a2 = xden_a2_limbs();
    let b2 = xden_b2_limbs();
    let a3 = xden_a3_limbs();
    let b3 = xden_b3_limbs();
    proof {
        lemma_small_mod(a0.val() as nat, prime() as nat);
        lemma_small_mod(b0.val() as nat, prime() as nat);
        lemma_small_mod(a1.val() as nat, prime() as nat);
        lemma_small_mod(b1.val() as nat, prime() as nat);
        lemma_small_mod(a2.val() as nat, prime() as nat);
        lemma_small_mod(b2.val() as nat, prime() as nat);
        lemma_small_mod(a3.val() as nat, prime() as nat);
        lemma_small_mod(b3.val() as nat, prime() as nat);
    }
    [
        FP2::new_bigs(&a0, &b0),
        FP2::new_bigs(&a1, &b1),
        FP2::new_bigs(&a2, &b2),
        FP2::new_bigs(&a3, &b3),
    ]
}

/// Limb form of the real part of coefficient 0 of the
/// numerator of the y-coordinate map.
fn ynum_a0_limbs() -> (r: Big)
    ensures
        r.val() == 0x1530477c7ab4113b59a4c18b076d11930f7da5d4a07f649bf54439d87d27e500fc8c25ebf8c92f6812cfc71c71c6d706int,
        r.is_norm(),
        r.val() < prime(),
{
    let r = Big {
        w: [
            0x11c6d706, 0x167e38e3, 0x124bda04, 0x184bd7f1, 0x1e500fc8, 0x1cec3e93, 0x126fd510, 0x1a940fec, 0x130f7da5, 0x183b688c, 0x16693062, 0x15682276, 0x130477c7, 0xa,
        ],
    };
    proof {
        reveal_with_fuel(vpre, 16);
        reveal_with_fuel(bpow, 16);
        assert(r.val() == 0x1530477c7ab4113b59a4c18b076d11930f7da5d4a07f649bf54439d87d27e500fc8c25ebf8c92f6812cfc71c71c6d706int);
    }
    r
}

/// Limb form of the imaginary part of coefficient 0 of the
/// numerator of the y-coordinate map.
fn ynum_b0_limbs() -> (r: Big)
    ensures
        r.val() == 0x1530477c7ab4113b59a4c18b076d11930f7da5d4a07f649bf54439d87d27e500fc8c25ebf8c92f6812cfc71c71c6d706int,
        r.is_norm(),
        r.val() < prime(),
{
    let r = Big {
        w: [
            0x11c6d706, 0x167e38e3, 0x124bda04, 0x184bd7f1, 0x1e500fc8, 0x1cec3e93, 0x126fd510, 0x1a940fec, 0x130f7da5, 0x183b688c, 0x16693062, 0x15682276, 0x130477c7, 0xa,
        ],
    };
    proof {
        reveal_with_fuel(vpre, 16);
        reveal_with_fuel(bpow, 16);
        assert(r.val() == 0x1530477c7ab4113b59a4c18b076d11930f7da5d4a07f649bf54439d87d27e500fc8c25ebf8c92f6812cfc71c71c6d706int);
    }
    r
}

/// Limb form of the real part of coefficient 1 of the
/// numerator of the y-coordinate map.
fn ynum_a1_limbs() -> (r: Big)
    ensures
        r.val() == 0x0int,
        r.is_norm(),
        r.val() < prime(),
{
    proof {
        crate::rom::lemma_prime_shape();
    }
    Big::new_int(0x0)
}

/// Limb form of the imaginary part of coefficient 1 of the
/// numerator of the y-coordinate map.
fn ynum_b1_limbs() -> (r: Big)
    ensures
        r.val() == 0x5c759507e8e333ebb5b7a9a47d7ed8532c52d39fd3a042a88b58423c50ae15d5c2638e343d9c71c6238aaaaaaaa97beint,
        r.is_norm(),
        r.val() < prime(),
{
    let r = Big {
        w: [
            0xaaa97be, 0x11c55555, 0x1671c718, 0xc71c687, 0xe15d5c2, 0x211e285, 0x10aa22d6, 0x73fa740, 0x532c52d, 0x123ebf6c, 0xed6dea6, 0x1d1c667d, 0x1c759507, 0x2,
        ],
    };
    proof {
        reveal_with_fuel(vpre, 16);
        reveal_with_fuel(bpow, 16);
        assert(r.val() == 0x5c759507e8e333ebb5b7a9a47d7ed8532c52d39fd3a042a88b58423c50ae15d5c2638e343d9c71c6238aaaaaaaa97beint);
    }
    r
}

/// Limb form of the real part of coefficient 2 of the
/// numerator of the y-coordinate map.
fn ynum_a2_limbs() -> (r: Big)
    ensures
        r.val() == 0x11560bf17baa99bc32126fced787c88f984f87adf7ae0c7f9a208c6b4f20a4181472aaa9cb8d555526a9ffffffffc71cint,
        r.is_norm(),
        r.val() < prime(),
{
    let r = Big {
        w: [
            0x1fffc71c, 0x154fffff, 0x3555549, 0x5555397, 0xa418147, 0x635a790, 0x11fe6882, 0x15bef5c1, 0xf984f87, 0x16bc3e44, 0xc849bf3, 0x17553378, 0x1560bf17, 0x8,
        ],
    };
    proof {
        reveal_with_fuel(vpre, 16);
        reveal_with_fuel(bpow, 16);
        assert(r.val() == 0x11560bf17baa99bc32126fced787c88f984f87adf7ae0c7f9a208c6b4f20a4181472aaa9cb8d555526a9ffffffffc71cint);
    }
    r
}

/// Limb form of the imaginary part of coefficient 2 of the
/// numerator of the y-coordinate map.
fn ynum_b2_limbs() -> (r: Big)
    ensures
        r.val() == 0x8ab05f8bdd54cde190937e76bc3e447cc27c3d6fbd7063fcd104635a790520c0a395554e5c6aaaa9354ffffffffe38fint,
        r.is_norm(),
        r.val() < prime(),
{
    let r = Big {
        w: [
            0x1fffe38f, 0x1aa7ffff, 0x11aaaaa4, 0x12aaa9cb, 0x520c0a3, 0x31ad3c8, 0x18ff3441, 0x1adf7ae0, 0x7cc27c3, 0x1b5e1f22, 0x6424df9, 0x1baa99bc, 0xab05f8b, 0x4,
        ],
    };
    proof {
        reveal_with_fuel(vpre, 16);
        reveal_with_fuel(bpow, 16);
        assert(r.val() == 0x8ab05f8bdd54cde190937e76bc3e447cc27c3d6fbd7063fcd104635a790520c0a395554e5c6aaaa9354ffffffffe38fint);
    }
    r
}

/// Limb form of the real part of coefficient 3 of the
/// numerator of the y-coordinate map.
fn ynum_a3_limbs() -> (r: Big)
    ensures
        r.val() == 0x124c9ad43b6cf79bfbf7043de3811ad0761b0f37a1e26286b0e977c69aa274524e79097a56dc4bd9e1b371c71c718b10int,
        r.is_norm(),
        r.val() < prime(),
{
    let r = Big {
        w: [
            0x1c718b10, 0xd9b8e38, 0x1712f678, 0x1212f4ad, 0x74524e7, 0x1be34d51, 0xa1ac3a5, 0x6f43c4c, 0x10761b0f, 0xf1c08d6, 0x1efdc10f, 0x16d9ef37, 0x4c9ad43, 0x9,
        ],
    };
    proof {
        reveal_with_fuel(vpre, 16);
        reveal_with_fuel(bpow, 16);
        assert(r.val() == 0x124c9ad43b6cf79bfbf7043de3811ad0761b0f37a1e26286b0e977c69aa274524e79097a56dc4bd9e1b371c71c718b10int);
    }
    r
}

/// Limb form of the imaginary part of coefficient 3 of the
/// numerator of the y-coordinate map.
fn ynum_b3_limbs() -> (r: Big)
    ensures
        r.val() == 0x0int,
        r.is_norm(),
        r.val() < prime(),
{
    proof {
        crate::rom::lemma_prime_shape();
    }
    Big::new_int(0x0)
}

/// The four coefficients of the numerator of the y-coordinate map of the 3-isogeny, lowest degree
/// first, as elements of the quadratic extension.
pub fn ynum_coeffs() -> (r: [FP2; 4])
    ensures
        forall|i: int| 0 <= i < 4 ==> #[trigger] r@[i].wf(),
        r@[0].fe2() == ynum_k0(),
        r@[1].fe2() == ynum_k1(),
        r@[2].fe2() == ynum_k2(),
        r@[3].fe2() == ynum_k3(),
{
    let a0 = ynum_a0_limbs();
    let b0 = ynum_b0_limbs();
    let a1 = ynum_a1_limbs();
    let b1 = ynum_b1_limbs();
    let a2 = ynum_a2_limbs();
    let b2 = ynum_b2_limbs();
    let a3 = ynum_a3_limbs();
    let b3 = ynum_b3_limbs();
    proof {
        lemma_small_mod(a0.val() as nat, prime() as nat);
        lemma_small_mod(b0.val() as nat, prime() as nat);
        lemma_small_mod(a1.val() as nat, prime() as nat);
        lemma_small_mod(b1.val() as nat, prime() as nat);
        lemma_small_mod(a2.val() as nat, prime() as nat);
        lemma_small_mod(b2.val() as nat, prime() as nat);
        lemma_small_mod(a3.val() as nat, prime() as nat);
        lemma_small_mod(b3.val() as nat, prime() as nat);
    }
    [
        FP2::new_bigs(&a0, &b0),
        FP2::new_bigs(&a1, &b1),
        FP2::new_bigs(&a2, &b2),
        FP2::new_bigs(&a3, &b3),
    ]
}

/// Limb form of the real part of coefficient 0 of the
/// denominator of the y-coordinate map.
fn yden_a0_limbs() -> (r: Big)
    ensures
        r.val() == 0x1a0111ea397fe69a4b1ba7b6434bacd764774b84f38512bf6730d2a0f6b0f6241eabfffeb153ffffb9feffffffffa8fbint,
        r.is_norm(),
        r.val() < prime(),
{
    let mut r = Big::modulus();
    r.dec(0x1b0);
    r
}

/// Limb form of the imaginary part of coefficient 0 of the
/// denominator of the y-coordinate map.
fn yden_b0_limbs() -> (r: Big)
    ensures
        r.val() == 0x1a0111ea397fe69a4b1ba7b6434bacd764774b84f38512bf6730d2a0f6b0f6241eabfffeb153ffffb9feffffffffa8fbint,
        r.is_norm(),
        r.val() < prime(),
{
    let mut r = Big::modulus();
    r.dec(0x1b0);
    r
}

/// Limb form of the real part of coefficient 1 of the
/// denominator of the y-coordinate map.
fn yden_a1_limbs() -> (r: Big)
    ensures
        r.val() == 0x0int,
        r.is_norm(),
        r.val() < prime(),
{
    proof {
        crate::rom::lemma_prime_shape();
    }
    Big::new_int(0x0)
}

/// Limb form of the imaginary part of coefficient 1 of the
/// denominator of the y-coordinate map.
fn yden_b1_limbs() -> (r: Big)
    ensures
        r.val() == 0x1a0111ea397fe69a4b1ba7b6434bacd764774b84f38512bf6730d2a0f6b0f6241eabfffeb153ffffb9feffffffffa9d3int,
        r.is_norm(),
        r.val() < prime(),
{
    let mut r = Big::modulus();
    r.dec(0xd8);
    r
}

/// Limb form of the real part of coefficient 2 of the
/// denominator of the y-coordinate map.
fn yden_a2_limbs() -> (r: Big)
    ensures
        r.val() == 0x12int,
        r.is_norm(),
        r.val() < prime(),
{
    proof {
        crate::rom::lemma_prime_shape();
    }
    Big::new_int(0x12)
}

/// Limb form of the imaginary part of coefficient 2 of the
/// denominator of the y-coordinate map.
fn yden_b2_limbs() -> (r: Big)
    ensures
        r.val() == 0x1a0111ea397fe69a4b1ba7b6434bacd764774b84f38512bf6730d2a0f6b0f6241eabfffeb153ffffb9feffffffffaa99int,
        r.is_norm(),
        r.val() < prime(),
{
    let mut r = Big::modulus();
    r.dec(0x12);
    r
}

/// Limb form of the real part of coefficient 3 of the
/// denominator of the y-coordinate map.
fn yden_a3_limbs() -> (r: Big)
    ensures
        r.val() == 0x1int,
        r.is_norm(),
        r.val() < prime(),
{
    proof {
        crate::rom::lemma_prime_shape();
    }
    Big::new_int(0x1)
}

/// Limb form of the imaginary part of coefficient 3 of the
/// denominator of the y-coordinate map.
fn yden_b3_limbs() -> (r: Big)
    ensures
        r.val() == 0x0int,
        r.is_norm(),
        r.val() < prime(),
{
    proof {
        crate::rom::lemma_prime_shape();
    }
    Big::new_int(0x0)
}

/// The four coefficients of the denominator of the y-coordinate map of the 3-isogeny, lowest degree
/// first, as elements of the quadratic extension.
pub fn yden_coeffs() -> (r: [FP2; 4])
    ensures
        forall|i: int| 0 <= i < 4 ==> #[trigger] r@[i].wf(),
        r@[0].fe2() == yden_k0(),
        r@[1].fe2() == yden_k1(),
        r@[2].fe2() == yden_k2(),
        r@[3].fe2() == yden_k3(),
{
    let a0 = yden_a0_limbs();
    let b0 = yden_b0_limbs();
    let a1 = yden_a1_limbs();
    let b1 = yden_b1_limbs();
    let a2 = yden_a2_limbs();
    let b2 = yden_b2_limbs();
    let a3 = yden_a3_limbs();
    let b3 = yden_b3_limbs();
    proof {
        lemma_small_mod(a0.val() as nat, prime() as nat);
        lemma_small_mod(b0.val() as nat, prime() as nat);
        lemma_small_mod(a1.val() as nat, prime() as nat);
        lemma_small_mod(b1.val() as nat, prime() as nat);
        lemma_small_mod(a2.val() as nat, prime() as nat);
        lemma_small_mod(b2.val() as nat, prime() as nat);
        lemma_small_mod(a3.val() as nat, prime() as nat);
        lemma_small_mod(b3.val() as nat, prime() as nat);
    }
    [
        FP2::new_bigs(&a0, &b0),
        FP2::new_bigs(&a1, &b1),
        FP2::new_bigs(&a2, &b2),
        FP2::new_bigs(&a3, &b3),
    ]
}

/// The first stage exponent of the candidate chain: (p − 3) / 8.
pub open spec fn sdiv_e1() -> nat {
    ((prime() - 3) / 8) as nat
}

/// The second stage exponent of the candidate chain: (p + 3) / 2.
pub open spec fn sdiv_e2() -> nat {
    ((prime() + 3) / 2) as nat
}

/// The two chain stages compose to the square-root division exponent
/// (p² − 9) / 16 of the map.
pub proof fn lemma_sdiv_exponent()
    ensures
        sdiv_e1() * sdiv_e2() == (prime() * prime() - 9) / 16,
{
    assert(prime() * prime()
        == 0x2a437a4b8c35fc74bd278eaa22f25e9e2dc90e50e7046b466e59e49349e8bd050a62cfd16ddca6ef53149330978ef011d68619c86185c7b292e85a87091a04966bf91ed3e71b743162c338362113cfd7ced6b1d76382eab26aa00001c718e39int);
    assert((prime() - 3) / 8
        == 0x340223d472ffcd3496374f6c869759aec8ee9709e70a257ece61a541ed61ec483d57fffd62a7ffff73fdffffffff555int);
    assert((prime() + 3) / 2
        == 0xd0088f51cbff34d258dd3db21a5d66bb23ba5c279c2895fb39869507b587b120f55ffff58a9ffffdcff7fffffffd557int);
    assert(0x340223d472ffcd3496374f6c869759aec8ee9709e70a257ece61a541ed61ec483d57fffd62a7ffff73fdffffffff555int
        * 0xd0088f51cbff34d258dd3db21a5d66bb23ba5c279c2895fb39869507b587b120f55ffff58a9ffffdcff7fffffffd557int
        == 0x2a437a4b8c35fc74bd278eaa22f25e9e2dc90e50e7046b466e59e49349e8bd050a62cfd16ddca6ef53149330978ef011d68619c86185c7b292e85a87091a04966bf91ed3e71b743162c338362113cfd7ced6b1d76382eab26aa00001c718e3int);
}

/// The square-root division candidate: u·v⁷ scaled by
/// (u·v¹⁵)^((p²−9)/16), the latter computed as a tower of the two chain
/// stages.
pub open spec fn swu_sqrt_candidate(uu: (int, int), vv: (int, int)) -> (int, int) {
    fp2_mul(
        fp2_pow(fp2_pow(fp2_mul(uu, fp2_pow(vv, 15)), sdiv_e1()), sdiv_e2()),
        fp2_mul(uu, fp2_pow(vv, 7)),
    )
}

/// Whether `t` is a square root of u/v: t²·v equals u.
pub open spec fn sdiv_ok(t: (int, int), uu: (int, int), vv: (int, int)) -> bool {
    fp2_mul(fp2_mul(t, t), vv) == uu
}

/// The outcome of the square-root division: the first root of unity that
/// repairs the candidate wins; with no match the bare candidate is handed
/// back with failure.
pub open spec fn sdiv_result(uu: (int, int), vv: (int, int)) -> (bool, (int, int)) {
    let c = swu_sqrt_candidate(uu, vv);
    let t0 = fp2_mul((1int, 0int), c);
    let t1 = fp2_mul((0int, 1int), c);
    let t2 = fp2_mul((rt_neg_half(), rt_neg_half()), c);
    let t3 = fp2_mul((rt_neg_half(), fneg(rt_neg_half())), c);
    if sdiv_ok(t0, uu, vv) {
        (true, t0)
    } else if sdiv_ok(t1, uu, vv) {
        (true, t1)
    } else if sdiv_ok(t2, uu, vv) {
        (true, t2)
    } else if sdiv_ok(t3, uu, vv) {
        (true, t3)
    } else {
        (false, c)
    }
}

/// Whether `t` squares to u/v, decided executably: (t²·v − u) vanishes.
pub fn sdiv_check(t: &FP2, u: &FP2, v: &FP2) -> (ok: bool)
    requires
        t.wf(),
        u.wf(),
        v.wf(),
    ensures
        ok <==> sdiv_ok(t.fe2(), u.fe2(), v.fe2()),
{
    let mut chk = FP2::new_copy(t);
    chk.sqr();
    chk.mul(v);
    chk.sub(u);
    let z = chk.iszilch();
    proof {
        let av = fp2_mul(fp2_mul(t.fe2(), t.fe2()), v.fe2());
        crate::fp2::lemma_fp2_mul_reduced(fp2_mul(t.fe2(), t.fe2()), v.fe2());
        crate::fp2::lemma_fe2_reduced(*u);
        crate::arith::lemma_fsub_zero(av.0, u.fe2().0);
        crate::arith::lemma_fsub_zero(av.1, u.fe2().1);
    }
    z
}

/// sqrt(u/v): the candidate u·v⁷·(u·v¹⁵)^((p²−9)/16), patched by the
/// first root of unity whose product squares to u/v; reports failure with
/// the bare candidate when none does.
pub fn sqrt_division_fp2(u: &FP2, v: &FP2) -> (r: (bool, FP2))
    requires
        u.wf(),
        v.wf(),
    ensures
        r.1.wf(),
        (r.0, r.1.fe2()) == sdiv_result(u.fe2(), v.fe2()),
        r.0 ==> fp2_mul(fp2_mul(r.1.fe2(), r.1.fe2()), v.fe2()) == u.fe2(),
{
    let ghost uu = u.fe2();
    let ghost vv = v.fe2();
    proof {
        crate::fp2::lemma_fe2_reduced(*v);
        crate::fp2::lemma_fp2_pow_one(vv);
    }
    let mut tmp1 = FP2::new_copy(v);
    let mut tmp2 = FP2::new_copy(v);
    tmp1.sqr();
    proof {
        assert(tmp1.fe2() == fp2_pow(vv, 2)) by {
            reveal_with_fuel(crate::fp2::fp2_pow, 3);
        }
    }
    tmp2.mul(&tmp1);
    proof {
        assert(tmp2.fe2() == fp2_pow(vv, 3));
    }
    tmp1.sqr();
    proof {
        crate::fp2::lemma_fp2_pow_adds(vv, 2, 2);
    }
    tmp2.mul(&tmp1);
    proof {
        crate::fp2::lemma_fp2_pow_adds(vv, 3, 4);
    }
    tmp1.sqr();
    proof {
        crate::fp2::lemma_fp2_pow_adds(vv, 4, 4);
    }
    tmp1.mul(&tmp2);
    proof {
        crate::fp2::lemma_fp2_pow_adds(vv, 8, 7);
    }
    tmp1.mul(u);
    tmp2.mul(u);
    proof {
        crate::fp2::lemma_fp2_mul_comm(fp2_pow(vv, 15), uu);
        crate::fp2::lemma_fp2_mul_comm(fp2_pow(vv, 7), uu);
    }
    // the chain exponents (p−3)/8 and (p+3)/2
    let mut e1 = Big::modulus();
    proof {
        crate::rom::lemma_prime_shape();
    }
    e1.dec(3);
    e1.fshr(3);
    let mut e2 = Big::modulus();
    proof {
        crate::big::lemma_vpre_bound(e2.w@, crate::big::NLEN as int);
        lemma_prime_room();
    }
    e2.inc(3);
    e2.fshr(1);
    proof {
        assert(crate::big::pow2s(3) == 8) by {
            reveal_with_fuel(crate::big::pow2s, 4);
        }
        assert(crate::big::pow2s(1) == 2) by {
            reveal_with_fuel(crate::big::pow2s, 2);
        }
    }
    let stage = tmp1.pow(&e1);
    let mut cand = stage.pow(&e2);
    cand.mul(&tmp2);
    let ghost cv = swu_sqrt_candidate(uu, vv);
    proof {
        assert(cand.fe2() == cv);
    }
    // try the four roots of unity in order
    let roots = roots_of_unity();
    let mut t0 = FP2::new_copy(&roots[0]);
    t0.mul(&cand);
    if sdiv_check(&t0, u, v) {
        return (true, t0);
    }
    let mut t1 = FP2::new_copy(&roots[1]);
    t1.mul(&cand);
    if sdiv_check(&t1, u, v) {
        return (true, t1);
    }
    let mut t2 = FP2::new_copy(&roots[2]);
    t2.mul(&cand);
    if sdiv_check(&t2, u, v) {
        return (true, t2);
    }
    let mut t3 = FP2::new_copy(&roots[3]);
    t3.mul(&cand);
    if sdiv_check(&t3, u, v) {
        return (true, t3);
    }
    (false, cand)
}

/// Three more than the prime still fits the fixed width.
proof fn lemma_prime_room()
    ensures
        prime() + 3 < crate::big::bpow(crate::big::NLEN as nat),
{
    crate::rom::lemma_prime_shape();
}

/// The auxiliary curve constant A′ = 240·u, as a pair of residues.
pub open spec fn iso3_a2() -> (int, int) {
    (0int % prime(), 240int % prime())
}

/// The auxiliary curve constant B′ = 1012·(1 + u), as a pair of residues.
pub open spec fn iso3_b2() -> (int, int) {
    (1012int % prime(), 1012int % prime())
}

/// The map constant E = −2 − u, as a pair of residues.
pub open spec fn iso3_e2() -> (int, int) {
    ((-2int) % prime(), (-1int) % prime())
}

/// The first η patch constant as a pair.
pub open spec fn eta_a() -> (int, int) {
    (ev1(), ev2())
}

/// The second η patch constant as a pair.
pub open spec fn eta_b() -> (int, int) {
    (fneg(ev2()), ev1())
}

/// The third η patch constant as a pair.
pub open spec fn eta_c() -> (int, int) {
    (ev3(), ev4())
}

/// The fourth η patch constant as a pair.
pub open spec fn eta_d() -> (int, int) {
    (fneg(ev4()), ev3())
}

/// The sign convention on pairs, as decided by `FP2::is_neg`.
pub open spec fn fp2_is_neg_val(v: (int, int)) -> bool {
    if v.1 == 0 {
        v.0 > fneg(v.0)
    } else {
        v.1 > fneg(v.1)
    }
}

/// E·t² and the common subterm E²·t⁴ + E·t² of the map.
pub open spec fn swu_et2(tv: (int, int)) -> (int, int) {
    fp2_mul(fp2_mul(tv, tv), iso3_e2())
}

/// The common subterm E²·t⁴ + E·t².
pub open spec fn swu_common(tv: (int, int)) -> (int, int) {
    fp2_add(fp2_mul(swu_et2(tv), swu_et2(tv)), swu_et2(tv))
}

/// The candidate numerator B′·(E²t⁴ + Et² + 1).
pub open spec fn swu_xnum0(tv: (int, int)) -> (int, int) {
    fp2_mul(fp2_add(swu_common(tv), (1int % prime(), 0int % prime())), iso3_b2())
}

/// The candidate denominator: −A′·(E²t⁴ + Et²), or E·A′ in the singular
/// case where the common subterm vanishes.
pub open spec fn swu_xden(tv: (int, int)) -> (int, int) {
    if swu_common(tv) == (0int, 0int) {
        fp2_mul(iso3_e2(), iso3_a2())
    } else {
        fp2_neg(fp2_mul(swu_common(tv), iso3_a2()))
    }
}

/// The square test numerator u = num³ + A′·num·den² + B′·den³.
pub open spec fn swu_u0(tv: (int, int)) -> (int, int) {
    let xn = swu_xnum0(tv);
    let xd = swu_xden(tv);
    fp2_add(
        fp2_add(
            fp2_mul(fp2_mul(xn, xn), xn),
            fp2_mul(fp2_mul(xn, fp2_mul(xd, xd)), iso3_a2()),
        ),
        fp2_mul(fp2_mul(fp2_mul(xd, xd), xd), iso3_b2()),
    )
}

/// The square test denominator v = den³.
pub open spec fn swu_v0(tv: (int, int)) -> (int, int) {
    let xd = swu_xden(tv);
    fp2_mul(fp2_mul(xd, xd), xd)
}

/// The fallback candidate for the second curve point: the division result
/// scaled by t³.
pub open spec fn swu_cand1(tv: (int, int)) -> (int, int) {
    fp2_mul(fp2_mul(sdiv_result(swu_u0(tv), swu_v0(tv)).1, fp2_mul(tv, tv)), tv)
}

/// The fallback numerator u(x₁) = E³·t⁶·u(x₀).
pub open spec fn swu_u1(tv: (int, int)) -> (int, int) {
    fp2_mul(fp2_mul(fp2_mul(swu_u0(tv), swu_et2(tv)), swu_et2(tv)), swu_et2(tv))
}

/// The inputs on which the map succeeds: the first candidate has a square
/// root, or one of the four η constants repairs the fallback candidate.
/// Every field element satisfies this by the construction of the map; the
/// argument is number-theoretic and stays outside the machine-checked
/// scope.
pub open spec fn swu_admissible(tv: (int, int)) -> bool {
    let c1 = swu_cand1(tv);
    let u1 = swu_u1(tv);
    let v0 = swu_v0(tv);
    ||| sdiv_result(swu_u0(tv), swu_v0(tv)).0
    ||| sdiv_ok(fp2_mul(c1, eta_a()), u1, v0)
    ||| sdiv_ok(fp2_mul(c1, eta_b()), u1, v0)
    ||| sdiv_ok(fp2_mul(c1, eta_c()), u1, v0)
    ||| sdiv_ok(fp2_mul(c1, eta_d()), u1, v0)
}

/// The y-coordinate before the sign adjustment: the division root, or the
/// first η patch of the fallback candidate that squares to u(x₁)/v.
pub open spec fn swu_y_raw(tv: (int, int)) -> (int, int) {
    let s = sdiv_result(swu_u0(tv), swu_v0(tv));
    if s.0 {
        s.1
    } else {
        let c1 = swu_cand1(tv);
        let u1 = swu_u1(tv);
        let v0 = swu_v0(tv);
        if sdiv_ok(fp2_mul(c1, eta_a()), u1, v0) {
            fp2_mul(c1, eta_a())
        } else if sdiv_ok(fp2_mul(c1, eta_b()), u1, v0) {
            fp2_mul(c1, eta_b())
        } else if sdiv_ok(fp2_mul(c1, eta_c()), u1, v0) {
            fp2_mul(c1, eta_c())
        } else {
            fp2_mul(c1, eta_d())
        }
    }
}

/// The y-coordinate with its sign matched to the sign of t.
pub open spec fn swu_y_adj(tv: (int, int)) -> (int, int) {
    if fp2_is_neg_val(tv) != fp2_is_neg_val(swu_y_raw(tv)) {
        fp2_neg(swu_y_raw(tv))
    } else {
        swu_y_raw(tv)
    }
}

/// The numerator after the fallback adjustment: scaled by E·t² when the
/// first candidate had no root.
pub open spec fn swu_xnum_final(tv: (int, int)) -> (int, int) {
    if sdiv_result(swu_u0(tv), swu_v0(tv)).0 {
        swu_xnum0(tv)
    } else {
        fp2_mul(swu_xnum0(tv), swu_et2(tv))
    }
}

/// The image of the map in the projective form (X·Z, Y·Z, Z).
pub open spec fn swu_image(tv: (int, int)) -> ((int, int), (int, int), (int, int)) {
    (swu_xnum_final(tv), fp2_mul(swu_y_adj(tv), swu_xden(tv)), swu_xden(tv))
}

impl ISO3_FP2 {
    /// The optimised Shallue–van de Woestijne–Ulas map onto the auxiliary
    /// curve, in the projective form (X·Z, Y·Z, Z). The candidate
    /// x-coordinate is −B′/(A′·(1 + E·t² + E²·t⁴)) with a singular-case
    /// fallback; whether it gives a curve point is decided by one
    /// square-root division, and on failure the second candidate E·t²·x₀
    /// is repaired by an η constant. The y-coordinate's sign follows the
    /// sign of t.
    pub fn swu_optimised(t: &FP2) -> (r: ISO3_FP2)
        requires
            t.wf(),
            swu_admissible(t.fe2()),
        ensures
            r.wf(),
            r.x.fe2() == swu_image(t.fe2()).0,
            r.y.fe2() == swu_image(t.fe2()).1,
            r.z.fe2() == swu_image(t.fe2()).2,
    {
        let ghost tv = t.fe2();
        let mut t2 = FP2::new_copy(t);
        let is_neg_t = t2.is_neg();
        t2.sqr();
        let e2c = FP2::new_ints(-2, -1);
        let a2c = FP2::new_ints(0, 240);
        let b2c = FP2::new_ints(1012, 1012);
        let mut et2 = FP2::new_copy(&t2);
        et2.mul(&e2c);
        let mut common = FP2::new_copy(&et2);
        common.sqr();
        common.add(&et2);
        proof {
            assert(common.fe2() == swu_common(tv));
        }
        // numerator of the first candidate
        let mut x_numerator = FP2::new_copy(&common);
        x_numerator.add(&FP2::new_ints(1, 0));
        x_numerator.mul(&b2c);
        // denominator, with the singular-case fallback
        let x_denominator = if common.iszilch() {
            let mut d = FP2::new_copy(&e2c);
            d.mul(&a2c);
            d
        } else {
            let mut d = FP2::new_copy(&common);
            d.mul(&a2c);
            d.neg();
            d
        };
        proof {
            assert(x_numerator.fe2() == swu_xnum0(tv));
            assert(x_denominator.fe2() == swu_xden(tv));
        }
        // u = num³ + A′·num·den² + B′·den³ and v = den³
        let mut u = FP2::new_copy(&x_numerator);
        u.sqr();
        u.mul(&x_numerator);
        let mut tmp1 = FP2::new_copy(&x_denominator);
        tmp1.sqr();
        let mut tmp2 = FP2::new_copy(&x_numerator);
        tmp2.mul(&tmp1);
        tmp2.mul(&a2c);
        u.add(&tmp2);
        tmp1.mul(&x_denominator);
        let v = FP2::new_copy(&tmp1);
        let mut bden = FP2::new_copy(&tmp1);
        bden.mul(&b2c);
        u.add(&bden);
        proof {
            assert(u.fe2() == swu_u0(tv));
            assert(v.fe2() == swu_v0(tv));
        }
        // sqrt(u/v), and the fallback candidate for the second point
        let (success, sc) = sqrt_division_fp2(&u, &v);
        let mut y = FP2::new_copy(&sc);
        let mut cand1 = FP2::new_copy(&sc);
        cand1.mul(&t2);
        cand1.mul(t);
        let mut u1 = FP2::new_copy(&u);
        u1.mul(&et2);
        u1.mul(&et2);
        u1.mul(&et2);
        proof {
            assert(cand1.fe2() == swu_cand1(tv));
            assert(u1.fe2() == swu_u1(tv));
        }
        let mut x_num_final = FP2::new_copy(&x_numerator);
        if !success {
            // second candidate: patch the root by the first fitting η
            let es = etas();
            let mut p0 = FP2::new_copy(&cand1);
            p0.mul(&es[0]);
            let mut p1 = FP2::new_copy(&cand1);
            p1.mul(&es[1]);
            let mut p2 = FP2::new_copy(&cand1);
            p2.mul(&es[2]);
            let mut p3 = FP2::new_copy(&cand1);
            p3.mul(&es[3]);
            if sdiv_check(&p0, &u1, &v) {
                y.copy(&p0);
            } else if sdiv_check(&p1, &u1, &v) {
                y.copy(&p1);
            } else if sdiv_check(&p2, &u1, &v) {
                y.copy(&p2);
            } else {
                // admissibility leaves only the fourth patch
                y.copy(&p3);
            }
            x_num_final.mul(&et2);
        }
        proof {
            assert(y.fe2() == swu_y_raw(tv));
            assert(x_num_final.fe2() == swu_xnum_final(tv));
        }
        // match the sign of y to the sign of t
        if is_neg_t != y.is_neg() {
            y.neg();
        }
        proof {
            assert(y.fe2() == swu_y_adj(tv));
        }
        y.mul(&x_denominator);
        ISO3_FP2 { x: x_num_final, y, z: x_denominator }
    }
}

} // verus!
