//! Quadratic-extension behaviour on concrete values: the defining
//! relation of the tower, Karatsuba multiplication against known
//! products, inversion, square roots of squares and of a known
//! non-square.

use bls381::fp::FP;
use bls381::fp2::FP2;

#[test]
fn u_squares_to_minus_one() {
    let mut u = FP2::new_ints(0, 1);
    u.sqr();
    assert!(u.equals(&FP2::new_int(-1)));
}

#[test]
fn mul_known_product() {
    // (1 + 2u)(3 + 4u) = 3 − 8 + (4 + 6)u = −5 + 10u
    let mut x = FP2::new_ints(1, 2);
    let y = FP2::new_ints(3, 4);
    x.mul(&y);
    assert!(x.equals(&FP2::new_ints(-5, 10)));
}

#[test]
fn sqr_matches_mul() {
    let mut a = FP2::new_ints(37, 91);
    let b = FP2::new_copy(&a);
    let mut c = FP2::new_copy(&a);
    a.sqr();
    c.mul(&b);
    assert!(a.equals(&c));
}

#[test]
fn fp2_mul_distributes_concrete() {
    let a = FP2::new_ints(2, 3);
    let b = FP2::new_ints(5, 7);
    let c = FP2::new_ints(11, 13);
    let mut l = FP2::new_copy(&b);
    l.add(&c);
    l.mul(&a);
    let mut ab = FP2::new_copy(&a);
    ab.mul(&b);
    let mut ac = FP2::new_copy(&a);
    ac.mul(&c);
    ab.add(&ac);
    assert!(l.equals(&ab));
}

#[test]
fn times_i_rotates() {
    let mut x = FP2::new_ints(1, 2);
    x.times_i();
    assert!(x.equals(&FP2::new_ints(-2, 1)));
}

#[test]
fn mul_ip_matches_explicit_product() {
    let mut x = FP2::new_ints(5, 9);
    x.mul_ip();
    let mut y = FP2::new_ints(5, 9);
    let ip = FP2::new_ints(1, 1);
    y.mul(&ip);
    assert!(x.equals(&y));
}

#[test]
fn div_ip_inverts_mul_ip() {
    let mut x = FP2::new_ints(8, 3);
    x.mul_ip();
    x.div_ip();
    assert!(x.equals(&FP2::new_ints(8, 3)));
}

#[test]
fn div_ip2_is_twice_div_ip() {
    let mut x = FP2::new_ints(4, 6);
    x.div_ip2();
    let mut y = FP2::new_ints(4, 6);
    y.div_ip();
    y.dbl();
    assert!(x.equals(&y));
}

#[test]
fn fp2_inverse_gives_unity() {
    let a = FP2::new_ints(3, 4);
    let mut b = FP2::new_copy(&a);
    b.inverse();
    b.mul(&a);
    assert!(b.isunity());
}

#[test]
fn fp2_sqrt_of_square() {
    let mut s = FP2::new_ints(3, 4);
    s.sqr();
    let expect = FP2::new_copy(&s);
    let ok = s.sqrt();
    assert!(ok);
    s.sqr();
    assert!(s.equals(&expect));
}

#[test]
fn sqrt_of_non_square_fails() {
    // 1 + u is the quadratic non-residue that defines the next extension
    let mut x = FP2::new_ints(1, 1);
    let ok = x.sqrt();
    assert!(!ok);
    assert!(x.iszilch());
}

#[test]
fn sqrt_of_zero() {
    let mut z = FP2::new();
    assert!(z.sqrt());
    assert!(z.iszilch());
}

#[test]
fn conj_cancels_imaginary() {
    let mut x = FP2::new_ints(6, 11);
    let y = FP2::new_copy(&x);
    x.conj();
    x.add(&y);
    assert!(x.equals(&FP2::new_ints(12, 0)));
}

#[test]
fn spmt_sum_and_difference() {
    let mut x = FP2::new_ints(9, 4);
    x.spmt();
    assert!(x.equals(&FP2::new_ints(13, 5)));
}

#[test]
fn div2_halves_both_parts() {
    let mut x = FP2::new_ints(10, 14);
    x.div2();
    assert!(x.equals(&FP2::new_ints(5, 7)));
}

#[test]
fn pmul_scales_both_parts() {
    let mut x = FP2::new_ints(2, 3);
    let s = FP::new_int(6);
    x.pmul(&s);
    assert!(x.equals(&FP2::new_ints(12, 18)));
}

#[test]
fn imul_scales_both_parts() {
    let mut x = FP2::new_ints(2, 3);
    x.imul(-2);
    assert!(x.equals(&FP2::new_ints(-4, -6)));
}

#[test]
fn fp2_sign_convention() {
    let mut x = FP2::new_ints(1, 1);
    assert!(!x.is_neg());
    let mut y = FP2::new_ints(1, -1);
    assert!(y.is_neg());
    // zero imaginary part defers to the real part
    let mut z = FP2::new_ints(-1, 0);
    assert!(z.is_neg());
}

#[test]
fn getters_return_canonical_parts() {
    let x = FP2::new_ints(21, 0);
    let a = x.geta();
    let b = x.getb();
    assert_eq!(bls381::big::Big::comp(&a, &bls381::big::Big::new_int(21)), 0);
    assert!(b.iszilch());
}

#[test]
fn neg_and_rsub() {
    let mut x = FP2::new_ints(5, 6);
    let y = FP2::new_ints(12, 20);
    x.rsub(&y);
    assert!(x.equals(&FP2::new_ints(7, 14)));
}

#[test]
fn cmove_selects() {
    let mut x = FP2::new_ints(1, 2);
    let y = FP2::new_ints(3, 4);
    x.cmove(&y, 0);
    assert!(x.equals(&FP2::new_ints(1, 2)));
    x.cmove(&y, 1);
    assert!(x.equals(&y));
}
