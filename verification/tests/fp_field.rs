//! Base-field behaviour on concrete values: ring identities, the
//! Montgomery round trip, reduction under driven excess, inversion,
//! square roots and the Euler criterion.

use bls381::big::Big;
use bls381::fp::FP;

#[test]
fn add_small_values() {
    let mut a = FP::new_int(5);
    let b = FP::new_int(3);
    a.add(&b);
    assert!(a.equals(&FP::new_int(8)));
}

#[test]
fn mul_small_values() {
    let mut a = FP::new_int(3);
    let b = FP::new_int(5);
    a.mul(&b);
    assert!(a.equals(&FP::new_int(15)));
}

#[test]
fn add_assoc_concrete() {
    let a = FP::new_int(11);
    let b = FP::new_int(22);
    let c = FP::new_int(33);
    let mut l = FP::new_copy(&a);
    l.add(&b);
    l.add(&c);
    let mut r = FP::new_copy(&b);
    r.add(&c);
    r.add(&a);
    assert!(l.equals(&r));
}

#[test]
fn mul_distributes_concrete() {
    let a = FP::new_int(7);
    let b = FP::new_int(9);
    let c = FP::new_int(4);
    // a * (b + c)
    let mut l = FP::new_copy(&b);
    l.add(&c);
    l.mul(&a);
    // a*b + a*c
    let mut ab = FP::new_copy(&a);
    ab.mul(&b);
    let mut ac = FP::new_copy(&a);
    ac.mul(&c);
    ab.add(&ac);
    assert!(l.equals(&ab));
}

#[test]
fn sub_self_is_zero() {
    let mut a = FP::new_int(123);
    let b = FP::new_int(123);
    a.sub(&b);
    assert!(a.iszilch());
}

#[test]
fn neg_twice_is_identity() {
    let mut a = FP::new_int(99);
    a.neg();
    a.neg();
    assert!(a.equals(&FP::new_int(99)));
}

#[test]
fn neg_adds_to_zero() {
    let mut a = FP::new_int(42);
    let b = FP::new_int(42);
    a.neg();
    a.add(&b);
    assert!(a.iszilch());
}

#[test]
fn montgomery_round_trip() {
    let x = Big::new_int(123456789);
    let f = FP::new_big(&x);
    let r = f.redc();
    assert_eq!(Big::comp(&r, &Big::new_int(123456789)), 0);
}

#[test]
fn reduce_under_driven_excess() {
    // double twenty times so that eager reductions must fire, then check
    // the value survived exactly
    let mut f = FP::new_int(1);
    for _ in 0..20 {
        f.dbl();
    }
    assert!(f.equals(&FP::new_int(1048576)));
}

#[test]
fn excess_chain_additions() {
    // an adversarial chain of additions drives the excess to its ceiling;
    // halving back down must return exactly to one
    let mut acc = FP::new_int(1);
    for _ in 0..100 {
        let c = FP::new_copy(&acc);
        acc.add(&c);
    }
    for _ in 0..100 {
        acc.div2();
    }
    assert!(acc.equals(&FP::new_int(1)));
}

#[test]
fn div2_then_double() {
    let mut a = FP::new_int(7);
    a.div2();
    a.dbl();
    assert!(a.equals(&FP::new_int(7)));
}

#[test]
fn inverse_gives_unity() {
    let a = FP::new_int(7);
    let mut b = FP::new_copy(&a);
    b.inverse();
    b.mul(&a);
    assert!(b.equals(&FP::new_int(1)));
}

#[test]
fn pow_small_exponent() {
    let mut f = FP::new_int(2);
    let e = Big::new_int(10);
    let r = f.pow(&e);
    assert!(r.equals(&FP::new_int(1024)));
}

#[test]
fn pow_zero_exponent() {
    let mut f = FP::new_int(12345);
    let e = Big::new_int(0);
    let r = f.pow(&e);
    assert!(r.equals(&FP::new_int(1)));
}

#[test]
fn sqrt_of_square() {
    let mut q = FP::new_int(2);
    q.sqr();
    let mut s = q.sqrt();
    let mut ss = FP::new_copy(&s);
    ss.sqr();
    assert!(ss.equals(&q));
    // the root is two or its negation
    let two = FP::new_int(2);
    let mut mtwo = FP::new_int(2);
    mtwo.neg();
    assert!(s.equals(&two) || s.equals(&mtwo));
}

#[test]
fn jacobi_values() {
    let mut four = FP::new_int(4);
    assert_eq!(four.jacobi(), 1);
    let mut zero = FP::new();
    assert_eq!(zero.jacobi(), 0);
    // −1 is a non-residue because the prime is 3 mod 4
    let mut mone = FP::new_int(-1);
    assert_eq!(mone.jacobi(), -1);
    // 2 is a non-residue because the prime is 3 mod 8
    let mut two = FP::new_int(2);
    assert_eq!(two.jacobi(), -1);
}

#[test]
fn sign_convention() {
    let mut one = FP::new_int(1);
    assert!(!one.is_neg());
    let mut mone = FP::new_int(-1);
    assert!(mone.is_neg());
}

#[test]
fn conditional_move_and_swap() {
    let keep = FP::new_int(10);
    let other = FP::new_int(20);
    let mut a = FP::new_copy(&keep);
    a.cmove(&other, 0);
    assert!(a.equals(&keep));
    a.cmove(&other, 1);
    assert!(a.equals(&other));
    let mut x = FP::new_int(1);
    let mut y = FP::new_int(2);
    x.cswap(&mut y, 1);
    assert!(x.equals(&FP::new_int(2)) && y.equals(&FP::new_int(1)));
    x.cswap(&mut y, 0);
    assert!(x.equals(&FP::new_int(2)) && y.equals(&FP::new_int(1)));
}

#[test]
fn imul_matches_repeated_add() {
    let mut a = FP::new_int(13);
    a.imul(5);
    let mut b = FP::new();
    let base = FP::new_int(13);
    for _ in 0..5 {
        b.add(&base);
    }
    assert!(a.equals(&b));
    let mut c = FP::new_int(13);
    c.imul(-5);
    c.add(&b);
    assert!(c.iszilch());
}

#[test]
fn rsub_is_reversed_subtraction() {
    let mut a = FP::new_int(3);
    let b = FP::new_int(10);
    a.rsub(&b);
    assert!(a.equals(&FP::new_int(7)));
}
