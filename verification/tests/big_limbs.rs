//! Limb-level behaviour of the fixed-width integers: comparison,
//! shifting, small multiplication, carries and borrows on concrete
//! values.

use bls381::big::Big;

#[test]
fn compare_orders_values() {
    let a = Big::new_int(100);
    let b = Big::new_int(200);
    assert_eq!(Big::comp(&a, &b), -1);
    assert_eq!(Big::comp(&b, &a), 1);
    assert_eq!(Big::comp(&a, &a), 0);
}

#[test]
fn add_carries_across_limbs() {
    // 2^29 − 1 plus one carries into the second limb
    let mut a = Big::new_int(0x1fffffff);
    a.inc(1);
    let mut b = Big::new_int(0x10000000);
    b.dbl();
    assert_eq!(Big::comp(&a, &b), 0);
}

#[test]
fn rsub_borrows() {
    let mut a = Big::new_int(1);
    let mut big = Big::new_int(0x1fffffff);
    big.inc(1);
    // a := 2^29 − 1
    a.rsub(&big);
    assert_eq!(Big::comp(&a, &Big::new_int(0x1fffffff)), 0);
}

#[test]
fn pmul_small_factor() {
    let mut a = Big::new_int(1000);
    a.pmul(3);
    assert_eq!(Big::comp(&a, &Big::new_int(3000)), 0);
}

#[test]
fn fshr_halves() {
    let mut a = Big::new_int(1024);
    a.fshr(3);
    assert_eq!(Big::comp(&a, &Big::new_int(128)), 0);
    let mut odd = Big::new_int(9);
    odd.fshr1();
    assert_eq!(Big::comp(&odd, &Big::new_int(4)), 0);
}

#[test]
fn parity_and_lastbits() {
    let a = Big::new_int(0x1ab);
    assert_eq!(a.parity(), 1);
    assert_eq!(a.lastbits(4), 0xb);
    assert_eq!(a.lastbits(8), 0xab);
}

#[test]
fn mul_full_product() {
    let a = Big::new_int(0x12345);
    let b = Big::new_int(0x6789a);
    let d = Big::mul(&a, &b);
    // compare the low limbs of the double-length product against the
    // same product computed on plain machine words
    let expect: u64 = 0x12345 * 0x6789a;
    let mut lowpart = Big::new_int(expect % 0x20000000);
    let mut highpart = Big::new_int(expect / 0x20000000);
    // reconstruct: high · 2^29 + low
    highpart.pmul(0x10000000);
    highpart.dbl();
    highpart.add(&lowpart);
    // compare against the low half of the double-length product
    let mut folded = Big::new();
    let mut i = 0;
    let mut weight = Big::new_int(1);
    while i < 3 {
        let mut term = Big::new_copy(&weight);
        term.pmul(d.w[i] as u64);
        folded.add(&term);
        if i < 2 {
            weight.pmul(0x10000000);
            weight.dbl();
        }
        i += 1;
    }
    assert_eq!(Big::comp(&folded, &highpart), 0);
    lowpart.zero();
    assert!(lowpart.iszilch());
}

#[test]
fn iszilch_and_one() {
    let mut z = Big::new();
    assert!(z.iszilch());
    z.one();
    assert!(!z.iszilch());
    assert_eq!(Big::comp(&z, &Big::new_int(1)), 0);
}

#[test]
fn cmove_and_cswap() {
    let mut a = Big::new_int(5);
    let b = Big::new_int(9);
    a.cmove(&b, 1);
    assert_eq!(Big::comp(&a, &b), 0);
    let mut x = Big::new_int(1);
    let mut y = Big::new_int(2);
    Big::cswap(&mut x, &mut y, 1);
    assert_eq!(Big::comp(&x, &Big::new_int(2)), 0);
    assert_eq!(Big::comp(&y, &Big::new_int(1)), 0);
}

#[test]
fn modulus_is_odd_and_large() {
    let m = Big::modulus();
    assert_eq!(m.parity(), 1);
    assert_eq!(Big::comp(&m, &Big::new_int(0x1fffffff)), 1);
}
