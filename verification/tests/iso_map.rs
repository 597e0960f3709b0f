//! The 3-isogeny evaluation on concrete points: the Horner recombination
//! is checked against step-by-step public field operations, and the map
//! constants against their defining relations.

use bls381::ecp2::ECP2;
use bls381::fp2::FP2;
use bls381::iso::{etas, roots_of_unity, xden_coeffs, xnum_coeffs, yden_coeffs, ynum_coeffs,
    z_powers, ISO3_FP2};

fn eval_by_hand(k: &[FP2; 4], x: &FP2, z: &FP2) -> FP2 {
    let mut z2 = FP2::new_copy(z);
    z2.sqr();
    let mut z3 = FP2::new_copy(&z2);
    z3.mul(z);
    let mut m = FP2::new_copy(&k[3]);
    m.mul(x);
    let mut t = FP2::new_copy(&k[2]);
    t.mul(z);
    m.add(&t);
    m.mul(x);
    let mut t1 = FP2::new_copy(&k[1]);
    t1.mul(&z2);
    m.add(&t1);
    m.mul(x);
    let mut t0 = FP2::new_copy(&k[0]);
    t0.mul(&z3);
    m.add(&t0);
    m
}

#[test]
fn z_powers_are_squares_and_cubes() {
    let z = FP2::new_ints(5, 7);
    let zv = z_powers(&z);
    let mut z2 = FP2::new_copy(&z);
    z2.sqr();
    let mut z3 = FP2::new_copy(&z2);
    z3.mul(&z);
    assert!(zv[0].equals(&z));
    assert!(zv[1].equals(&z2));
    assert!(zv[2].equals(&z3));
}

#[test]
fn isogeny_image_matches_hand_evaluation() {
    let p = ISO3_FP2 { x: FP2::new_ints(3, 1), y: FP2::new_ints(2, 9), z: FP2::new_ints(1, 4) };
    let r: ECP2 = p.iso3_to_ecp2();

    let xn = eval_by_hand(&xnum_coeffs(), &p.x, &p.z);
    let xd = eval_by_hand(&xden_coeffs(), &p.x, &p.z);
    let mut yn = eval_by_hand(&ynum_coeffs(), &p.x, &p.z);
    let mut yd = eval_by_hand(&yden_coeffs(), &p.x, &p.z);
    yn.mul(&p.y);
    yd.mul(&p.z);

    let mut ex = FP2::new_copy(&xn);
    ex.mul(&yd);
    let mut ey = FP2::new_copy(&yn);
    ey.mul(&xd);
    let mut ez = FP2::new_copy(&xd);
    ez.mul(&yd);

    assert!(r.x.equals(&ex));
    assert!(r.y.equals(&ey));
    assert!(r.z.equals(&ez));
    assert!(!r.is_infinity());
}

#[test]
fn isogeny_images_differ_for_distinct_points() {
    let p1 = ISO3_FP2 { x: FP2::new_ints(3, 1), y: FP2::new_ints(2, 9), z: FP2::new_int(1) };
    let p2 = ISO3_FP2 { x: FP2::new_ints(4, 1), y: FP2::new_ints(2, 9), z: FP2::new_int(1) };
    let r1 = p1.iso3_to_ecp2();
    let r2 = p2.iso3_to_ecp2();
    assert!(!(r1.x.equals(&r2.x) && r1.y.equals(&r2.y) && r1.z.equals(&r2.z)));
}

#[test]
fn roots_of_unity_have_eighth_power_one() {
    let roots = roots_of_unity();
    for r in roots.iter() {
        let mut t = FP2::new_copy(r);
        t.sqr();
        t.sqr();
        t.sqr();
        assert!(t.isunity());
    }
}

#[test]
fn roots_of_unity_squares() {
    let roots = roots_of_unity();
    // 1² = 1, u² = −1, and the two mixed roots square to ±u
    let mut r0 = FP2::new_copy(&roots[0]);
    r0.sqr();
    assert!(r0.isunity());
    let mut r1 = FP2::new_copy(&roots[1]);
    r1.sqr();
    assert!(r1.equals(&FP2::new_int(-1)));
    let mut r2 = FP2::new_copy(&roots[2]);
    r2.sqr();
    let mut r3 = FP2::new_copy(&roots[3]);
    r3.sqr();
    let mut sum = FP2::new_copy(&r2);
    sum.add(&r3);
    // the two mixed squares are opposite
    assert!(sum.iszilch());
}

#[test]
fn etas_are_nonzero_and_distinct() {
    let es = etas();
    for e in es.iter() {
        assert!(!e.iszilch());
    }
    for i in 0..4 {
        for j in (i + 1)..4 {
            assert!(!es[i].equals(&es[j]));
        }
    }
}

#[test]
fn infinity_flag_follows_z() {
    let zero = FP2::new();
    let one = FP2::new_int(1);
    let p = ECP2::new_projective(one, one, zero);
    assert!(p.is_infinity());
}
