//! The mathematical model of the base field: the BLS12-381 prime, modular
//! addition, subtraction, multiplication, negation and exponentiation on
//! unbounded integers, and the field laws proved about them.

use vstd::prelude::*;
#[allow(unused_imports)]
use vstd::arithmetic::div_mod::{
    lemma_add_mod_noop, lemma_add_mod_noop_right, lemma_fundamental_div_mod,
    lemma_fundamental_div_mod_converse, lemma_mod_bound, lemma_mul_mod_noop_general,
    lemma_small_mod, lemma_sub_mod_noop,
};
#[allow(unused_imports)]
use vstd::calc;

verus! {

/// The 381-bit BLS12-381 base field prime.
pub open spec fn prime() -> int {
    0x1a0111ea397fe69a4b1ba7b6434bacd764774b84f38512bf6730d2a0f6b0f6241eabfffeb153ffffb9feffffffffaaabint
}

/// Residue of `a` modulo the prime, in `[0, prime())`.
pub open spec fn residue(a: int) -> int {
    a % prime()
}

/// Field addition.
pub open spec fn fadd(a: int, b: int) -> int {
    (a + b) % prime()
}

/// Field subtraction.
pub open spec fn fsub(a: int, b: int) -> int {
    (a - b) % prime()
}

/// Field multiplication.
pub open spec fn fmul(a: int, b: int) -> int {
    (a * b) % prime()
}

/// Field negation.
pub open spec fn fneg(a: int) -> int {
    (0 - a) % prime()
}

/// Field exponentiation: `a` raised to the natural exponent `e`, reduced
/// at every step.
pub open spec fn fpow(a: int, e: nat) -> int
    decreases e,
{
    if e == 0 {
        1int % prime()
    } else {
        (a * fpow(a, (e - 1) as nat)) % prime()
    }
}

/// The prime is positive; every residue lies in `[0, prime())`.
pub proof fn lemma_residue_bounds(a: int)
    ensures
        0 <= residue(a) < prime(),
{
    lemma_mod_bound(a, prime());
}

/// Addition of residues is associative: `(a+b)+c == a+(b+c)`.
pub proof fn lemma_fadd_assoc(a: int, b: int, c: int)
    ensures
        fadd(fadd(a, b), c) == fadd(a, fadd(b, c)),
{
    let p = prime();
    lemma_add_mod_noop(a + b, c, p);
    lemma_add_mod_noop(a, b + c, p);
    assert((a + b) + c == a + (b + c));
}

/// Addition of residues is commutative.
pub proof fn lemma_fadd_comm(a: int, b: int)
    ensures
        fadd(a, b) == fadd(b, a),
{
}

/// Multiplication of residues is commutative.
pub proof fn lemma_fmul_comm(a: int, b: int)
    ensures
        fmul(a, b) == fmul(b, a),
{
}

/// Multiplication of residues is associative: `(a·b)·c == a·(b·c)`.
pub proof fn lemma_fmul_assoc(a: int, b: int, c: int)
    ensures
        fmul(fmul(a, b), c) == fmul(a, fmul(b, c)),
{
    let p = prime();
    lemma_mul_mod_noop_general(a * b, c, p);
    lemma_mul_mod_noop_general(a, b * c, p);
    assert((a * b) * c == a * (b * c)) by (nonlinear_arith);
}

/// Multiplication distributes over addition: `a·(b+c) == a·b + a·c`.
pub proof fn lemma_fmul_distrib(a: int, b: int, c: int)
    ensures
        fmul(a, fadd(b, c)) == fadd(fmul(a, b), fmul(a, c)),
{
    let p = prime();
    lemma_mul_mod_noop_general(a, b + c, p);
    assert(a * (b + c) == a * b + a * c) by (nonlinear_arith);
    lemma_add_mod_noop(a * b, a * c, p);
}

/// Zero is the additive identity and one the multiplicative identity on
/// residues.
pub proof fn lemma_fidentities(a: int)
    requires
        0 <= a < prime(),
    ensures
        fadd(a, 0) == a,
        fmul(a, 1) == a,
        fadd(a, fneg(a)) == 0,
{
    let p = prime();
    lemma_small_mod(a as nat, p as nat);
    lemma_add_mod_noop(a, -a, p);
    lemma_mod_bound(-a, p);
}

/// Splitting an exponent: `a^(e1+e2) == a^e1 · a^e2` on residues.
pub proof fn lemma_fpow_adds(a: int, e1: nat, e2: nat)
    ensures
        fpow(a, e1 + e2) == fmul(fpow(a, e1), fpow(a, e2)),
    decreases e1,
{
    let p = prime();
    if e1 == 0 {
        lemma_mod_bound(fpow(a, e2), p);
        lemma_small_mod(fpow(a, e2) as nat, p as nat);
        lemma_mul_mod_noop_general(1int % p, fpow(a, e2), p);
        assert(fmul(1int % p, fpow(a, e2)) == ((1int % p) * fpow(a, e2)) % p);
        lemma_fpow_bound(a, e2);
        assert((1int % p) % p * (fpow(a, e2) % p) == fpow(a, e2));
    } else {
        lemma_fpow_adds(a, (e1 - 1) as nat, e2);
        // a^(e1+e2) = (a * a^(e1-1+e2)) % p
        assert(fpow(a, e1 + e2) == (a * fpow(a, ((e1 + e2) - 1) as nat)) % p);
        lemma_mul_mod_noop_general(a, fpow(a, ((e1 + e2) - 1) as nat), p);
        lemma_mul_mod_noop_general(a, fpow(a, (e1 - 1) as nat) * fpow(a, e2), p);
        assert(a * (fpow(a, (e1 - 1) as nat) * fpow(a, e2)) == (a * fpow(a, (e1 - 1) as nat))
            * fpow(a, e2)) by (nonlinear_arith);
        lemma_mul_mod_noop_general(a * fpow(a, (e1 - 1) as nat), fpow(a, e2), p);
    }
}

/// Every power is a residue in `[0, prime())`.
pub proof fn lemma_fpow_bound(a: int, e: nat)
    ensures
        0 <= fpow(a, e) < prime(),
    decreases e,
{
    if e == 0 {
        lemma_mod_bound(1, prime());
    } else {
        lemma_mod_bound(a * fpow(a, (e - 1) as nat), prime());
    }
}

/// Nesting exponents: `(a^e1)^e2 == a^(e1·e2)` on residues.
pub proof fn lemma_fpow_multiplies(a: int, e1: nat, e2: nat)
    ensures
        fpow(fpow(a, e1), e2) == fpow(a, e1 * e2),
    decreases e2,
{
    let p = prime();
    if e2 == 0 {
        assert(e1 * 0 == 0);
    } else {
        lemma_fpow_multiplies(a, e1, (e2 - 1) as nat);
        assert(e1 * e2 == e1 + e1 * (e2 - 1)) by (nonlinear_arith);
        lemma_fpow_adds(a, e1, (e1 * (e2 - 1)) as nat);
        // fpow(fpow(a,e1), e2) = (fpow(a,e1) * fpow(fpow(a,e1), e2-1)) % p
        lemma_fpow_bound(a, e1);
        lemma_fpow_bound(a, (e1 * (e2 - 1)) as nat);
        lemma_small_mod(fpow(a, e1) as nat, p as nat);
        lemma_small_mod(fpow(a, (e1 * (e2 - 1)) as nat) as nat, p as nat);
        lemma_mul_mod_noop_general(fpow(a, e1), fpow(a, (e1 * (e2 - 1)) as nat), p);
    }
}

/// The Montgomery radix 2^406 (one bit position past 14 limbs of 29 bits).
pub open spec fn rmont() -> int {
    0x400000000000000000000000000000000000000000000000000000000000000000000000000000000000000000000000000000int
}

/// The inverse of the Montgomery radix modulo the prime.
pub open spec fn rinv() -> int {
    0x194123587a5488b9ab7df2cd611a96bc69fd71636c66017029b05497524a0f55b8cabf7c3f43fde41fefa034ce091201int
}

/// Interpretation of a Montgomery-form integer as a field residue.
pub open spec fn redv(v: int) -> int {
    (v * rinv()) % prime()
}

/// The radix and its inverse cancel modulo the prime.
pub proof fn lemma_rinv()
    ensures
        (rmont() * rinv()) % prime() == 1,
{
    assert(rmont() * rinv()
        == 0x65048d61e95222e6adf7cb35846a5af1a7f5c58db19805c0a6c1525d49283d56e32afdf0fd0ff7907fbe80d33824480400000000000000000000000000000000000000000000000000000000000000000000000000000000000000000000000000000int);
    vstd::arithmetic::div_mod::lemma_fundamental_div_mod_converse(
        rmont() * rinv(),
        prime(),
        0x3e27a0ceb06106feaafc9468b316fee268cf5819ecca0e8eb2db4c16ef2ef0c8e30b48286adb92d9d113e889f3fffcfffcfffdint,
        1,
    );
}

/// Congruent Montgomery forms denote the same residue, and conversely.
pub proof fn lemma_redv_congruence(v1: int, v2: int)
    ensures
        v1 % prime() == v2 % prime() <==> redv(v1) == redv(v2),
{
    let p = prime();
    let ri = rinv();
    if v1 % p == v2 % p {
        lemma_mul_mod_noop_general(v1, ri, p);
        lemma_mul_mod_noop_general(v2, ri, p);
    }
    if redv(v1) == redv(v2) {
        lemma_rinv();
        lemma_redv_unfold(v1);
        lemma_redv_unfold(v2);
    }
}

/// Multiplying a Montgomery form by the radix and the inverse returns to
/// the plain residue: `(v·ri mod p)·R ≡ v (mod p)`.
proof fn lemma_redv_unfold(v: int)
    ensures
        (redv(v) * rmont()) % prime() == v % prime(),
{
    let p = prime();
    let ri = rinv();
    let rr = rmont();
    lemma_rinv();
    calc! {
        (==)
        (redv(v) * rr) % p; {
            lemma_mul_mod_noop_general(v * ri, rr, p);
        }
        (v * ri * rr) % p; {
            assert(v * ri * rr == v * (ri * rr)) by (nonlinear_arith);
            assert(ri * rr == rr * ri);
        }
        (v * (rr * ri)) % p; {
            lemma_mul_mod_noop_general(v, rr * ri, p);
        }
        ((v % p) * ((rr * ri) % p)) % p; {}
        ((v % p) * 1) % p; {
            lemma_mod_bound(v, p);
            lemma_small_mod((v % p) as nat, p as nat);
        }
        v % p;
    }
}

/// The residue of a Montgomery product: if `r·R ≡ a·b (mod p)` then the
/// residue of `r` is the field product of the residues of `a` and `b`.
pub proof fn lemma_redv_mul(rv: int, av: int, bv: int)
    requires
        (rv * rmont()) % prime() == (av * bv) % prime(),
    ensures
        redv(rv) == fmul(redv(av), redv(bv)),
{
    let p = prime();
    let ri = rinv();
    let rr = rmont();
    lemma_rinv();
    calc! {
        (==)
        fmul(redv(av), redv(bv)); {
            lemma_mul_mod_noop_general(av * ri, bv * ri, p);
        }
        ((av * ri) * (bv * ri)) % p; {
            assert((av * ri) * (bv * ri) == (av * bv) * (ri * ri)) by (nonlinear_arith);
        }
        ((av * bv) * (ri * ri)) % p; {
            lemma_mul_mod_noop_general(av * bv, ri * ri, p);
            lemma_mul_mod_noop_general(rv * rr, ri * ri, p);
        }
        ((rv * rr) * (ri * ri)) % p; {
            assert((rv * rr) * (ri * ri) == (rv * ri) * (rr * ri)) by (nonlinear_arith);
        }
        ((rv * ri) * (rr * ri)) % p; {
            lemma_mul_mod_noop_general(rv * ri, rr * ri, p);
        }
        (((rv * ri) % p) * ((rr * ri) % p)) % p; {}
        (((rv * ri) % p) * 1) % p; {
            lemma_mod_bound(rv * ri, p);
            lemma_small_mod(((rv * ri) % p) as nat, p as nat);
        }
        redv(rv);
    }
}

/// Entering Montgomery form: if `r·R ≡ y·(R² mod p) (mod p)` then the
/// residue of `r` is the plain residue of `y`.
pub proof fn lemma_redv_enter(rv: int, yv: int)
    requires
        (rv * rmont()) % prime() == (yv * ((rmont() * rmont()) % prime())) % prime(),
    ensures
        redv(rv) == yv % prime(),
{
    let p = prime();
    let ri = rinv();
    let rr = rmont();
    lemma_rinv();
    // r·R ≡ y·R·R, so redv(r) == fmul(redv(y·R), redv(R))
    lemma_mul_mod_noop_general(yv, rr * rr, p);
    assert((yv * (rr * rr)) % p == ((yv * rr) * rr) % p) by {
        assert(yv * (rr * rr) == (yv * rr) * rr) by (nonlinear_arith);
    }
    lemma_redv_mul(rv, yv * rr, rr);
    // redv(y·R) == (y·R·ri) % p == (y·(R·ri)) % p == y % p
    calc! {
        (==)
        redv(yv * rr); {
            assert(yv * rr * ri == yv * (rr * ri)) by (nonlinear_arith);
        }
        (yv * (rr * ri)) % p; {
            lemma_mul_mod_noop_general(yv, rr * ri, p);
        }
        ((yv % p) * ((rr * ri) % p)) % p; {}
        ((yv % p) * 1) % p; {
            lemma_mod_bound(yv, p);
            lemma_small_mod((yv % p) as nat, p as nat);
        }
        yv % p;
    }
    // redv(R) == (R·ri) % p == 1
    assert(redv(rr) == 1);
    // so redv(r) == fmul(y % p, 1) == y % p
    lemma_mod_bound(yv, p);
    lemma_small_mod((yv % p) as nat, p as nat);
    lemma_mul_mod_noop_general(yv % p, 1, p);
    assert(fmul(yv % p, 1) == ((yv % p) * 1) % p);
}

/// The residue of a sum of Montgomery forms is the field sum.
pub proof fn lemma_redv_add(av: int, bv: int)
    ensures
        redv(av + bv) == fadd(redv(av), redv(bv)),
{
    let p = prime();
    let ri = rinv();
    assert((av + bv) * ri == av * ri + bv * ri) by (nonlinear_arith);
    lemma_add_mod_noop(av * ri, bv * ri, p);
}

/// The residue of `k·p − v` is the field negation of the residue of `v`.
pub proof fn lemma_redv_neg(av: int, k: int)
    ensures
        redv(k * prime() - av) == fneg(redv(av)),
{
    let p = prime();
    let ri = rinv();
    assert((k * p - av) * ri == p * (k * ri) + (0 - av * ri)) by (nonlinear_arith);
    vstd::arithmetic::div_mod::lemma_mod_multiples_vanish(k * ri, 0 - av * ri, p);
    lemma_sub_mod_noop(0, av * ri, p);
    lemma_small_mod(0, p as nat);
}

/// Halving in Montgomery form: if twice `h` is `v` up to a multiple of
/// the prime, the residue of `v` is the field double of that of `h`.
pub proof fn lemma_redv_double(h: int, v: int, k: int)
    requires
        2 * h == v + k * prime(),
    ensures
        fadd(redv(h), redv(h)) == redv(v),
{
    let p = prime();
    let ri = rinv();
    lemma_add_mod_noop(h * ri, h * ri, p);
    assert(h * ri + h * ri == (2 * h) * ri) by (nonlinear_arith);
    assert((2 * h) * ri == v * ri + p * (k * ri)) by (nonlinear_arith)
        requires
            2 * h == v + k * prime(),
            p == prime(),
    ;
    vstd::arithmetic::div_mod::lemma_mod_multiples_vanish(k * ri, v * ri, p);
}

/// Field subtraction is addition of the negation, on residues.
pub proof fn lemma_fsub_is_add_neg(x: int, y: int)
    ensures
        fadd(x, fneg(y)) == fsub(x, y),
{
    let p = prime();
    lemma_add_mod_noop_right(x, 0 - y, p);
    assert(x + (0 - y) == x - y);
}

/// Leaving Montgomery form: if `t·R ≡ v (mod p)` then the residue of `t`
/// as a plain integer is the Montgomery residue of `v`.
pub proof fn lemma_monty_exit(t: int, v: int)
    requires
        (t * rmont()) % prime() == v % prime(),
    ensures
        t % prime() == redv(v),
{
    let p = prime();
    let ri = rinv();
    let rr = rmont();
    lemma_rinv();
    calc! {
        (==)
        t % p; {
            lemma_mod_bound(t, p);
            lemma_small_mod((t % p) as nat, p as nat);
            lemma_mul_mod_noop_general(t, rr * ri, p);
            assert(((t % p) * 1) % p == t % p);
        }
        (t * (rr * ri)) % p; {
            assert(t * (rr * ri) == (t * rr) * ri) by (nonlinear_arith);
        }
        ((t * rr) * ri) % p; {
            lemma_mul_mod_noop_general(t * rr, ri, p);
            lemma_mul_mod_noop_general(v, ri, p);
        }
        (v * ri) % p;
    }
}

/// The field half: the unique residue that doubles to the given residue.
pub open spec fn fhalf(x: int) -> int {
    if x % 2 == 0 {
        x / 2
    } else {
        (x + prime()) / 2
    }
}

/// Doubling is injective on residues (the prime is odd), so any residue
/// whose double is `x` is the field half of `x`.
pub proof fn lemma_fhalf_unique(x: int, h: int)
    requires
        0 <= x < prime(),
        0 <= h < prime(),
        fadd(h, h) == x,
    ensures
        h == fhalf(x),
{
    let p = prime();
    lemma_prime_odd();
    lemma_mod_bound(h + h, p);
    lemma_fundamental_div_mod(h + h, p);
    let q = (h + h) / p;
    // 2h == x + q·p with q in {0, 1}
    assert(0 <= q <= 1) by (nonlinear_arith)
        requires
            h + h == p * q + x,
            0 <= x < p,
            0 <= h < p,
            p >= 3,
    ;
    if q == 0 {
        assert(h + h == x);
        assert(x % 2 == 0) by (nonlinear_arith)
            requires
                x == 2 * h,
        ;
        lemma_fundamental_div_mod_converse(x, 2, h, 0);
    } else {
        assert(h + h == x + p);
        assert((x + p) % 2 == 0) by (nonlinear_arith)
            requires
                x + p == 2 * h,
        ;
        lemma_fundamental_div_mod_converse(x + p, 2, h, 0);
        // x is odd because p is odd
        lemma_add_mod_noop(x, p, 2);
        lemma_mod_bound(x, 2);
        if x % 2 == 0 {
            assert((x % 2 + p % 2) % 2 == 1);
        }
    }
}

/// The prime is odd.
pub proof fn lemma_prime_odd()
    ensures
        prime() % 2 == 1,
        prime() >= 3,
{
}

/// The residue of a Montgomery product difference: if
/// `r·R ≡ a1·c1 − a2·c2 (mod p)` then the residue of `r` is the field
/// difference of the two component products.
pub proof fn lemma_redv_mulsub(rv: int, a1: int, c1: int, a2: int, c2: int)
    requires
        (rv * rmont()) % prime() == (a1 * c1 - a2 * c2) % prime(),
    ensures
        redv(rv) == fsub(fmul(redv(a1), redv(c1)), fmul(redv(a2), redv(c2))),
{
    let p = prime();
    let ri = rinv();
    let rr = rmont();
    lemma_rinv();
    calc! {
        (==)
        fsub(fmul(redv(a1), redv(c1)), fmul(redv(a2), redv(c2))); {
            lemma_redv_pair(a1, c1);
            lemma_redv_pair(a2, c2);
        }
        (((a1 * c1) * (ri * ri)) % p - ((a2 * c2) * (ri * ri)) % p) % p; {
            lemma_sub_mod_noop((a1 * c1) * (ri * ri), (a2 * c2) * (ri * ri), p);
        }
        ((a1 * c1) * (ri * ri) - (a2 * c2) * (ri * ri)) % p; {
            assert((a1 * c1) * (ri * ri) - (a2 * c2) * (ri * ri) == (a1 * c1 - a2 * c2) * (ri
                * ri)) by (nonlinear_arith);
        }
        ((a1 * c1 - a2 * c2) * (ri * ri)) % p; {
            lemma_mul_mod_noop_general(a1 * c1 - a2 * c2, ri * ri, p);
            lemma_mul_mod_noop_general(rv * rr, ri * ri, p);
        }
        ((rv * rr) * (ri * ri)) % p; {
            assert((rv * rr) * (ri * ri) == (rv * ri) * (rr * ri)) by (nonlinear_arith);
        }
        ((rv * ri) * (rr * ri)) % p; {
            lemma_mul_mod_noop_general(rv * ri, rr * ri, p);
        }
        (((rv * ri) % p) * ((rr * ri) % p)) % p; {}
        (((rv * ri) % p) * 1) % p; {
            lemma_mod_bound(rv * ri, p);
            lemma_small_mod(((rv * ri) % p) as nat, p as nat);
        }
        redv(rv);
    }
}

/// The residue of a Montgomery cross sum: if
/// `r·R ≡ a1·c1 + a2·c2 (mod p)` then the residue of `r` is the field sum
/// of the two component products.
pub proof fn lemma_redv_muladd(rv: int, a1: int, c1: int, a2: int, c2: int)
    requires
        (rv * rmont()) % prime() == (a1 * c1 + a2 * c2) % prime(),
    ensures
        redv(rv) == fadd(fmul(redv(a1), redv(c1)), fmul(redv(a2), redv(c2))),
{
    let p = prime();
    let ri = rinv();
    let rr = rmont();
    lemma_rinv();
    calc! {
        (==)
        fadd(fmul(redv(a1), redv(c1)), fmul(redv(a2), redv(c2))); {
            lemma_redv_pair(a1, c1);
            lemma_redv_pair(a2, c2);
        }
        (((a1 * c1) * (ri * ri)) % p + ((a2 * c2) * (ri * ri)) % p) % p; {
            lemma_add_mod_noop((a1 * c1) * (ri * ri), (a2 * c2) * (ri * ri), p);
        }
        ((a1 * c1) * (ri * ri) + (a2 * c2) * (ri * ri)) % p; {
            assert((a1 * c1) * (ri * ri) + (a2 * c2) * (ri * ri) == (a1 * c1 + a2 * c2) * (ri
                * ri)) by (nonlinear_arith);
        }
        ((a1 * c1 + a2 * c2) * (ri * ri)) % p; {
            lemma_mul_mod_noop_general(a1 * c1 + a2 * c2, ri * ri, p);
            lemma_mul_mod_noop_general(rv * rr, ri * ri, p);
        }
        ((rv * rr) * (ri * ri)) % p; {
            assert((rv * rr) * (ri * ri) == (rv * ri) * (rr * ri)) by (nonlinear_arith);
        }
        ((rv * ri) * (rr * ri)) % p; {
            lemma_mul_mod_noop_general(rv * ri, rr * ri, p);
        }
        (((rv * ri) % p) * ((rr * ri) % p)) % p; {}
        (((rv * ri) % p) * 1) % p; {
            lemma_mod_bound(rv * ri, p);
            lemma_small_mod(((rv * ri) % p) as nat, p as nat);
        }
        redv(rv);
    }
}

/// A component product in terms of residues: the field product of two
/// Montgomery residues is the raw product scaled by the inverse twice.
proof fn lemma_redv_pair(a: int, c: int)
    ensures
        fmul(redv(a), redv(c)) == ((a * c) * (rinv() * rinv())) % prime(),
{
    let p = prime();
    let ri = rinv();
    lemma_mul_mod_noop_general(a * ri, c * ri, p);
    assert((a * ri) * (c * ri) == (a * c) * (ri * ri)) by (nonlinear_arith);
}

/// The difference of squares: `(a − b)(a + b) == a² − b²` on residues.
pub proof fn lemma_diff_squares(a: int, b: int)
    ensures
        fmul(fsub(a, b), fadd(a, b)) == fsub(fmul(a, a), fmul(b, b)),
{
    let p = prime();
    lemma_mul_mod_noop_general(a - b, a + b, p);
    assert((a - b) * (a + b) == a * a - b * b) by (nonlinear_arith);
    lemma_sub_mod_noop(a * a, b * b, p);
}

/// Doubling distributes over a product: `b·(a + a) == a·b + a·b` on
/// residues.
pub proof fn lemma_double_product(a: int, b: int)
    ensures
        fmul(b, fadd(a, a)) == fadd(fmul(a, b), fmul(a, b)),
{
    let p = prime();
    lemma_mul_mod_noop_general(b, a + a, p);
    assert(b * (a + a) == a * b + a * b) by (nonlinear_arith);
    lemma_add_mod_noop(a * b, a * b, p);
}

/// The constant-time field inverse: the value raised to `p − 2`.
pub open spec fn finv(x: int) -> int {
    fpow(x, (prime() - 2) as nat)
}

/// The square-root candidate: the value raised to `(p + 1) / 4`.
pub open spec fn froot(x: int) -> int {
    fpow(x, ((prime() + 1) / 4) as nat)
}

/// The Euler test a nonzero residue passes exactly when the square-root
/// exponentiation inverts squaring on it.
pub open spec fn euler_qr(x: int) -> bool {
    x != 0 && fpow(x, ((prime() - 1) / 2) as nat) == 1
}

/// The Montgomery round trip: entering Montgomery form (scaling by the
/// radix) and reading the residue back through the radix inverse returns
/// the original value modulo the prime.
pub proof fn lemma_montgomery_round_trip(v: int)
    ensures
        redv((v * rmont()) % prime()) == v % prime(),
{
    let p = prime();
    let ri = rinv();
    let rr = rmont();
    lemma_rinv();
    calc! {
        (==)
        redv((v * rr) % p); {
            lemma_mul_mod_noop_general(v * rr, ri, p);
        }
        ((v * rr) * ri) % p; {
            assert((v * rr) * ri == v * (rr * ri)) by (nonlinear_arith);
        }
        (v * (rr * ri)) % p; {
            lemma_mul_mod_noop_general(v, rr * ri, p);
        }
        ((v % p) * ((rr * ri) % p)) % p; {}
        ((v % p) * 1) % p; {
            lemma_mod_bound(v, p);
            lemma_small_mod((v % p) as nat, p as nat);
        }
        v % p;
    }
}

/// Two residues with zero field difference are equal.
pub proof fn lemma_fsub_zero(x: int, y: int)
    requires
        0 <= x < prime(),
        0 <= y < prime(),
    ensures
        fsub(x, y) == 0 <==> x == y,
{
    let p = prime();
    if x >= y {
        lemma_small_mod((x - y) as nat, p as nat);
    } else {
        lemma_fundamental_div_mod_converse(x - y, p, -1, x - y + p);
    }
}

} // verus!
