//! The 381-bit prime field. Elements are held in Montgomery form with an
//! *excess* tracker `xes`: an upper bound, in units of the modulus, on how
//! far the stored integer may exceed a canonical representative. Every
//! operation is proved to keep the stored value below `xes` times the
//! modulus with `xes` within the fixed budget, and to compute the stated
//! field residue.

use vstd::prelude::*;
#[allow(unused_imports)]
use vstd::arithmetic::div_mod::{
    lemma_fundamental_div_mod, lemma_mod_bound, lemma_mod_multiples_vanish,
    lemma_mul_mod_noop_general, lemma_small_mod,
};
#[allow(unused_imports)]
use vstd::arithmetic::mul::{lemma_mul_inequality, lemma_mul_nonnegative,
    lemma_mul_strict_upper_bound};
#[allow(unused_imports)]
use crate::arith::{
    fadd, fmul, fneg, fsub, lemma_redv_add, lemma_redv_congruence, lemma_redv_double,
    lemma_redv_enter, lemma_redv_mul, lemma_redv_neg, lemma_residue_bounds, prime, redv, rmont,
};
#[allow(unused_imports)]
use crate::big::{
    bpow, lemma_bpow_pos, lemma_scale_lt, lemma_vpre_nonneg, pow2s, Big, NLEN,
};
#[allow(unused_imports)]
use crate::dbig::DBig;
#[allow(unused_imports)]
use crate::rom;

verus! {

/// The excess budget: the stored integer may exceed the modulus by at most
/// this factor before an eager reduction is forced.
pub const FEXCESS: i32 = 0x3fff;

/// An element of the base prime field, in Montgomery form, with its
/// excess tracker.
#[derive(Clone, Copy)]
pub struct FP {
    pub x: Big,
    pub xes: i32,
}

impl FP {
    /// The excess invariant: limbs normalised, the excess within budget,
    /// and the stored integer below `xes` times the modulus.
    pub open spec fn wf(self) -> bool {
        &&& self.x.is_norm()
        &&& 1 <= self.xes <= FEXCESS
        &&& self.x.val() < self.xes * prime()
    }

    /// The field residue this element denotes: the stored integer times
    /// the inverse of the Montgomery radix, modulo the prime.
    pub open spec fn feval(self) -> int {
        redv(self.x.val())
    }

    /// The zero element.
    pub fn new() -> (r: FP)
        ensures
            r.wf(),
            r.feval() == 0,
            r.xes == 1,
    {
        let r = FP { x: Big::new(), xes: 1 };
        proof {
            rom::lemma_prime_shape();
            assert(redv(0) == 0) by {
                lemma_small_mod(0, prime() as nat);
            }
        }
        r
    }

    /// An element from a small signed integer.
    pub fn new_int(a: i64) -> (r: FP)
        requires
            -0x10000000 < a < 0x10000000,
        ensures
            r.wf(),
            r.feval() == (a as int) % prime(),
    {
        if a >= 0 {
            let mut f = FP { x: Big::new_int(a as u64), xes: 1 };
            proof {
                rom::lemma_prime_shape();
            }
            f.nres();
            f
        } else {
            let mut f = FP { x: Big::new_int((-a) as u64), xes: 1 };
            proof {
                rom::lemma_prime_shape();
            }
            f.nres();
            f.neg();
            proof {
                // −((−a) mod p) == a mod p
                let p = prime();
                vstd::arithmetic::div_mod::lemma_sub_mod_noop(0, -a as int, p);
                lemma_small_mod(0, p as nat);
            }
            f
        }
    }

    /// A copy of another element.
    pub fn new_copy(y: &FP) -> (r: FP)
        ensures
            r == *y,
    {
        FP { x: y.x, xes: y.xes }
    }

    /// An element from a plain integer, converted to Montgomery form.
    pub fn new_big(y: &Big) -> (r: FP)
        requires
            y.is_norm(),
        ensures
            r.wf(),
            r.feval() == y.val() % prime(),
    {
        let mut f = FP { x: Big::new_copy(y), xes: 1 };
        f.nres();
        f
    }

    /// Enter Montgomery form: multiply the stored integer by the square
    /// of the radix and reduce. Afterwards the element denotes the plain
    /// residue of the integer it held.
    #[verifier::rlimit(50)]
    pub fn nres(&mut self)
        requires
            old(self).x.is_norm(),
        ensures
            final(self).wf(),
            final(self).feval() == old(self).x.val() % prime(),
            final(self).xes == 2,
    {
        proof {
            rom::lemma_prime_shape();
            crate::big::lemma_vpre_bound(self.x.w@, NLEN as int);
        }
        let r2 = Big::r2modp();
        proof {
            lemma_mod_bound(rmont() * rmont(), prime());
            lemma_monty_guard_enter(self.x.val(), r2.val());
        }
        let mut d = Big::mul(&self.x, &r2);
        self.x = FP::modulo(&mut d);
        self.xes = 2;
        proof {
            rom::lemma_radix_value();
            lemma_redv_enter(self.x.val(), old(self).x.val());
            let xv = old(self).x.val();
            let rv = r2.val();
            assert(xv * rv < bpow(NLEN as nat) * prime()) by (nonlinear_arith)
                requires
                    0 <= xv < bpow(NLEN as nat),
                    0 <= rv < prime(),
                    prime() >= 1,
                    bpow(NLEN as nat) >= 1,
            ;
            lemma_modulo_excess(self.x.val(), xv * rv);
        }
    }


    /// Reduce a double-length integer modulo the field prime, by a full
    /// Montgomery reduction (the modulus has no special form).
    pub fn modulo(d: &mut DBig) -> (r: Big)
        requires
            old(d).is_norm(),
            old(d).val() <= bpow(NLEN as nat) * (bpow(NLEN as nat) - prime()),
        ensures
            r.is_norm(),
            (r.val() * rmont()) % prime() == old(d).val() % prime(),
            r.val() <= old(d).val() / bpow(NLEN as nat) + prime(),
    {
        let m = Big::modulus();
        proof {
            rom::lemma_mconst();
            rom::lemma_radix_value();
            crate::big::lemma_bpow_pos(NLEN as nat);
        }
        Big::monty(&m, rom::MCONST, d)
    }

    /// Leave Montgomery form: the canonical residue this element denotes.
    #[verifier::spinoff_prover]
    #[verifier::rlimit(100)]
    pub fn redc(&self) -> (r: Big)
        requires
            self.wf(),
        ensures
            r.is_norm(),
            r.val() == self.feval(),
            0 <= r.val() < prime(),
    {
        let mut d = DBig::new_scopy(&self.x);
        proof {
            rom::lemma_prime_shape();
            lemma_vpre_nonneg(self.x.w@, NLEN as int);
            crate::big::lemma_vpre_bound(self.x.w@, NLEN as int);
            lemma_monty_guard_small(self.x.val());
        }
        let t = FP::modulo(&mut d);
        proof {
            lemma_redc_bound(t.val(), self.x.val());
        }
        let mut f = FP { x: t, xes: 2 };
        f.reduce();
        proof {
            crate::arith::lemma_monty_exit(t.val(), self.x.val());
        }
        f.x
    }

    /// Fully reduce: afterwards the stored integer is the canonical
    /// residue and the excess is one.
    pub fn reduce(&mut self)
        requires
            old(self).x.is_norm(),
            1 <= old(self).xes <= 0x8000,
            old(self).x.val() < old(self).xes * prime(),
        ensures
            final(self).wf(),
            final(self).xes == 1,
            final(self).x.val() == old(self).x.val() % prime(),
            final(self).feval() == old(self).feval(),
    {
        proof {
            rom::lemma_prime_shape();
            lemma_vpre_nonneg(old(self).x.w@, NLEN as int);
        }
        // the smallest power of two covering the excess
        let mut sb: usize = 0;
        let mut w: u64 = 1;
        while w < self.xes as u64
            invariant
                self == old(self),
                1 <= self.xes <= 0x8000,
                1 <= w <= 0x8000,
                w == pow2s(sb as nat),
                sb <= 15,
            decreases 0x20000000int - w,
        {
            proof {
                lemma_pow2s_cap(sb as nat);
            }
            w = w * 2;
            sb = sb + 1;
        }
        let mut m = Big::modulus();
        proof {
            lemma_scale_within(w as int, prime());
            lemma_mul_inequality(old(self).xes as int, w as int, prime());
        }
        m.pmul(w);
        // conditional-subtraction ladder: from p·2^sb down to p
        let mut r = Big::new();
        let mut k: usize = 0;
        while k < sb
            invariant
                sb <= 28,
                k <= sb,
                self.x.is_norm(),
                m.is_norm(),
                m.val() == prime() * pow2s((sb - k) as nat),
                self.x.val() < m.val(),
                self.x.val() % prime() == old(self).x.val() % prime(),
                self.xes == old(self).xes,
            decreases sb - k,
        {
            let ghost mv = m.val();
            let sr = Big::ssn(&mut r, &self.x, &mut m);
            self.x.cmove(&r, 1 - sr);
            proof {
                lemma_pow2s_halves((sb - k) as nat);
                if sr == 0 {
                    // a multiple of the prime was subtracted
                    lemma_sub_multiple(old(self).x.val(), self.x.val() + m.val(), m.val(),
                        pow2s((sb - k - 1) as nat));
                }
            }
            k = k + 1;
        }
        self.xes = 1;
        proof {
            assert(pow2s(0) == 1);
            lemma_vpre_nonneg(self.x.w@, NLEN as int);
            lemma_small_mod(self.x.val() as nat, prime() as nat);
            lemma_redv_congruence(self.x.val(), old(self).x.val());
        }
    }
}

/// The product guard for entering Montgomery form: a fixed-width value
/// times the reduced square of the radix fits the reduction bound.
proof fn lemma_monty_guard_enter(xv: int, r2: int)
    requires
        0 <= xv < bpow(NLEN as nat),
        0 <= r2 < prime(),
    ensures
        xv * r2 <= bpow(NLEN as nat) * (bpow(NLEN as nat) - prime()),
{
    rom::lemma_prime_shape();
    let rr = bpow(NLEN as nat);
    lemma_bpow_pos(NLEN as nat);
    assert(xv * r2 <= rr * prime()) by (nonlinear_arith)
        requires
            0 <= xv < rr,
            0 <= r2 < prime(),
            rr >= 1,
    ;
    assert(rr * prime() <= rr * (rr - prime())) by (nonlinear_arith)
        requires
            2 * prime() <= rr,
            rr >= 1,
    ;
    assert(2 * prime() <= rr) by {
        rom::lemma_prime_shape();
    }
}

/// A single-width value is within the reduction bound.
proof fn lemma_monty_guard_small(xv: int)
    requires
        0 <= xv < bpow(NLEN as nat),
    ensures
        xv <= bpow(NLEN as nat) * (bpow(NLEN as nat) - prime()),
{
    rom::lemma_prime_shape();
    let rr = bpow(NLEN as nat);
    assert(rr <= rr * (rr - prime())) by (nonlinear_arith)
        requires
            2 * prime() <= rr,
            prime() >= 1,
            rr >= 1,
    ;
    assert(2 * prime() <= rr) by {
        rom::lemma_prime_shape();
    }
}

/// The reduction output of a product bounded by the excess budget has an
/// excess of two.
proof fn lemma_modulo_excess(rv: int, dv: int)
    requires
        0 <= dv,
        dv < bpow(NLEN as nat) * prime(),
        rv <= dv / bpow(NLEN as nat) + prime(),
    ensures
        rv < 2 * prime(),
{
    let rr = bpow(NLEN as nat);
    lemma_bpow_pos(NLEN as nat);
    rom::lemma_prime_shape();
    lemma_fundamental_div_mod(dv, rr);
    assert(dv / rr < prime()) by (nonlinear_arith)
        requires
            dv == rr * (dv / rr) + dv % rr,
            0 <= dv % rr,
            dv < rr * prime(),
            rr >= 1,
    ;
}

/// The smallest power of two at least the argument (one for arguments
/// below two): the scale by which negation shifts the modulus.
pub open spec fn xes_cover(x: int) -> int
    decreases (if x <= 1 { 1int } else { x }),
{
    if x <= 1 {
        1
    } else {
        2 * xes_cover((x + 1) / 2)
    }
}

/// The excess after negation: twice the covering power of two, or one
/// when the eager reduction fires.
pub open spec fn neg_xes(x: int) -> int {
    if 2 * xes_cover(x) > 0x3fff {
        1
    } else {
        2 * xes_cover(x)
    }
}

/// The excess after addition: the sum of the operand excesses, or one
/// when the eager reduction fires.
pub open spec fn add_xes(x: int, y: int) -> int {
    if x + y > 0x3fff {
        1
    } else {
        x + y
    }
}

/// The excess after a small-integer multiplication: the scaled excess
/// when it fits the budget, two after the fallback full multiplication,
/// then the negation transform for a negative multiplier.
pub open spec fn imul_xes(x: int, c: int) -> int {
    let cc = if c < 0 {
        -c
    } else {
        c
    };
    let base = if cc == 0 {
        1int
    } else if x * cc <= 0x3fff {
        x * cc
    } else {
        2int
    };
    if c < 0 {
        neg_xes(base)
    } else {
        base
    }
}

/// A power of two bracketing the argument is its cover.
proof fn lemma_cover_from_bounds(x: int, n: nat)
    requires
        1 <= x,
        pow2s(n) >= x,
        n == 0 || pow2s((n - 1) as nat) < x,
    ensures
        xes_cover(x) == pow2s(n),
    decreases n,
{
    if n == 0 {
    } else {
        crate::big::lemma_pow2s_pos((n - 1) as nat);
        let h = (x + 1) / 2;
        assert(pow2s(n) == 2 * pow2s((n - 1) as nat));
        let k = pow2s((n - 1) as nat);
        // the half is bracketed by the next power down
        assert(h <= k) by {
            vstd::arithmetic::div_mod::lemma_div_is_ordered(x + 1, 2 * k + 1, 2);
            vstd::arithmetic::div_mod::lemma_fundamental_div_mod_converse(2 * k + 1, 2, k, 1);
        }
        assert(x >= 2) by {
            if x <= 1 {
                assert(pow2s((n - 1) as nat) < 1);
            }
        }
        assert(h >= 1) by {
            vstd::arithmetic::div_mod::lemma_div_is_ordered(3, x + 1, 2);
            vstd::arithmetic::div_mod::lemma_fundamental_div_mod_converse(3, 2, 1, 1);
        }
        if n >= 2 {
            let m = pow2s((n - 2) as nat);
            assert(k == 2 * m);
            assert(m < h) by {
                vstd::arithmetic::div_mod::lemma_div_is_ordered(2 * m + 2, x + 1, 2);
                vstd::arithmetic::div_mod::lemma_fundamental_div_mod_converse(
                    2 * m + 2,
                    2,
                    m + 1,
                    0,
                );
            }
        }
        lemma_cover_from_bounds(h, (n - 1) as nat);
    }
}

/// A power of two below the negation budget doubles within it.
proof fn lemma_pow2s_cap_small(n: nat)
    requires
        pow2s(n) < 0x4000,
    ensures
        n <= 13,
        pow2s(n) <= 0x2000,
        2 * pow2s(n) == pow2s((n + 1) as nat),
        2 * pow2s(n) <= 0x4000,
{
    if n >= 14 {
        crate::big::lemma_pow2s_le(14, n);
        assert(pow2s(14) == 0x4000) by {
            reveal_with_fuel(pow2s, 15);
        }
    }
    crate::big::lemma_pow2s_le(n, 13);
    assert(pow2s(13) == 0x2000) by {
        reveal_with_fuel(pow2s, 14);
    }
}

/// A power of two below the excess budget doubles within it.
proof fn lemma_pow2s_cap(n: nat)
    requires
        pow2s(n) < 0x8000,
    ensures
        n <= 14,
        pow2s(n) <= 0x4000,
        2 * pow2s(n) == pow2s((n + 1) as nat),
        2 * pow2s(n) <= 0x8000,
{
    if n >= 15 {
        crate::big::lemma_pow2s_le(15, n);
        assert(pow2s(15) == 0x8000) by {
            reveal_with_fuel(pow2s, 16);
        }
    }
    crate::big::lemma_pow2s_le(n, 14);
    assert(pow2s(14) == 0x4000) by {
        reveal_with_fuel(pow2s, 15);
    }
}

/// A power-of-two multiple of the prime within the budget fits the width.
proof fn lemma_scale_within(w: int, p: int)
    requires
        1 <= w <= 0x8000,
        p == prime(),
    ensures
        p * w < bpow(NLEN as nat),
        w < 0x20000000,
{
    rom::lemma_prime_shape();
    assert(p * w <= 0x8000 * p) by (nonlinear_arith)
        requires
            1 <= w <= 0x8000,
            p >= 1,
    ;
}

/// Halving an even power-of-two multiple of the prime.
proof fn lemma_pow2s_halves(j: nat)
    requires
        j >= 1,
    ensures
        (prime() * pow2s(j)) / 2 == prime() * pow2s((j - 1) as nat),
        prime() * pow2s(j) == 2 * (prime() * pow2s((j - 1) as nat)),
{
    assert(pow2s(j) == 2 * pow2s((j - 1) as nat));
    assert(prime() * (2 * pow2s((j - 1) as nat)) == 2 * (prime() * pow2s((j - 1) as nat)))
        by (nonlinear_arith);
    let h = prime() * pow2s((j - 1) as nat);
    vstd::arithmetic::div_mod::lemma_fundamental_div_mod_converse(2 * h, 2, h, 0);
}

/// Subtracting a power-of-two multiple of the prime keeps the residue.
proof fn lemma_sub_multiple(origv: int, before: int, sub: int, twopow: int)
    requires
        sub == prime() * twopow,
        before % prime() == origv % prime(),
    ensures
        (before - sub) % prime() == origv % prime(),
{
    lemma_mod_multiples_vanish(-twopow, before, prime());
    assert(prime() * (-twopow) + before == before - sub) by (nonlinear_arith)
        requires
            sub == prime() * twopow,
    ;
}

impl FP {
    /// Overwrite this element with `b`.
    pub fn copy(&mut self, b: &FP)
        ensures
            *final(self) == *b,
    {
        self.x = b.x;
        self.xes = b.xes;
    }

    /// Overwrite with a plain integer, converting to Montgomery form.
    pub fn bcopy(&mut self, b: &Big)
        requires
            b.is_norm(),
        ensures
            final(self).wf(),
            final(self).feval() == b.val() % prime(),
    {
        self.x.copy(b);
        self.nres();
    }

    /// Set to zero.
    pub fn zero(&mut self)
        ensures
            final(self).wf(),
            final(self).feval() == 0,
            final(self).xes == 1,
    {
        self.x.zero();
        self.xes = 1;
        proof {
            rom::lemma_prime_shape();
            lemma_small_mod(0, prime() as nat);
        }
    }

    /// Set to one.
    pub fn one(&mut self)
        ensures
            final(self).wf(),
            final(self).feval() == 1,
            final(self).xes == 2,
    {
        self.x.one();
        proof {
            rom::lemma_prime_shape();
        }
        self.nres();
        proof {
            lemma_small_mod(1, prime() as nat);
        }
    }

    /// Renormalise the stored limbs (the value is unchanged).
    pub fn norm(&mut self)
        requires
            old(self).wf(),
        ensures
            final(self).wf(),
            final(self).feval() == old(self).feval(),
            final(self).xes == old(self).xes,
    {
        proof {
            rom::lemma_prime_shape();
            lemma_vpre_nonneg(old(self).x.w@, NLEN as int);
            lemma_excess_fits(old(self).x.val(), old(self).xes as int);
        }
        self.x.norm();
    }

    /// Whether this element is the zero residue.
    pub fn iszilch(&self) -> (r: bool)
        requires
            self.wf(),
        ensures
            r <==> self.feval() == 0,
    {
        let mut a = FP::new_copy(self);
        a.reduce();
        let z = a.x.iszilch();
        proof {
            rom::lemma_prime_shape();
            lemma_redv_congruence(self.x.val(), 0);
            lemma_small_mod(0, prime() as nat);
            lemma_mod_bound(self.x.val(), prime());
            lemma_small_mod((self.x.val() % prime()) as nat, prime() as nat);
        }
        z
    }

    /// Whether two elements denote the same field residue.
    pub fn equals(&self, a: &FP) -> (r: bool)
        requires
            self.wf(),
            a.wf(),
        ensures
            r <==> self.feval() == a.feval(),
    {
        let mut f = FP::new_copy(self);
        let mut s = FP::new_copy(a);
        f.reduce();
        s.reduce();
        let c = Big::comp(&f.x, &s.x);
        proof {
            lemma_redv_congruence(self.x.val(), a.x.val());
        }
        c == 0
    }

    /// Constant-time conditional assignment from `b` when `d` is one.
    pub fn cmove(&mut self, b: &FP, d: i64)
        requires
            d == 0 || d == 1,
            old(self).wf(),
            b.wf(),
        ensures
            final(self).wf(),
            final(self).x.w@ == (if d == 1 { b.x.w@ } else { old(self).x.w@ }),
            final(self).xes == (if d == 1 { b.xes } else { old(self).xes }),
            final(self).feval() == (if d == 1 { b.feval() } else { old(self).feval() }),
            final(self).wf() == (if d == 1 { b.wf() } else { old(self).wf() }),
    {
        self.x.cmove(&b.x, d as u64);
        proof {
            lemma_select_bounds(self.xes as int, b.xes as int, (d as i32) as int);
        }
        self.xes = self.xes * (1 - d as i32) + b.xes * (d as i32);
        proof {
            let xo = old(self).xes as int;
            let bx = b.xes as int;
            let di = (d as i32) as int;
            assert(self.xes == xo * (1 - di) + bx * di);
            assert(di == 0 ==> xo * (1 - di) + bx * di == xo) by (nonlinear_arith);
            assert(di == 1 ==> xo * (1 - di) + bx * di == bx) by (nonlinear_arith);
        }
    }

    /// Constant-time conditional swap with `b` when `d` is one.
    pub fn cswap(&mut self, b: &mut FP, d: i64)
        requires
            d == 0 || d == 1,
            old(self).wf(),
            old(b).wf(),
        ensures
            final(self).wf(),
            final(b).wf(),
            d == 1 ==> final(self).x.w@ == old(b).x.w@ && final(b).x.w@ == old(self).x.w@
                && final(self).xes == old(b).xes && final(b).xes == old(self).xes,
            d == 0 ==> final(self).x.w@ == old(self).x.w@ && final(b).x.w@ == old(b).x.w@
                && final(self).xes == old(self).xes && final(b).xes == old(b).xes,
            d == 1 ==> final(self).feval() == old(b).feval() && final(b).feval() == old(
                self,
            ).feval(),
            d == 0 ==> final(self).feval() == old(self).feval() && final(b).feval() == old(
                b,
            ).feval(),
    {
        self.x.cswap(&mut b.x, d as u64);
        proof {
            lemma_select_bounds(self.xes as int, b.xes as int, (d as i32) as int);
            lemma_select_bounds(b.xes as int, self.xes as int, (d as i32) as int);
        }
        let t = self.xes * (1 - d as i32) + b.xes * (d as i32);
        b.xes = b.xes * (1 - d as i32) + self.xes * (d as i32);
        self.xes = t;
        proof {
            let xo = old(self).xes as int;
            let bo = old(b).xes as int;
            let di = (d as i32) as int;
            assert(self.xes == xo * (1 - di) + bo * di);
            assert(b.xes == bo * (1 - di) + xo * di);
            assert(di == 0 ==> xo * (1 - di) + bo * di == xo && bo * (1 - di) + xo * di == bo)
                by (nonlinear_arith);
            assert(di == 1 ==> xo * (1 - di) + bo * di == bo && bo * (1 - di) + xo * di == xo)
                by (nonlinear_arith);
        }
    }

    /// Field multiplication. If the combined excess would exceed the
    /// budget, this element is reduced first; the output excess is two.
    pub fn mul(&mut self, b: &FP)
        requires
            old(self).wf(),
            b.wf(),
        ensures
            final(self).wf(),
            final(self).xes == 2,
            final(self).feval() == fmul(old(self).feval(), b.feval()),
    {
        proof {
            rom::lemma_prime_shape();
            lemma_excess_product(self.xes as int, b.xes as int);
        }
        if (self.xes as i64) * (b.xes as i64) > FEXCESS as i64 {
            self.reduce();
        }
        proof {
            lemma_excess_product(self.xes as int, b.xes as int);
        }
        proof {
            lemma_vpre_nonneg(self.x.w@, NLEN as int);
            lemma_vpre_nonneg(b.x.w@, NLEN as int);
            lemma_mul_guard(self.x.val(), self.xes as int, b.x.val(), b.xes as int);
        }
        let ghost xv = self.x.val();
        let mut d = Big::mul(&self.x, &b.x);
        let ghost dv = d.val();
        self.x = FP::modulo(&mut d);
        self.xes = 2;
        proof {
            lemma_redv_mul(self.x.val(), xv, b.x.val());
            lemma_modulo_excess(self.x.val(), dv);
        }
    }

    /// Field squaring.
    pub fn sqr(&mut self)
        requires
            old(self).wf(),
        ensures
            final(self).wf(),
            final(self).xes == 2,
            final(self).feval() == fmul(old(self).feval(), old(self).feval()),
    {
        proof {
            rom::lemma_prime_shape();
            lemma_excess_product(self.xes as int, self.xes as int);
        }
        if (self.xes as i64) * (self.xes as i64) > FEXCESS as i64 {
            self.reduce();
        }
        proof {
            lemma_excess_product(self.xes as int, self.xes as int);
        }
        proof {
            lemma_vpre_nonneg(self.x.w@, NLEN as int);
            lemma_mul_guard(self.x.val(), self.xes as int, self.x.val(), self.xes as int);
        }
        let ghost xv = self.x.val();
        let mut d = Big::sqr(&self.x);
        let ghost dv = d.val();
        self.x = FP::modulo(&mut d);
        self.xes = 2;
        proof {
            lemma_redv_mul(self.x.val(), xv, xv);
            lemma_modulo_excess(self.x.val(), dv);
        }
    }

    /// Field addition: the excesses add, and a reduction fires when the
    /// budget is exceeded.
    pub fn add(&mut self, b: &FP)
        requires
            old(self).wf(),
            b.wf(),
        ensures
            final(self).wf(),
            final(self).feval() == fadd(old(self).feval(), b.feval()),
            final(self).xes == (if old(self).xes + b.xes > FEXCESS {
                1
            } else {
                old(self).xes + b.xes
            }),
    {
        proof {
            rom::lemma_prime_shape();
            lemma_vpre_nonneg(self.x.w@, NLEN as int);
            lemma_vpre_nonneg(b.x.w@, NLEN as int);
            lemma_add_guard(self.x.val(), self.xes as int, b.x.val(), b.xes as int);
        }
        self.x.add(&b.x);
        self.xes = self.xes + b.xes;
        proof {
            lemma_redv_add(old(self).x.val(), b.x.val());
        }
        if self.xes > FEXCESS {
            self.reduce();
        }
    }

    /// Field doubling.
    pub fn dbl(&mut self)
        requires
            old(self).wf(),
        ensures
            final(self).wf(),
            final(self).feval() == fadd(old(self).feval(), old(self).feval()),
            final(self).xes == (if old(self).xes + old(self).xes > FEXCESS {
                1
            } else {
                old(self).xes + old(self).xes
            }),
    {
        let b = FP::new_copy(self);
        self.add(&b);
    }

    /// Field negation: the result is a power-of-two multiple of the
    /// modulus minus the value.
    pub fn neg(&mut self)
        requires
            old(self).wf(),
        ensures
            final(self).wf(),
            final(self).feval() == fneg(old(self).feval()),
            final(self).xes == neg_xes(old(self).xes as int),
    {
        proof {
            rom::lemma_prime_shape();
            lemma_vpre_nonneg(old(self).x.w@, NLEN as int);
        }
        let mut sb: usize = 0;
        let mut w: u64 = 1;
        while w < self.xes as u64
            invariant
                self == old(self),
                1 <= self.xes <= 0x3fff,
                1 <= w <= 0x4000,
                w == pow2s(sb as nat),
                sb <= 14,
                sb == 0 || pow2s((sb - 1) as nat) < self.xes,
            decreases 0x20000000int - w,
        {
            proof {
                lemma_pow2s_cap_small(sb as nat);
            }
            w = w * 2;
            sb = sb + 1;
        }
        proof {
            lemma_cover_from_bounds(old(self).xes as int, sb as nat);
        }
        let mut m = Big::modulus();
        proof {
            lemma_scale_within(w as int, prime());
            lemma_mul_inequality(self.xes as int, w as int, prime());
        }
        m.pmul(w);
        self.x.rsub(&m);
        self.xes = (2 * w) as i32;
        proof {
            lemma_redv_neg(old(self).x.val(), w as int);
            let ov = old(self).x.val();
            assert(m.val() - ov < (2 * w) * prime()) by (nonlinear_arith)
                requires
                    m.val() == prime() * (w as int),
                    ov >= 0,
                    prime() >= 1,
                    w >= 1,
            ;
        }
        if self.xes > FEXCESS {
            self.reduce();
        }
    }

    /// Field subtraction.
    pub fn sub(&mut self, b: &FP)
        requires
            old(self).wf(),
            b.wf(),
        ensures
            final(self).wf(),
            final(self).feval() == fsub(old(self).feval(), b.feval()),
            final(self).xes == add_xes(old(self).xes as int, neg_xes(b.xes as int)),
    {
        let mut n = FP::new_copy(b);
        n.neg();
        self.add(&n);
        proof {
            crate::arith::lemma_fsub_is_add_neg(old(self).feval(), b.feval());
        }
    }

    /// Reverse subtraction: this element becomes `b` minus it.
    pub fn rsub(&mut self, b: &FP)
        requires
            old(self).wf(),
            b.wf(),
        ensures
            final(self).wf(),
            final(self).feval() == fsub(b.feval(), old(self).feval()),
            final(self).xes == add_xes(neg_xes(old(self).xes as int), b.xes as int),
    {
        self.neg();
        self.add(b);
        proof {
            crate::arith::lemma_fsub_is_add_neg(b.feval(), old(self).feval());
        }
    }

    /// Multiply by a small signed integer (anything below the radix).
    pub fn imul(&mut self, c: i64)
        requires
            old(self).wf(),
            -0x10000000 < c < 0x10000000,
        ensures
            final(self).wf(),
            final(self).feval() == (old(self).feval() * c) % prime(),
            final(self).xes == imul_xes(old(self).xes as int, c as int),
    {
        proof {
            rom::lemma_prime_shape();
        }
        let mut cc = c;
        let mut s = false;
        if cc < 0 {
            cc = -cc;
            s = true;
        }
        proof {
            lemma_imul_guard_product(self.xes as int, cc as int);
        }
        let ghost a0 = self.feval();
        if cc == 0 {
            self.zero();
            proof {
                assert(a0 * 0 == 0) by (nonlinear_arith);
                lemma_small_mod(0, prime() as nat);
            }
        } else if (self.xes as i64) * cc <= FEXCESS as i64 {
            proof {
                lemma_vpre_nonneg(self.x.w@, NLEN as int);
                lemma_pmul_guard(self.x.val(), self.xes as int, cc as int);
            }
            self.x.pmul(cc as u64);
            self.xes = self.xes * (cc as i32);
            proof {
                lemma_redv_scale(old(self).x.val(), cc as int);
            }
        } else {
            let n = FP::new_int(cc);
            self.mul(&n);
            proof {
                lemma_mul_mod_noop_general(a0, cc as int, prime());
            }
        }
        if s {
            self.neg();
            proof {
                vstd::arithmetic::div_mod::lemma_sub_mod_noop(0, a0 * cc, prime());
                lemma_small_mod(0, prime() as nat);
                assert(0 - a0 * cc == a0 * c) by (nonlinear_arith)
                    requires
                        c == -cc,
                ;
            }
        }
    }

    /// Field halving.
    pub fn div2(&mut self)
        requires
            old(self).wf(),
        ensures
            final(self).wf(),
            fadd(final(self).feval(), final(self).feval()) == old(self).feval(),
            final(self).xes == old(self).xes,
    {
        proof {
            rom::lemma_prime_shape();
            lemma_vpre_nonneg(old(self).x.w@, NLEN as int);
        }
        if self.x.parity() == 0 {
            let ghost v = self.x.val();
            self.x.fshr1();
            proof {
                lemma_redv_double(self.x.val(), v, 0);
                lemma_half_excess(self.x.val(), v, self.xes as int);
            }
        } else {
            let p = Big::modulus();
            let ghost v = self.x.val();
            proof {
                assert(prime() < 2 * prime());
                lemma_add_guard(self.x.val(), self.xes as int, prime(), 2);
                assert(v + prime() < (self.xes as int + 1) * prime()) by (nonlinear_arith)
                    requires
                        v < (self.xes as int) * prime(),
                ;
            }
            self.x.add(&p);
            let ghost vp = self.x.val();
            self.x.fshr1();
            proof {
                vstd::arithmetic::div_mod::lemma_add_mod_noop(v, prime(), 2);
                assert(vp % 2 == 0);
                assert(2 * self.x.val() == v + 1 * prime());
                lemma_redv_double(self.x.val(), v, 1);
                lemma_half_of_double(self.x.val(), self.xes as int);
            }
        }
    }
}

/// The reduction of a single-width value is below twice the prime.
proof fn lemma_redc_bound(rv: int, xv: int)
    requires
        0 <= xv < bpow(NLEN as nat),
        rv <= xv / bpow(NLEN as nat) + prime(),
    ensures
        rv < 2 * prime(),
{
    rom::lemma_prime_shape();
    lemma_bpow_pos(NLEN as nat);
    vstd::arithmetic::div_mod::lemma_basic_div(xv, bpow(NLEN as nat));
}

/// The excess-times-multiplier product stays far within a wide word.
proof fn lemma_imul_guard_product(a: int, b: int)
    requires
        1 <= a <= 0x3fff,
        0 <= b < 0x10000000,
    ensures
        0 <= a * b < 0x4000000000000,
{
    assert(0 <= a * b < 0x4000000000000) by (nonlinear_arith)
        requires
            1 <= a <= 0x3fff,
            0 <= b < 0x10000000,
    ;
}

/// An arithmetic one-bit selection of excess counters stays in range.
proof fn lemma_select_bounds(a: int, b: int, di: int)
    requires
        di == 0 || di == 1,
        1 <= a <= 0x3fff,
        1 <= b <= 0x3fff,
    ensures
        0 <= a * (1 - di) <= 0x3fff,
        0 <= b * di <= 0x3fff,
        1 <= a * (1 - di) + b * di <= 0x3fff,
{
    assert(0 <= a * (1 - di) <= 0x3fff && 0 <= b * di <= 0x3fff && 1 <= a * (1 - di) + b * di
        <= 0x3fff) by (nonlinear_arith)
        requires
            di == 0 || di == 1,
            1 <= a <= 0x3fff,
            1 <= b <= 0x3fff,
    ;
}

/// Products of small excess counters stay far within a wide word.
proof fn lemma_excess_product(a: int, b: int)
    requires
        -0x8000 <= a <= 0x8000,
        -0x8000 <= b <= 0x8000,
    ensures
        -0x40000000 <= a * b <= 0x40000000,
{
    assert(-0x40000000 <= a * b <= 0x40000000) by (nonlinear_arith)
        requires
            -0x8000 <= a <= 0x8000,
            -0x8000 <= b <= 0x8000,
    ;
}

/// A value within the excess budget fits the fixed width.
proof fn lemma_excess_fits(v: int, xes: int)
    requires
        0 <= v,
        v < xes * prime(),
        1 <= xes <= 0x8000,
    ensures
        v < bpow(NLEN as nat),
{
    rom::lemma_prime_shape();
    assert(xes * prime() <= 0x8000 * prime()) by (nonlinear_arith)
        requires
            xes <= 0x8000,
            prime() >= 1,
    ;
}

/// The product guard: two excess-bounded values multiply within the
/// Montgomery reduction bound.
proof fn lemma_mul_guard(xv: int, xs: int, bv: int, bs: int)
    requires
        0 <= xv < xs * prime(),
        0 <= bv < bs * prime(),
        1 <= xs,
        1 <= bs,
        xs * bs <= 0x3fff,
    ensures
        xv * bv <= bpow(NLEN as nat) * (bpow(NLEN as nat) - prime()),
        xv * bv < bpow(NLEN as nat) * prime(),
        0 <= xv * bv,
{
    rom::lemma_prime_shape();
    let p = prime();
    let rr = bpow(NLEN as nat);
    lemma_mul_nonnegative(xv, bv);
    assert(xv * bv < (xs * bs) * (p * p)) by (nonlinear_arith)
        requires
            0 <= xv < xs * p,
            0 <= bv < bs * p,
            1 <= xs,
            1 <= bs,
            p >= 1,
    ;
    assert((xs * bs) * (p * p) <= 0x3fff * (p * p)) by (nonlinear_arith)
        requires
            xs * bs <= 0x3fff,
            p >= 1,
    ;
    assert(0x3fff * (p * p) < 0x4000 * (p * p)) by (nonlinear_arith)
        requires
            p >= 1,
    ;
    assert(0x4000 * (p * p) < rr * p) by (nonlinear_arith)
        requires
            0x8000 * p < rr,
            p >= 1,
    ;
    assert(rr * p <= rr * (rr - p)) by (nonlinear_arith)
        requires
            0x8000 * p < rr,
            p >= 1,
            rr >= 1,
    ;
}

/// The addition guard: the sum of two excess-bounded values fits the
/// fixed width.
proof fn lemma_add_guard(xv: int, xs: int, bv: int, bs: int)
    requires
        0 <= xv < xs * prime(),
        0 <= bv < bs * prime(),
        1 <= xs <= 0x4000,
        1 <= bs <= 0x4000,
    ensures
        xv + bv < bpow(NLEN as nat),
        xv + bv < (xs + bs) * prime(),
{
    rom::lemma_prime_shape();
    let p = prime();
    assert(xs * p + bs * p == (xs + bs) * p) by (nonlinear_arith);
    assert((xs + bs) * p <= 0x8000 * p) by (nonlinear_arith)
        requires
            xs + bs <= 0x8000,
            p >= 1,
    ;
}

/// The small-multiple guard: a scaled excess-bounded value fits the
/// fixed width.
proof fn lemma_pmul_guard(xv: int, xs: int, c: int)
    requires
        0 <= xv < xs * prime(),
        1 <= xs,
        1 <= c,
        xs * c <= 0x3fff,
    ensures
        xv * c < bpow(NLEN as nat),
        xv * c < (xs * c) * prime(),
        0 <= xv * c,
{
    rom::lemma_prime_shape();
    let p = prime();
    lemma_mul_nonnegative(xv, c);
    assert(xv * c < (xs * c) * p) by (nonlinear_arith)
        requires
            0 <= xv < xs * p,
            1 <= c,
            p >= 1,
    ;
    assert((xs * c) * p <= 0x3fff * p) by (nonlinear_arith)
        requires
            xs * c <= 0x3fff,
            p >= 1,
    ;
    assert(0x3fff * p < 0x8000 * p) by (nonlinear_arith)
        requires
            p >= 1,
    ;
}

/// Scaling in Montgomery form scales the residue.
proof fn lemma_redv_scale(av: int, c: int)
    ensures
        redv(av * c) == (redv(av) * c) % prime(),
{
    let p = prime();
    let ri = crate::arith::rinv();
    assert(av * c * ri == (av * ri) * c) by (nonlinear_arith);
    lemma_mul_mod_noop_general(av * ri, c, p);
    lemma_mul_mod_noop_general(redv(av), c, p);
    lemma_mod_bound(av * ri, p);
    lemma_small_mod(((av * ri) % p) as nat, p as nat);
}

/// A half of an excess-bounded value keeps the excess.
proof fn lemma_half_excess(h: int, v: int, xs: int)
    requires
        2 * h == v || 2 * h + 1 == v,
        0 <= v < xs * prime(),
    ensures
        h < xs * prime(),
        h >= 0,
{
}

/// Halving after adding one modulus stays within the original excess.
proof fn lemma_half_of_double(h: int, xs: int)
    requires
        2 * h < (xs + 1) * prime(),
        xs >= 1,
    ensures
        h < xs * prime(),
{
    assert((xs + 1) * prime() <= 2 * (xs * prime())) by (nonlinear_arith)
        requires
            xs >= 1,
            prime() >= 1,
    ;
}

impl FP {
    /// Raise to the power of a fixed-width exponent, by a constant-time
    /// 4-bit windowed ladder: a table of the first sixteen powers is built,
    /// the exponent is recoded into 102 nibbles, and the result is
    /// accumulated from the top nibble down by four squarings and one
    /// table multiplication per nibble.
    pub fn pow(&mut self, e: &Big) -> (r: FP)
        requires
            old(self).wf(),
            e.is_norm(),
        ensures
            final(self).wf(),
            final(self).feval() == old(self).feval(),
            r.wf(),
            r.xes == 1,
            r.feval() == crate::arith::fpow(old(self).feval(), e.val() as nat),
    {
        proof {
            rom::lemma_prime_shape();
        }
        self.norm();
        proof {
            lemma_vpre_nonneg(e.w@, NLEN as int);
            crate::big::lemma_vpre_bound(e.w@, NLEN as int);
        }
        let digits = FP::recode_nibbles(e);
        let tb = self.power_table();
        let mut r = FP::window_ladder(&tb, &digits, Ghost(self.feval()), Ghost(e.val()));
        r.reduce();
        r
    }

    /// Recode a fixed-width exponent into 102 nibbles, lowest first.
    pub(crate) fn recode_nibbles(e: &Big) -> (digits: [u64; 102])
        requires
            e.is_norm(),
        ensures
            forall|j: int|
                0 <= j < 102 ==> digits@[j] == (e.val() / pow2s((4 * j) as nat)) % 16,
            forall|j: int| 0 <= j < 102 ==> digits@[j] < 16,
    {
        let ghost ev = e.val();
        let mut t = Big::new_copy(e);
        let mut digits: [u64; 102] = [0u64; 102];
        proof {
            lemma_vpre_nonneg(e.w@, NLEN as int);
            assert(pow2s(0) == 1);
        }
        for i in 0..102
            invariant
                t.is_norm(),
                ev >= 0,
                ev == e.val(),
                t.val() == ev / pow2s((4 * i) as nat),
                forall|j: int|
                    0 <= j < i ==> digits@[j] == (ev / pow2s((4 * j) as nat)) % 16,
                forall|j: int| 0 <= j < i ==> digits@[j] < 16,
        {
            let d = t.lastbits(4);
            digits[i] = d;
            t.fshr(4);
            proof {
                assert(pow2s(4) == 16) by {
                    reveal_with_fuel(pow2s, 5);
                }
                crate::big::lemma_pow2s_pos((4 * i) as nat);
                vstd::arithmetic::div_mod::lemma_div_denominator(ev, pow2s((4 * i) as nat), 16);
                crate::big::lemma_pow2s_adds((4 * i) as nat, 4);
            }
        }
        digits
    }

    /// The table of the first sixteen powers of this element.
    fn power_table(&self) -> (tb: [FP; 16])
        requires
            self.wf(),
        ensures
            forall|j: int| 0 <= j < 16 ==> #[trigger] tb@[j].wf(),
            forall|j: int|
                0 <= j < 16 ==> #[trigger] tb@[j].feval() == crate::arith::fpow(
                    self.feval(),
                    j as nat,
                ),
    {
        proof {
            rom::lemma_prime_shape();
        }
        let ghost xv = self.feval();
        let mut tb: [FP; 16] = [FP::new(); 16];
        let mut unit = FP::new();
        unit.one();
        tb[0] = unit;
        tb[1] = FP::new_copy(self);
        proof {
            assert(crate::arith::fpow(xv, 0) == 1) by {
                lemma_small_mod(1, prime() as nat);
            }
            lemma_fpow_one(xv);
        }
        let mut k: usize = 2;
        while k < 16
            invariant
                2 <= k <= 16,
                self.wf(),
                xv == self.feval(),
                forall|j: int| 0 <= j < k ==> #[trigger] tb@[j].wf(),
                forall|j: int|
                    0 <= j < k ==> #[trigger] tb@[j].feval() == crate::arith::fpow(xv, j as nat),
            decreases 16 - k,
        {
            let mut c = FP::new_copy(&tb[k - 1]);
            c.mul(self);
            tb[k] = c;
            proof {
                lemma_fpow_step(xv, (k - 1) as nat);
            }
            k = k + 1;
        }
        tb
    }

    /// Accumulate the windowed power from the top nibble down.
    fn window_ladder(tb: &[FP; 16], digits: &[u64; 102], xg: Ghost<int>, eg: Ghost<int>) -> (r:
        FP)
        requires
            0 <= eg@ < bpow(NLEN as nat),
            forall|j: int| 0 <= j < 16 ==> #[trigger] tb@[j].wf(),
            forall|j: int|
                0 <= j < 16 ==> #[trigger] tb@[j].feval() == crate::arith::fpow(xg@, j as nat),
            forall|j: int| 0 <= j < 102 ==> digits@[j] == (eg@ / pow2s((4 * j) as nat)) % 16,
            forall|j: int| 0 <= j < 102 ==> digits@[j] < 16,
        ensures
            r.wf(),
            r.feval() == crate::arith::fpow(xg@, eg@ as nat),
    {
        let ghost xv = xg@;
        let ghost ev = eg@;
        let top = digits[101] as usize;
        let mut r = FP::new_copy(&tb[top]);
        proof {
            lemma_top_digit(ev);
            assert(digits@[101] == (ev / pow2s((4 * 101) as nat)) % 16);
            crate::big::lemma_pow2s_pos(404);
            vstd::arithmetic::div_mod::lemma_div_pos_is_pos(ev, pow2s(404));
            lemma_small_mod((ev / pow2s(404)) as nat, 16nat);
        }
        let mut i: usize = 101;
        while i > 0
            invariant
                i <= 101,
                r.wf(),
                ev >= 0,
                forall|j: int| 0 <= j < 102 ==> digits@[j] == (ev / pow2s((4 * j) as nat)) % 16,
                forall|j: int| 0 <= j < 102 ==> digits@[j] < 16,
                forall|j: int| 0 <= j < 16 ==> #[trigger] tb@[j].wf(),
                forall|j: int|
                    0 <= j < 16 ==> #[trigger] tb@[j].feval() == crate::arith::fpow(xv, j as nat),
                r.feval() == crate::arith::fpow(xv, (ev / pow2s((4 * i) as nat)) as nat),
            decreases i,
        {
            i = i - 1;
            let ghost ehi = ev / pow2s((4 * (i + 1)) as nat);
            proof {
                crate::big::lemma_pow2s_pos((4 * (i + 1)) as nat);
                vstd::arithmetic::div_mod::lemma_div_pos_is_pos(ev, pow2s((4 * (i + 1)) as nat));
            }
            r.sqr();
            proof {
                lemma_double_pow(xv, ehi as nat);
            }
            r.sqr();
            proof {
                lemma_double_pow(xv, (2 * ehi) as nat);
            }
            r.sqr();
            proof {
                lemma_double_pow(xv, (4 * ehi) as nat);
            }
            r.sqr();
            proof {
                lemma_double_pow(xv, (8 * ehi) as nat);
            }
            let d = digits[i] as usize;
            r.mul(&tb[d]);
            proof {
                crate::big::lemma_pow2s_pos((4 * i) as nat);
                vstd::arithmetic::div_mod::lemma_div_denominator(ev, pow2s((4 * i) as nat), 16);
                crate::big::lemma_pow2s_adds((4 * i) as nat, 4);
                assert(pow2s(4) == 16) by {
                    reveal_with_fuel(pow2s, 5);
                }
                let elo = ev / pow2s((4 * i) as nat);
                vstd::arithmetic::div_mod::lemma_fundamental_div_mod(elo, 16);
                assert(elo == 16 * ehi + elo % 16);
                crate::arith::lemma_fpow_adds(xv, (16 * ehi) as nat, (elo % 16) as nat);
            }
        }
        proof {
            assert(pow2s(0) == 1);
        }
        r
    }

    /// The multiplicative inverse, constant-time by Fermat's little
    /// theorem: the value raised to `p − 2`.
    pub fn inverse(&mut self)
        requires
            old(self).wf(),
        ensures
            final(self).wf(),
            final(self).feval() == crate::arith::fpow(old(self).feval(), (prime() - 2) as nat),
    {
        let mut m2 = Big::modulus();
        m2.dec(2);
        let r = self.pow(&m2);
        self.copy(&r);
    }

    /// A square root candidate: the value raised to `(p + 1) / 4`, the
    /// Tonelli–Shanks exponent for a prime that is 3 modulo 4. The result
    /// squares back to the value exactly when the value is a quadratic
    /// residue.
    pub fn sqrt(&mut self) -> (r: FP)
        requires
            old(self).wf(),
        ensures
            final(self).wf(),
            final(self).feval() == old(self).feval(),
            r.wf(),
            r.feval() == crate::arith::fpow(old(self).feval(), ((prime() + 1) / 4) as nat),
    {
        proof {
            rom::lemma_prime_shape();
        }
        self.reduce();
        let mut q = Big::modulus();
        proof {
            crate::big::lemma_vpre_bound(q.w@, NLEN as int);
            lemma_prime_inc_fits();
        }
        q.inc(1);
        q.fshr(2);
        proof {
            assert(pow2s(2) == 4) by {
                reveal_with_fuel(pow2s, 3);
            }
        }
        self.pow(&q)
    }

    /// The Euler criterion: 0 for the zero element, 1 when the value
    /// raised to `(p − 1) / 2` is one (a quadratic residue), else −1.
    pub fn jacobi(&mut self) -> (r: i32)
        requires
            old(self).wf(),
        ensures
            final(self).wf(),
            final(self).feval() == old(self).feval(),
            r == 0 <==> old(self).feval() == 0,
            r == 1 <==> old(self).feval() != 0 && crate::arith::fpow(
                old(self).feval(),
                ((prime() - 1) / 2) as nat,
            ) == 1,
            r == -1 <==> old(self).feval() != 0 && crate::arith::fpow(
                old(self).feval(),
                ((prime() - 1) / 2) as nat,
            ) != 1,
    {
        proof {
            rom::lemma_prime_shape();
        }
        if self.iszilch() {
            return 0;
        }
        let mut q = Big::modulus();
        q.dec(1);
        q.fshr(1);
        proof {
            assert(pow2s(1) == 2) by {
                reveal_with_fuel(pow2s, 2);
            }
        }
        let s = self.pow(&q);
        let mut o = FP::new();
        o.one();
        if s.equals(&o) {
            1
        } else {
            -1
        }
    }

    /// The sign convention for serialisation: an element is *negative*
    /// when its canonical residue exceeds that of its negation.
    pub fn is_neg(&mut self) -> (r: bool)
        requires
            old(self).wf(),
        ensures
            final(self).wf(),
            final(self).feval() == old(self).feval(),
            r <==> old(self).feval() > fneg(old(self).feval()),
    {
        let mut neg_a = FP::new_copy(self);
        neg_a.neg();
        let a = self.redc();
        let b = neg_a.redc();
        let c = Big::comp(&a, &b);
        c > 0
    }
}

/// The first power is the residue of the base.
proof fn lemma_fpow_one(xv: int)
    requires
        0 <= xv < prime(),
    ensures
        crate::arith::fpow(xv, 1) == xv,
{
    reveal_with_fuel(crate::arith::fpow, 3);
    lemma_small_mod(1, prime() as nat);
    assert(crate::arith::fpow(xv, 1) == (xv * (1int % prime())) % prime());
    lemma_small_mod(xv as nat, prime() as nat);
}

/// Extending a power table by one step.
proof fn lemma_fpow_step(xv: int, k: nat)
    ensures
        fmul(crate::arith::fpow(xv, k), xv) == crate::arith::fpow(xv, (k + 1) as nat),
{
    reveal_with_fuel(crate::arith::fpow, 2);
    assert(crate::arith::fpow(xv, (k + 1) as nat) == (xv * crate::arith::fpow(xv, k)) % prime());
    assert(fmul(crate::arith::fpow(xv, k), xv) == (crate::arith::fpow(xv, k) * xv) % prime());
    assert(crate::arith::fpow(xv, k) * xv == xv * crate::arith::fpow(xv, k)) by (nonlinear_arith);
}

/// Squaring a power doubles the exponent.
proof fn lemma_double_pow(xv: int, k: nat)
    ensures
        fmul(crate::arith::fpow(xv, k), crate::arith::fpow(xv, k)) == crate::arith::fpow(
            xv,
            (2 * k) as nat,
        ),
{
    crate::arith::lemma_fpow_adds(xv, k, k);
}

/// A fixed-width exponent has at most 102 nibbles: its top nibble is the
/// whole remaining quotient.
pub(crate) proof fn lemma_top_digit(ev: int)
    requires
        0 <= ev < bpow(NLEN as nat),
    ensures
        ev / pow2s(404) < 16,
{
    crate::big::lemma_pow2s_pos(404);
    assert(bpow(NLEN as nat) == pow2s(404) * 4) by {
        lemma_bpow_is_pow2s(NLEN as nat);
        crate::big::lemma_pow2s_adds(404, 2);
        assert(pow2s(2) == 4) by {
            reveal_with_fuel(pow2s, 3);
        }
        assert(29 * 14 == 406);
    }
    assert(ev < pow2s(404) * 16) by (nonlinear_arith)
        requires
            ev < pow2s(404) * 4,
            pow2s(404) >= 1,
    ;
    crate::big::lemma_div_below(ev, pow2s(404), 16);
}

/// The limb weight of the full width as a plain power of two.
proof fn lemma_bpow_is_pow2s(n: nat)
    ensures
        bpow(n) == pow2s(29 * n),
    decreases n,
{
    if n == 0 {
        assert(pow2s(0) == 1);
    } else {
        lemma_bpow_is_pow2s((n - 1) as nat);
        crate::big::lemma_pow2s_adds(29, (29 * (n - 1)) as nat);
        assert(pow2s(29) == 0x20000000) by {
            reveal_with_fuel(pow2s, 30);
        }
        assert(29 * n == 29 + 29 * (n - 1)) by (nonlinear_arith);
    }
}


/// Adding one to the prime stays within the fixed width.
proof fn lemma_prime_inc_fits()
    ensures
        prime() + 1 < bpow(NLEN as nat),
{
    rom::lemma_prime_shape();
}

} // verus!
