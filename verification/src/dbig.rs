//! Double-length multi-precision integers: 28 limbs in radix 2^29,
//! holding products of two single-length integers before reduction.

use vstd::prelude::*;
#[allow(unused_imports)]
use vstd::arithmetic::div_mod::lemma_fundamental_div_mod;
#[allow(unused_imports)]
use vstd::arithmetic::mul::lemma_mul_is_distributive_add_other_way;
#[allow(unused_imports)]
use crate::big::{
    bpow, lemma_bpow_adds, lemma_bpow_pos, lemma_carry_split, lemma_div_below, lemma_scale_lt,
    lemma_vpre_bound, lemma_vpre_ext, lemma_vpre_nonneg, lemma_vpre_split, lemma_vpre_update,
    lemma_vpre_zero, norm_limbs, vpre, Big, BASE, DNLEN, NLEN,
};

verus! {

/// A double-length multi-precision unsigned integer: 28 limbs, radix 2^29.
#[derive(Clone, Copy)]
pub struct DBig {
    pub w: [u64; DNLEN],
}

impl DBig {
    /// The integer this limb vector stands for.
    pub open spec fn val(self) -> int {
        vpre(self.w@, DNLEN as int)
    }

    /// Every limb is below the radix.
    pub open spec fn is_norm(self) -> bool {
        norm_limbs(self.w@, DNLEN as int)
    }

    /// A new zero-valued double integer.
    pub fn new() -> (r: DBig)
        ensures
            r.val() == 0,
            r.is_norm(),
            forall|i: int| 0 <= i < DNLEN ==> r.w@[i] == 0,
    {
        let r = DBig { w: [0u64; DNLEN] };
        proof {
            lemma_vpre_zero(r.w@, DNLEN as int);
        }
        r
    }

    /// A copy of another double integer.
    pub fn new_copy(y: &DBig) -> (r: DBig)
        ensures
            r.w@ == y.w@,
            r.val() == y.val(),
            r.is_norm() == y.is_norm(),
    {
        DBig { w: y.w }
    }

    /// A double integer holding a single-length value in its low half.
    pub fn new_scopy(b: &Big) -> (r: DBig)
        requires
            b.is_norm(),
        ensures
            r.val() == b.val(),
            r.is_norm(),
    {
        let mut r = DBig::new();
        let ghost z = r.w@;
        for i in 0..NLEN
            invariant
                r.w@.len() == DNLEN,
                norm_limbs(b.w@, NLEN as int),
                forall|j: int| 0 <= j < i ==> r.w@[j] == b.w@[j],
                forall|j: int| i <= j < DNLEN ==> r.w@[j] == 0,
        {
            r.w[i] = b.w[i];
        }
        proof {
            lemma_vpre_split(r.w@, NLEN as int, DNLEN as int);
            lemma_vpre_zero(r.w@.skip(NLEN as int), DNLEN as int - NLEN as int);
            lemma_vpre_ext(r.w@, b.w@, NLEN as int);
            assert(bpow(NLEN as nat) * 0 == 0) by (nonlinear_arith);
        }
        r
    }

    /// Copy a single-length value into the upper half: the result is the
    /// value scaled by 2^(29·14).
    pub fn ucopy(&mut self, b: &Big)
        requires
            b.is_norm(),
            forall|i: int| 0 <= i < DNLEN ==> old(self).w@[i] == 0,
        ensures
            final(self).val() == bpow(NLEN as nat) * b.val(),
            final(self).is_norm(),
    {
        for i in 0..NLEN
            invariant
                self.w@.len() == DNLEN,
                norm_limbs(b.w@, NLEN as int),
                forall|j: int| 0 <= j < NLEN ==> self.w@[j] == 0,
                forall|j: int| NLEN <= j < NLEN + i ==> self.w@[j] == b.w@[j - NLEN],
                forall|j: int| NLEN + i <= j < DNLEN ==> self.w@[j] == 0,
        {
            self.w[NLEN + i] = b.w[i];
        }
        proof {
            lemma_vpre_split(self.w@, NLEN as int, DNLEN as int);
            lemma_vpre_zero(self.w@, NLEN as int);
            lemma_vpre_ext(self.w@.skip(NLEN as int), b.w@, NLEN as int);
        }
    }

    /// Propagate carries so that every limb drops below the radix.
    pub fn norm(&mut self)
        requires
            forall|i: int| 0 <= i < DNLEN ==> old(self).w@[i] < 0x4000000000000,
            0 <= old(self).val() < bpow(DNLEN as nat),
        ensures
            final(self).val() == old(self).val(),
            final(self).is_norm(),
    {
        let a = self.w;
        let mut r = self.w;
        let mut c: u64 = 0;
        for i in 0..(DNLEN - 1)
            invariant
                r@.len() == DNLEN,
                forall|j: int| 0 <= j < DNLEN ==> a@[j] < 0x4000000000000,
                forall|j: int| 0 <= j < i ==> r@[j] < 0x20000000,
                forall|j: int| i <= j < DNLEN ==> r@[j] == a@[j],
                c < 0x2000000000,
                vpre(r@, i as int) + c * bpow(i as nat) == vpre(a@, i as int),
        {
            let ghost r0 = r@;
            let ghost c0 = c;
            let t = a[i] + c;
            r[i] = t % BASE;
            c = t / BASE;
            proof {
                lemma_fundamental_div_mod(t as int, 0x20000000);
                lemma_vpre_ext(r0, r@, i as int);
                assert(vpre(r@, i + 1) == vpre(r0, i as int) + (t % 0x20000000) * bpow(i as nat));
                lemma_carry_split(t as int, (t / 0x20000000) as int, (t % 0x20000000) as int,
                    i as nat);
                lemma_mul_is_distributive_add_other_way(bpow(i as nat), a@[i as int] as int,
                    c0 as int);
            }
        }
        let ghost rq = r@;
        let ghost cq = c;
        let t = a[DNLEN - 1] + c;
        r[DNLEN - 1] = t;
        proof {
            lemma_vpre_ext(rq, r@, DNLEN as int - 1);
            assert(vpre(rq, DNLEN as int - 1) + cq * bpow((DNLEN - 1) as nat) == vpre(
                a@, DNLEN as int - 1));
            assert(vpre(r@, DNLEN as int) == vpre(r@, DNLEN as int - 1) + t * bpow(
                (DNLEN - 1) as nat,
            ));
            lemma_mul_is_distributive_add_other_way(bpow((DNLEN - 1) as nat),
                a@[DNLEN as int - 1] as int, cq as int);
            assert(vpre(r@, DNLEN as int) == vpre(a@, DNLEN as int));
            lemma_vpre_nonneg(r@, DNLEN as int - 1);
            assert(t * bpow((DNLEN - 1) as nat) < 0x20000000 * bpow((DNLEN - 1) as nat)) by {
                assert(bpow(DNLEN as nat) == 0x20000000 * bpow((DNLEN - 1) as nat));
            }
            lemma_bpow_pos((DNLEN - 1) as nat);
            lemma_scale_lt(t as int, 0x20000000, bpow((DNLEN - 1) as nat));
        }
        self.w = r;
    }

    /// Add `b` into this double integer; the sum must fit the width.
    pub fn add(&mut self, b: &DBig)
        requires
            old(self).is_norm(),
            b.is_norm(),
            old(self).val() + b.val() < bpow(DNLEN as nat),
        ensures
            final(self).val() == old(self).val() + b.val(),
            final(self).is_norm(),
    {
        let a = self.w;
        let mut r = self.w;
        for i in 0..DNLEN
            invariant
                r@.len() == DNLEN,
                norm_limbs(a@, DNLEN as int),
                norm_limbs(b.w@, DNLEN as int),
                forall|j: int| i <= j < DNLEN ==> r@[j] == a@[j],
                forall|j: int| 0 <= j < i ==> r@[j] < 0x40000000,
                vpre(r@, i as int) == vpre(a@, i as int) + vpre(b.w@, i as int),
        {
            let ghost r0 = r@;
            r[i] = a[i] + b.w[i];
            proof {
                lemma_vpre_ext(r0, r@, i as int);
                assert(vpre(r@, i + 1) == vpre(r0, i as int) + (a@[i as int] + b.w@[i as int])
                    * bpow(i as nat));
                lemma_mul_is_distributive_add_other_way(bpow(i as nat), a@[i as int] as int,
                    b.w@[i as int] as int);
            }
        }
        self.w = r;
        proof {
            lemma_vpre_nonneg(self.w@, DNLEN as int);
        }
        self.norm();
    }

    /// Subtract `b` from this double integer; `b` must not be larger.
    pub fn sub(&mut self, b: &DBig)
        requires
            old(self).is_norm(),
            b.is_norm(),
            b.val() <= old(self).val(),
        ensures
            final(self).val() == old(self).val() - b.val(),
            final(self).is_norm(),
    {
        let a = self.w;
        let mut r = self.w;
        let mut br: u64 = 0;
        for i in 0..DNLEN
            invariant
                r@.len() == DNLEN,
                norm_limbs(a@, DNLEN as int),
                norm_limbs(b.w@, DNLEN as int),
                br == 0 || br == 1,
                forall|j: int| 0 <= j < i ==> r@[j] < 0x20000000,
                vpre(r@, i as int) == vpre(a@, i as int) - vpre(b.w@, i as int) + br * bpow(
                    i as nat,
                ),
        {
            let ghost r0 = r@;
            let ghost b0 = br;
            let t = a[i] + BASE - b.w[i] - br;
            r[i] = t % BASE;
            br = 1 - t / BASE;
            proof {
                lemma_fundamental_div_mod(t as int, 0x20000000);
                assert(t < 0x40000000);
                lemma_div_below(t as int, 0x20000000, 2);
                lemma_vpre_ext(r0, r@, i as int);
                assert((t % 0x20000000) as int == a@[i as int] - b.w@[i as int] - b0 + br
                    * 0x20000000);
                assert(vpre(r@, i + 1) == vpre(a@, i + 1) - vpre(b.w@, i + 1) + br * bpow(
                    (i + 1) as nat,
                )) by (nonlinear_arith)
                    requires
                        vpre(r@, i + 1) == vpre(r0, i as int) + (t % 0x20000000) * bpow(i as nat),
                        vpre(r0, i as int) == vpre(a@, i as int) - vpre(b.w@, i as int) + b0
                            * bpow(i as nat),
                        (t % 0x20000000) as int == a@[i as int] - b.w@[i as int] - b0 + br
                            * 0x20000000,
                        vpre(a@, i + 1) == vpre(a@, i as int) + a@[i as int] * bpow(i as nat),
                        vpre(b.w@, i + 1) == vpre(b.w@, i as int) + b.w@[i as int] * bpow(
                            i as nat,
                        ),
                        bpow((i + 1) as nat) == 0x20000000 * bpow(i as nat),
                ;
            }
        }
        proof {
            lemma_vpre_bound(r@, DNLEN as int);
            lemma_bpow_pos(DNLEN as nat);
            if br == 1 {
                assert(vpre(r@, DNLEN as int) == old(self).val() - b.val() + bpow(DNLEN as nat));
            }
        }
        self.w = r;
    }

    /// Reverse subtraction: replace this double integer with `b` minus it.
    pub fn rsub(&mut self, b: &DBig)
        requires
            old(self).is_norm(),
            b.is_norm(),
            old(self).val() <= b.val(),
        ensures
            final(self).val() == b.val() - old(self).val(),
            final(self).is_norm(),
    {
        let mut t = DBig::new_copy(b);
        t.sub(&DBig { w: self.w });
        self.w = t.w;
    }
}

} // verus!
