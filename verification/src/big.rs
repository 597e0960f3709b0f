//! Fixed-width multi-precision unsigned integers: 14 limbs in radix 2^29,
//! little-endian. The limbs live in 64-bit words; a value is *normalised*
//! when every limb is below the radix. All carry and borrow propagation is
//! proved against the mathematical value of the limb sequence.

use vstd::prelude::*;
#[allow(unused_imports)]
use vstd::arithmetic::div_mod::{
    lemma_fundamental_div_mod, lemma_fundamental_div_mod_converse, lemma_mod_bound,
    lemma_mod_multiples_vanish, lemma_small_mod,
};
#[allow(unused_imports)]
use vstd::arithmetic::mul::{
    lemma_mul_inequality, lemma_mul_is_distributive_add, lemma_mul_is_distributive_add_other_way,
    lemma_mul_is_distributive_sub_other_way, lemma_mul_nonnegative, lemma_mul_strictly_positive,
};

verus! {

/// Number of limbs of a single-length integer.
pub const NLEN: usize = 14;

/// Number of limbs of a double-length integer.
pub const DNLEN: usize = 28;

/// Bits per limb.
pub const BASEBITS: usize = 29;

/// The radix: 2^29.
pub const BASE: u64 = 0x20000000;

/// Byte length of the serialised form (48 bytes for a 381-bit modulus).
pub const MODBYTES: usize = 48;

/// 2^(29·n): the weight of limb `n`.
pub open spec fn bpow(n: nat) -> int
    decreases n,
{
    if n == 0 {
        1
    } else {
        0x20000000 * bpow((n - 1) as nat)
    }
}

/// Value of the first `n` limbs of `s`, little-endian in radix 2^29.
pub open spec fn vpre(s: Seq<u64>, n: int) -> int
    decreases n,
{
    if n <= 0 {
        0
    } else {
        vpre(s, n - 1) + s[n - 1] * bpow((n - 1) as nat)
    }
}

/// The first `n` limbs of `s` are below the radix.
pub open spec fn norm_limbs(s: Seq<u64>, n: int) -> bool {
    forall|i: int| 0 <= i < n ==> s[i] < 0x20000000
}

pub proof fn lemma_bpow_pos(n: nat)
    ensures
        bpow(n) >= 1,
    decreases n,
{
    if n > 0 {
        lemma_bpow_pos((n - 1) as nat);
    }
}

pub proof fn lemma_bpow_adds(m: nat, n: nat)
    ensures
        bpow(m + n) == bpow(m) * bpow(n),
    decreases m,
{
    if m == 0 {
    } else {
        lemma_bpow_adds((m - 1) as nat, n);
        assert(bpow(m + n) == 0x20000000 * bpow((m + n - 1) as nat));
        assert(0x20000000 * (bpow((m - 1) as nat) * bpow(n)) == (0x20000000 * bpow(
            (m - 1) as nat,
        )) * bpow(n)) by (nonlinear_arith);
    }
}

/// Two sequences equal on the first `n` limbs have the same value there.
pub proof fn lemma_vpre_ext(s: Seq<u64>, t: Seq<u64>, n: int)
    requires
        forall|i: int| 0 <= i < n ==> s[i] == t[i],
    ensures
        vpre(s, n) == vpre(t, n),
    decreases n,
{
    if n > 0 {
        lemma_vpre_ext(s, t, n - 1);
    }
}

pub proof fn lemma_vpre_nonneg(s: Seq<u64>, n: int)
    ensures
        vpre(s, n) >= 0,
    decreases n,
{
    if n > 0 {
        lemma_vpre_nonneg(s, n - 1);
        lemma_bpow_pos((n - 1) as nat);
        lemma_mul_nonnegative(s[n - 1] as int, bpow((n - 1) as nat));
    }
}

/// A normalised prefix is below the weight of the next limb.
pub proof fn lemma_vpre_bound(s: Seq<u64>, n: int)
    requires
        norm_limbs(s, n),
    ensures
        0 <= vpre(s, n) < bpow(n as nat),
    decreases n,
{
    lemma_bpow_pos(n as nat);
    if n <= 0 {
    } else {
        lemma_vpre_bound(s, n - 1);
        lemma_bpow_pos((n - 1) as nat);
        assert(s[n - 1] <= 0x20000000 - 1);
        lemma_mul_nonnegative(s[n - 1] as int, bpow((n - 1) as nat));
        lemma_mul_inequality(s[n - 1] as int, 0x20000000 - 1, bpow((n - 1) as nat));
        assert((0x20000000 - 1) * bpow((n - 1) as nat) + bpow((n - 1) as nat) == 0x20000000 * bpow(
            (n - 1) as nat,
        )) by (nonlinear_arith);
        assert(bpow(n as nat) == 0x20000000 * bpow((n - 1) as nat));
    }
}

/// Changing limb `i` changes the value by the weighted difference.
pub proof fn lemma_vpre_update(s: Seq<u64>, i: int, v: u64, n: int)
    requires
        0 <= i < n <= s.len(),
    ensures
        vpre(s.update(i, v), n) == vpre(s, n) + (v - s[i]) * bpow(i as nat),
    decreases n,
{
    let t = s.update(i, v);
    if n - 1 == i {
        lemma_vpre_ext(s, t, n - 1);
        lemma_mul_is_distributive_sub_other_way(bpow(i as nat), v as int, s[i] as int);
    } else {
        lemma_vpre_update(s, i, v, n - 1);
    }
}

/// Splitting a value at limb `k`: low part plus shifted high part.
pub proof fn lemma_vpre_split(s: Seq<u64>, k: int, n: int)
    requires
        0 <= k <= n <= s.len(),
    ensures
        vpre(s, n) == vpre(s, k) + bpow(k as nat) * vpre(s.skip(k), n - k),
    decreases n - k,
{
    if n == k {
    } else {
        lemma_vpre_split(s, k, n - 1);
        lemma_bpow_adds(k as nat, (n - 1 - k) as nat);
        assert(s.skip(k)[n - 1 - k] == s[n - 1]);
        assert(vpre(s.skip(k), n - k) == vpre(s.skip(k), n - 1 - k) + s.skip(k)[n - 1 - k] * bpow(
            (n - 1 - k) as nat,
        ));
        assert(bpow(k as nat) * (vpre(s.skip(k), n - 1 - k) + s[n - 1] * bpow((n - 1 - k) as nat))
            == bpow(k as nat) * vpre(s.skip(k), n - 1 - k) + s[n - 1] * (bpow(k as nat) * bpow(
            (n - 1 - k) as nat,
        ))) by (nonlinear_arith);
    }
}

/// A nonnegative-limb value is zero exactly when every limb is zero.
pub proof fn lemma_vpre_zero(s: Seq<u64>, n: int)
    ensures
        vpre(s, n) == 0 <==> (forall|i: int| 0 <= i < n ==> s[i] == 0),
    decreases n,
{
    if n > 0 {
        lemma_vpre_zero(s, n - 1);
        lemma_vpre_nonneg(s, n - 1);
        lemma_bpow_pos((n - 1) as nat);
        lemma_mul_nonnegative(s[n - 1] as int, bpow((n - 1) as nat));
        if s[n - 1] != 0 {
            lemma_mul_strictly_positive(s[n - 1] as int, bpow((n - 1) as nat));
        }
    }
}

/// Lexicographic comparison from the top limb decides the value order:
/// if the limbs above `i` agree and `s[i] > t[i]`, then `s` is larger.
pub proof fn lemma_vpre_compare(s: Seq<u64>, t: Seq<u64>, n: int, i: int)
    requires
        0 <= i < n,
        norm_limbs(t, n),
        forall|j: int| i < j < n ==> s[j] == t[j],
        s[i] > t[i],
    ensures
        vpre(s, n) > vpre(t, n),
    decreases n,
{
    if n - 1 == i {
        lemma_vpre_nonneg(s, n - 1);
        lemma_vpre_bound(t, n - 1);
        lemma_bpow_pos(i as nat);
        assert(s[i] * bpow(i as nat) >= (t[i] + 1) * bpow(i as nat)) by (nonlinear_arith)
            requires
                s[i] >= t[i] + 1,
                bpow(i as nat) >= 1,
        ;
        lemma_mul_is_distributive_add(bpow(i as nat), t[i] as int, 1);
    } else {
        lemma_vpre_compare(s, t, n - 1, i);
    }
}

/// The value of a prefix modulo a divisor of the radix is decided by the
/// lowest limb.
pub proof fn lemma_vpre_mod(s: Seq<u64>, n: int, m: int)
    requires
        n >= 1,
        m >= 1,
        0x20000000int % m == 0,
    ensures
        vpre(s, n) % m == (s[0] as int) % m,
    decreases n,
{
    if n == 1 {
        assert(vpre(s, 1) == s[0] * 1);
    } else {
        lemma_vpre_mod(s, n - 1, m);
        let w = s[n - 1] * bpow((n - 1) as nat);
        lemma_bpow_mod(( n - 1) as nat, m);
        // w is a multiple of m
        assert(bpow((n - 1) as nat) % m == 0);
        lemma_fundamental_div_mod(bpow((n - 1) as nat), m);
        let q = bpow((n - 1) as nat) / m;
        assert(w == m * (s[n - 1] * q)) by (nonlinear_arith)
            requires
                bpow((n - 1) as nat) == m * q,
                w == s[n - 1] * bpow((n - 1) as nat),
        ;
        lemma_mod_multiples_vanish(s[n - 1] * q, vpre(s, n - 1), m);
    }
}

/// Every limb weight above the lowest is a multiple of any divisor of the
/// radix.
pub proof fn lemma_bpow_mod(k: nat, m: int)
    requires
        k >= 1,
        m >= 1,
        0x20000000int % m == 0,
    ensures
        bpow(k) % m == 0,
    decreases k,
{
    if k == 1 {
        assert(bpow(1) == 0x20000000int);
    } else {
        lemma_bpow_mod((k - 1) as nat, m);
        lemma_fundamental_div_mod(bpow((k - 1) as nat), m);
        let q = bpow((k - 1) as nat) / m;
        assert(bpow(k) == m * (0x20000000 * q)) by (nonlinear_arith)
            requires
                bpow((k - 1) as nat) == m * q,
                bpow(k) == 0x20000000 * bpow((k - 1) as nat),
        ;
        lemma_mod_multiples_vanish(0x20000000 * q, 0, m);
    }
}

/// A carried limb splits into its weighted quotient and remainder.
pub proof fn lemma_carry_split(t: int, c2: int, lo: int, i: nat)
    requires
        t == 0x20000000 * c2 + lo,
    ensures
        t * bpow(i) == c2 * bpow((i + 1) as nat) + lo * bpow(i),
{
    assert(bpow((i + 1) as nat) == 0x20000000 * bpow(i));
    assert((0x20000000 * c2 + lo) * bpow(i) == c2 * (0x20000000 * bpow(i)) + lo * bpow(i))
        by (nonlinear_arith);
}

/// If `a·w < b·w` for a positive weight `w`, then `a < b`.
pub proof fn lemma_scale_lt(a: int, b: int, w: int)
    requires
        a * w < b * w,
        w >= 1,
    ensures
        a < b,
{
    if a >= b {
        lemma_mul_inequality(b, a, w);
    }
}

/// A fixed-width multi-precision unsigned integer: 14 limbs, radix 2^29.
#[derive(Clone, Copy)]
pub struct Big {
    pub w: [u64; NLEN],
}

impl Big {
    /// The integer this limb vector stands for.
    pub open spec fn val(self) -> int {
        vpre(self.w@, NLEN as int)
    }

    /// Every limb is below the radix.
    pub open spec fn is_norm(self) -> bool {
        norm_limbs(self.w@, NLEN as int)
    }

    /// A new zero-valued integer.
    pub fn new() -> (r: Big)
        ensures
            r.val() == 0,
            r.is_norm(),
            forall|i: int| 0 <= i < NLEN ==> r.w@[i] == 0,
    {
        let r = Big { w: [0u64; NLEN] };
        proof {
            lemma_vpre_zero(r.w@, NLEN as int);
        }
        r
    }

    /// An integer from a single small word.
    pub fn new_int(a: u64) -> (r: Big)
        requires
            a < 0x20000000,
        ensures
            r.val() == a,
            r.is_norm(),
    {
        let mut r = Big::new();
        let ghost before = r.w@;
        r.w[0] = a;
        proof {
            lemma_vpre_update(before, 0, a, NLEN as int);
        }
        r
    }

    /// An integer from a table of limbs, as stored in the constants module.
    pub fn new_ints(a: &[u64; NLEN]) -> (r: Big)
        ensures
            r.w@ == a@,
            r.val() == vpre(a@, NLEN as int),
    {
        Big { w: *a }
    }

    /// A copy of another integer.
    pub fn new_copy(y: &Big) -> (r: Big)
        ensures
            r.w@ == y.w@,
            r.val() == y.val(),
            r.is_norm() == y.is_norm(),
    {
        Big { w: y.w }
    }

    /// Overwrite this integer with `b`.
    pub fn copy(&mut self, b: &Big)
        ensures
            final(self).w@ == b.w@,
            final(self).val() == b.val(),
            final(self).is_norm() == b.is_norm(),
    {
        self.w = b.w;
    }

    /// Set to zero.
    pub fn zero(&mut self)
        ensures
            final(self).val() == 0,
            final(self).is_norm(),
            forall|i: int| 0 <= i < NLEN ==> final(self).w@[i] == 0,
    {
        self.w = [0u64; NLEN];
        proof {
            lemma_vpre_zero(self.w@, NLEN as int);
        }
    }

    /// Set to one.
    pub fn one(&mut self)
        ensures
            final(self).val() == 1,
            final(self).is_norm(),
    {
        self.zero();
        let ghost before = self.w@;
        self.w[0] = 1;
        proof {
            lemma_vpre_zero(before, NLEN as int);
            lemma_vpre_update(before, 0, 1, NLEN as int);
        }
    }

    /// Whether the value is zero.
    pub fn iszilch(&self) -> (r: bool)
        ensures
            r <==> self.val() == 0,
    {
        let mut acc: u64 = 0;
        for i in 0..NLEN
            invariant
                acc == 0 <==> (forall|j: int| 0 <= j < i ==> self.w@[j] == 0),
        {
            if self.w[i] != 0 {
                acc = 1;
            }
        }
        proof {
            lemma_vpre_zero(self.w@, NLEN as int);
        }
        acc == 0
    }

    /// Propagate carries so that every limb drops below the radix. The
    /// value is unchanged; it must fit the fixed width.
    pub fn norm(&mut self)
        requires
            forall|i: int| 0 <= i < NLEN ==> old(self).w@[i] < 0x4000000000000,
            0 <= old(self).val() < bpow(NLEN as nat),
        ensures
            final(self).val() == old(self).val(),
            final(self).is_norm(),
    {
        let a = self.w;
        let mut r = self.w;
        let mut c: u64 = 0;
        for i in 0..(NLEN - 1)
            invariant
                a@ == old(self).w@,
                r@.len() == NLEN,
                forall|j: int| 0 <= j < NLEN ==> a@[j] < 0x4000000000000,
                forall|j: int| 0 <= j < i ==> r@[j] < 0x20000000,
                forall|j: int| i <= j < NLEN ==> r@[j] == a@[j],
                c < 0x2000000000,
                vpre(r@, i as int) + c * bpow(i as nat) == vpre(a@, i as int),
        {
            let ghost r0 = r@;
            let ghost c0 = c;
            let t = a[i] + c;
            r[i] = t % BASE;
            c = t / BASE;
            proof {
                lemma_fundamental_div_mod(t as int, 0x20000000);
                lemma_vpre_ext(r0, r@, i as int);
                assert(r@[i as int] == t % 0x20000000);
                assert(vpre(r@, i as int) == vpre(r0, i as int));
                assert(vpre(r0, i as int) + c0 * bpow(i as nat) == vpre(a@, i as int));
                assert(t == a@[i as int] + c0);
                assert(vpre(r@, i + 1) == vpre(r@, i as int) + (t % 0x20000000) * bpow(i as nat));
                lemma_carry_split(t as int, (t / 0x20000000) as int, (t % 0x20000000) as int,
                    i as nat);
                assert(t * bpow(i as nat) == c * bpow((i + 1) as nat) + (t % 0x20000000) * bpow(
                    i as nat,
                ));
                lemma_mul_is_distributive_add_other_way(bpow(i as nat), a@[i as int] as int, c0 as int);
                assert((a@[i as int] + c0) * bpow(i as nat) == a@[i as int] * bpow(i as nat) + c0
                    * bpow(i as nat));
                assert(vpre(a@, i + 1) == vpre(a@, i as int) + a@[i as int] * bpow(i as nat));
                assert(vpre(r@, i + 1) + c * bpow((i + 1) as nat) == vpre(a@, i + 1));
            }
        }
        let ghost rq = r@;
        let ghost cq = c;
        let t = a[NLEN - 1] + c;
        r[NLEN - 1] = t;
        proof {
            lemma_vpre_ext(rq, r@, NLEN as int - 1);
            assert(r@[NLEN as int - 1] == t);
            assert(t == a@[NLEN as int - 1] + cq);
            assert(vpre(rq, NLEN as int - 1) + cq * bpow((NLEN - 1) as nat) == vpre(
                a@, NLEN as int - 1));
            assert(vpre(r@, NLEN as int) == vpre(r@, NLEN as int - 1) + t * bpow(
                (NLEN - 1) as nat,
            ));
            lemma_mul_is_distributive_add_other_way(bpow((NLEN - 1) as nat),
                a@[NLEN as int - 1] as int, cq as int);
            assert(t * bpow((NLEN - 1) as nat) == a@[NLEN as int - 1] * bpow((NLEN - 1) as nat)
                + cq * bpow((NLEN - 1) as nat));
            assert(vpre(a@, NLEN as int) == vpre(a@, NLEN as int - 1) + a@[NLEN as int - 1]
                * bpow((NLEN - 1) as nat));
            assert(vpre(r@, NLEN as int) == vpre(a@, NLEN as int));
            // the final limb is below the radix because the value fits
            lemma_vpre_nonneg(r@, NLEN as int - 1);
            assert(t * bpow((NLEN - 1) as nat) < 0x20000000 * bpow((NLEN - 1) as nat)) by {
                assert(bpow(NLEN as nat) == 0x20000000 * bpow((NLEN - 1) as nat));
            }
            lemma_bpow_pos((NLEN - 1) as nat);
            lemma_scale_lt(t as int, 0x20000000, bpow((NLEN - 1) as nat));
        }
        self.w = r;
    }

    /// Add `b` into this integer, propagating carries; both operands must
    /// be normalised and the sum must fit the fixed width.
    pub fn add(&mut self, b: &Big)
        requires
            old(self).is_norm(),
            b.is_norm(),
            old(self).val() + b.val() < bpow(NLEN as nat),
        ensures
            final(self).val() == old(self).val() + b.val(),
            final(self).is_norm(),
    {
        let a = self.w;
        let mut r = self.w;
        for i in 0..NLEN
            invariant
                a@ == old(self).w@,
                r@.len() == NLEN,
                norm_limbs(a@, NLEN as int),
                norm_limbs(b.w@, NLEN as int),
                forall|j: int| i <= j < NLEN ==> r@[j] == a@[j],
                forall|j: int| 0 <= j < i ==> r@[j] < 0x40000000,
                vpre(r@, i as int) == vpre(a@, i as int) + vpre(b.w@, i as int),
        {
            let ghost r0 = r@;
            r[i] = a[i] + b.w[i];
            proof {
                lemma_vpre_ext(r0, r@, i as int);
                assert(r@[i as int] == a@[i as int] + b.w@[i as int]);
                assert(vpre(r@, i + 1) == vpre(r0, i as int) + (a@[i as int] + b.w@[i as int])
                    * bpow(i as nat));
                lemma_mul_is_distributive_add_other_way(bpow(i as nat), a@[i as int] as int,
                    b.w@[i as int] as int);
                assert((a@[i as int] + b.w@[i as int]) * bpow(i as nat) == a@[i as int] * bpow(
                    i as nat) + b.w@[i as int] * bpow(i as nat));
            }
        }
        self.w = r;
        proof {
            lemma_vpre_ext(r@, self.w@, NLEN as int);
            lemma_vpre_nonneg(self.w@, NLEN as int);
        }
        self.norm();
    }

    /// Double this integer in place.
    pub fn dbl(&mut self)
        requires
            old(self).is_norm(),
            2 * old(self).val() < bpow(NLEN as nat),
        ensures
            final(self).val() == 2 * old(self).val(),
            final(self).is_norm(),
    {
        let b = Big { w: self.w };
        self.add(&b);
    }

    /// Add a small word to the value (entering at the lowest limb).
    pub fn inc(&mut self, c: u64)
        requires
            old(self).is_norm(),
            c < 0x20000000,
            old(self).val() + c < bpow(NLEN as nat),
        ensures
            final(self).val() == old(self).val() + c,
            final(self).is_norm(),
    {
        let ghost before = self.w@;
        self.w[0] = self.w[0] + c;
        proof {
            lemma_vpre_update(before, 0, (before[0] + c) as u64, NLEN as int);
            lemma_vpre_nonneg(before, NLEN as int);
        }
        self.norm();
    }

    /// Subtract a small word from the value; the lowest limb must cover it.
    pub fn dec(&mut self, c: u64)
        requires
            old(self).is_norm(),
            old(self).w@[0] >= c,
        ensures
            final(self).val() == old(self).val() - c,
            final(self).is_norm(),
            final(self).w@ == old(self).w@.update(0, (old(self).w@[0] - c) as u64),
    {
        let ghost before = self.w@;
        self.w[0] = self.w[0] - c;
        proof {
            lemma_vpre_update(before, 0, (before[0] - c) as u64, NLEN as int);
        }
    }

    /// Parity of the value.
    pub fn parity(&self) -> (r: u64)
        ensures
            r == self.val() % 2,
    {
        proof {
            lemma_vpre_mod(self.w@, NLEN as int, 2);
        }
        self.w[0] % 2
    }

    /// The low `n` bits of the value, for `n` up to a limb.
    pub fn lastbits(&self, n: u64) -> (r: u64)
        requires
            1 <= n <= 28,
        ensures
            r == self.val() % (pow2s(n as nat) as int),
            r < pow2s(n as nat),
    {
        let m = pw2(n);
        proof {
            lemma_pow2s_divides(n as nat);
            lemma_vpre_mod(self.w@, NLEN as int, pow2s(n as nat) as int);
            lemma_mod_bound(self.w@[0] as int, pow2s(n as nat) as int);
        }
        self.w[0] % m
    }

    /// Constant-time conditional assignment: overwrite with `b` when `d`
    /// is one, keep the value when `d` is zero.
    pub fn cmove(&mut self, b: &Big, d: u64)
        requires
            d == 0 || d == 1,
        ensures
            d == 1 ==> final(self).w@ == b.w@,
            d == 0 ==> final(self).w@ == old(self).w@,
            final(self).val() == if d == 1 { b.val() } else { old(self).val() },
            final(self).is_norm() == if d == 1 { b.is_norm() } else { old(self).is_norm() },
    {
        let keep = 1 - d;
        let a = self.w;
        let mut r = self.w;
        for i in 0..NLEN
            invariant
                a@ == old(self).w@,
                r@.len() == NLEN,
                keep == 1 - d,
                d == 0 || d == 1,
                forall|j: int| 0 <= j < i ==> r@[j] == (if d == 1 { b.w@[j] } else { a@[j] }),
        {
            r[i] = a[i] * keep + b.w[i] * d;
        }
        self.w = r;
        proof {
            if d == 1 {
                assert(self.w@ =~= b.w@);
            } else {
                assert(self.w@ =~= old(self).w@);
            }
        }
    }

    /// Constant-time conditional swap of two integers.
    pub fn cswap(&mut self, b: &mut Big, d: u64)
        requires
            d == 0 || d == 1,
        ensures
            d == 1 ==> final(self).w@ == old(b).w@ && final(b).w@ == old(self).w@,
            d == 0 ==> final(self).w@ == old(self).w@ && final(b).w@ == old(b).w@,
    {
        let keep = 1 - d;
        let x = self.w;
        let y = b.w;
        let mut r = self.w;
        let mut s = b.w;
        for i in 0..NLEN
            invariant
                x@ == old(self).w@,
                y@ == old(b).w@,
                r@.len() == NLEN,
                s@.len() == NLEN,
                keep == 1 - d,
                d == 0 || d == 1,
                forall|j: int| 0 <= j < i ==> r@[j] == (if d == 1 { y@[j] } else { x@[j] }),
                forall|j: int| 0 <= j < i ==> s@[j] == (if d == 1 { x@[j] } else { y@[j] }),
        {
            r[i] = x[i] * keep + y[i] * d;
            s[i] = y[i] * keep + x[i] * d;
        }
        self.w = r;
        b.w = s;
        proof {
            if d == 1 {
                assert(self.w@ =~= old(b).w@);
                assert(b.w@ =~= old(self).w@);
            } else {
                assert(self.w@ =~= old(self).w@);
                assert(b.w@ =~= old(b).w@);
            }
        }
    }

    /// Compare two normalised integers: 1, 0 or -1 as `a` is greater than,
    /// equal to, or less than `b`. The scan is constant-time: every limb
    /// is visited and the outcome is accumulated arithmetically, with no
    /// branch on the data.
    #[verifier::rlimit(100)]
    #[verifier::spinoff_prover]
    pub fn comp(a: &Big, b: &Big) -> (r: i32)
        requires
            a.is_norm(),
            b.is_norm(),
        ensures
            r == 1 <==> a.val() > b.val(),
            r == 0 <==> a.val() == b.val(),
            r == -1 <==> a.val() < b.val(),
    {
        let mut decided: u64 = 0;
        let mut sign: i64 = 0;
        let mut i: usize = NLEN;
        while i > 0
            invariant
                i <= NLEN,
                a.is_norm(),
                b.is_norm(),
                decided == 0 || decided == 1,
                sign == -1 || sign == 0 || sign == 1,
                decided == 0 ==> sign == 0 && (forall|j: int| i <= j < NLEN ==> a.w@[j] == b.w@[j]),
                decided == 1 ==> (sign == 1 && a.val() > b.val()) || (sign == -1 && a.val()
                    < b.val()),
            decreases i,
        {
            i = i - 1;
            let ge = Big::ge_flag(a.w[i], b.w[i]);
            let le = Big::ge_flag(b.w[i], a.w[i]);
            let gt = ge * (1 - le);
            let lt = le * (1 - ge);
            let upd = 1 - decided;
            proof {
                if decided == 0 {
                    if gt == 1 {
                        lemma_vpre_compare(a.w@, b.w@, NLEN as int, i as int);
                    }
                    if lt == 1 {
                        lemma_vpre_compare(b.w@, a.w@, NLEN as int, i as int);
                    }
                }
            }
            sign = sign + (upd as i64) * ((gt as i64) - (lt as i64));
            decided = decided + upd * (gt + lt);
        }
        proof {
            if decided == 0 {
                lemma_vpre_ext(a.w@, b.w@, NLEN as int);
            }
        }
        sign as i32
    }

    /// Constant-time limb comparison: 1 when the first limb is at least
    /// the second, else 0.
    fn ge_flag(x: u64, y: u64) -> (r: u64)
        requires
            x < 0x20000000,
            y < 0x20000000,
        ensures
            r == 1 <==> x >= y,
            r == 0 || r == 1,
    {
        let t = x + BASE - y;
        proof {
            if x >= y {
                vstd::arithmetic::div_mod::lemma_div_by_self(0x20000000);
                vstd::arithmetic::div_mod::lemma_div_is_ordered(
                    0x20000000,
                    t as int,
                    0x20000000,
                );
                lemma_div_below(t as int, 0x20000000, 2);
            } else {
                vstd::arithmetic::div_mod::lemma_basic_div(t as int, 0x20000000);
            }
        }
        t / BASE
    }
}

/// 2^n as a spec value, for small n.
pub open spec fn pow2s(n: nat) -> int
    decreases n,
{
    if n == 0 {
        1
    } else {
        2 * pow2s((n - 1) as nat)
    }
}

/// 2^n as an executable word, for n below a limb width.
#[verifier::rlimit(50)]
pub fn pw2(n: u64) -> (r: u64)
    requires
        n <= 29,
    ensures
        r == pow2s(n as nat),
        r >= 1,
{
    let mut r: u64 = 1;
    let mut i: u64 = 0;
    while i < n
        invariant
            i <= n <= 29,
            r == pow2s(i as nat),
        decreases n - i,
    {
        proof {
            lemma_pow2s_le(i as nat, 28);
            assert(pow2s(28) == 0x10000000) by {
                reveal_with_fuel(pow2s, 29);
            }
        }
        r = r * 2;
        i = i + 1;
    }
    proof {
        lemma_pow2s_pos(n as nat);
    }
    r
}

/// Powers of two are monotone in the exponent.
pub proof fn lemma_pow2s_le(m: nat, n: nat)
    requires
        m <= n,
    ensures
        pow2s(m) <= pow2s(n),
    decreases n,
{
    if m < n {
        lemma_pow2s_le(m, (n - 1) as nat);
        lemma_pow2s_pos((n - 1) as nat);
    }
}

/// Powers of two up to the radix divide the radix.
pub proof fn lemma_pow2s_divides(n: nat)
    requires
        n <= 29,
    ensures
        pow2s(n) >= 1,
        0x20000000int % pow2s(n) == 0,
{
    lemma_pow2s_pos(n);
    lemma_pow2s_adds(n, (29 - n) as nat);
    lemma_pow2s_pos((29 - n) as nat);
    assert(pow2s(29) == 0x20000000) by {
        reveal_with_fuel(pow2s, 30);
    }
    vstd::arithmetic::div_mod::lemma_mod_multiples_basic(pow2s((29 - n) as nat), pow2s(n));
    assert(pow2s(n) * pow2s((29 - n) as nat) == pow2s((29 - n) as nat) * pow2s(n))
        by (nonlinear_arith);
}

pub proof fn lemma_pow2s_pos(n: nat)
    ensures
        pow2s(n) >= 1,
    decreases n,
{
    if n > 0 {
        lemma_pow2s_pos((n - 1) as nat);
    }
}

pub proof fn lemma_pow2s_adds(m: nat, n: nat)
    ensures
        pow2s(m + n) == pow2s(m) * pow2s(n),
    decreases m,
{
    if m > 0 {
        lemma_pow2s_adds((m - 1) as nat, n);
        assert(2 * (pow2s((m - 1) as nat) * pow2s(n)) == (2 * pow2s((m - 1) as nat)) * pow2s(n))
            by (nonlinear_arith);
    }
}


/// A nonnegative integer below `d·b` has quotient below `b`.
pub proof fn lemma_div_below(t: int, d: int, b: int)
    requires
        0 <= t,
        t < d * b,
        d >= 1,
        b >= 1,
    ensures
        t / d < b,
{
    lemma_fundamental_div_mod(t, d);
    if t / d >= b {
        lemma_mul_inequality(b, t / d, d);
        assert(b * d <= (t / d) * d);
        assert(d * (t / d) <= t) by (nonlinear_arith)
            requires
                t == d * (t / d) + t % d,
                t % d >= 0,
        ;
        assert(d * b == b * d) by (nonlinear_arith);
        assert((t / d) * d == d * (t / d)) by (nonlinear_arith);
    }
}

impl Big {
    /// Reverse subtraction: replace this integer with `b` minus it.
    /// Constant-time borrow propagation; `b` must not be smaller.
    pub fn rsub(&mut self, b: &Big)
        requires
            old(self).is_norm(),
            b.is_norm(),
            old(self).val() <= b.val(),
        ensures
            final(self).val() == b.val() - old(self).val(),
            final(self).is_norm(),
    {
        let a = self.w;
        let mut r = self.w;
        let mut br: u64 = 0;
        for i in 0..NLEN
            invariant
                r@.len() == NLEN,
                norm_limbs(a@, NLEN as int),
                norm_limbs(b.w@, NLEN as int),
                br == 0 || br == 1,
                forall|j: int| 0 <= j < i ==> r@[j] < 0x20000000,
                vpre(r@, i as int) == vpre(b.w@, i as int) - vpre(a@, i as int) + br * bpow(
                    i as nat,
                ),
        {
            let ghost r0 = r@;
            let ghost b0 = br;
            let t = b.w[i] + BASE - a[i] - br;
            r[i] = t % BASE;
            br = 1 - t / BASE;
            proof {
                lemma_fundamental_div_mod(t as int, 0x20000000);
                assert(t < 0x40000000);
                lemma_div_below(t as int, 0x20000000, 2);
                lemma_vpre_ext(r0, r@, i as int);
                assert(vpre(r@, i + 1) == vpre(r0, i as int) + (t % 0x20000000) * bpow(i as nat));
                assert((t % 0x20000000) as int == b.w@[i as int] - a@[i as int] - b0 + br
                    * 0x20000000);
                assert(vpre(r@, i + 1) == vpre(b.w@, i + 1) - vpre(a@, i + 1) + br * bpow(
                    (i + 1) as nat,
                )) by (nonlinear_arith)
                    requires
                        vpre(r@, i + 1) == vpre(r0, i as int) + (t % 0x20000000) * bpow(i as nat),
                        vpre(r0, i as int) == vpre(b.w@, i as int) - vpre(a@, i as int) + b0
                            * bpow(i as nat),
                        (t % 0x20000000) as int == b.w@[i as int] - a@[i as int] - b0 + br
                            * 0x20000000,
                        vpre(b.w@, i + 1) == vpre(b.w@, i as int) + b.w@[i as int] * bpow(
                            i as nat,
                        ),
                        vpre(a@, i + 1) == vpre(a@, i as int) + a@[i as int] * bpow(i as nat),
                        bpow((i + 1) as nat) == 0x20000000 * bpow(i as nat),
                ;
            }
        }
        proof {
            lemma_vpre_bound(r@, NLEN as int);
            lemma_bpow_pos(NLEN as nat);
            if br == 1 {
                assert(vpre(r@, NLEN as int) == b.val() - old(self).val() + bpow(NLEN as nat));
            }
        }
        self.w = r;
    }

    /// Halve the value in place (shift right one bit).
    pub fn fshr1(&mut self)
        requires
            old(self).is_norm(),
        ensures
            final(self).val() == old(self).val() / 2,
            2 * final(self).val() + old(self).val() % 2 == old(self).val(),
            final(self).is_norm(),
    {
        let a = self.w;
        let mut r = self.w;
        for i in 0..(NLEN - 1)
            invariant
                r@.len() == NLEN,
                norm_limbs(a@, NLEN as int),
                forall|j: int| 0 <= j < i ==> r@[j] < 0x20000000,
                2 * vpre(r@, i as int) + a@[0] % 2 == vpre(a@, i as int) + (a@[i as int] % 2)
                    * bpow(i as nat),
        {
            let ghost r0 = r@;
            r[i] = a[i] / 2 + (a[i + 1] % 2) * 0x10000000;
            proof {
                lemma_vpre_ext(r0, r@, i as int);
                lemma_fundamental_div_mod(a@[i as int] as int, 2);
                assert(2 * vpre(r@, i + 1) + a@[0] % 2 == vpre(a@, i + 1) + (a@[i + 1] % 2)
                    * bpow((i + 1) as nat)) by (nonlinear_arith)
                    requires
                        vpre(r@, i + 1) == vpre(r0, i as int) + (a@[i as int] / 2 + (a@[i + 1]
                            % 2) * 0x10000000) * bpow(i as nat),
                        2 * vpre(r0, i as int) + a@[0] % 2 == vpre(a@, i as int)
                            + (a@[i as int] % 2) * bpow(i as nat),
                        a@[i as int] == 2 * (a@[i as int] / 2) + a@[i as int] % 2,
                        vpre(a@, i + 1) == vpre(a@, i as int) + a@[i as int] * bpow(i as nat),
                        bpow((i + 1) as nat) == 0x20000000 * bpow(i as nat),
                ;
            }
        }
        let ghost rq = r@;
        r[NLEN - 1] = a[NLEN - 1] / 2;
        proof {
            lemma_vpre_ext(rq, r@, NLEN as int - 1);
            lemma_fundamental_div_mod(a@[NLEN as int - 1] as int, 2);
            assert(2 * vpre(r@, NLEN as int) + a@[0] % 2 == vpre(a@, NLEN as int))
                by (nonlinear_arith)
                requires
                    vpre(r@, NLEN as int) == vpre(rq, NLEN as int - 1) + (a@[NLEN as int - 1] / 2)
                        * bpow((NLEN - 1) as nat),
                    2 * vpre(rq, NLEN as int - 1) + a@[0] % 2 == vpre(a@, NLEN as int - 1)
                        + (a@[NLEN as int - 1] % 2) * bpow((NLEN - 1) as nat),
                    a@[NLEN as int - 1] == 2 * (a@[NLEN as int - 1] / 2) + a@[NLEN as int - 1]
                        % 2,
                    vpre(a@, NLEN as int) == vpre(a@, NLEN as int - 1) + a@[NLEN as int - 1]
                        * bpow((NLEN - 1) as nat),
            ;
            lemma_vpre_mod(a@, NLEN as int, 2);
            lemma_vpre_nonneg(r@, NLEN as int);
            lemma_fundamental_div_mod_converse(
                vpre(a@, NLEN as int),
                2,
                vpre(r@, NLEN as int),
                vpre(a@, NLEN as int) % 2,
            );
        }
        self.w = r;
    }

    /// Shift the value right by `k` bits.
    pub fn fshr(&mut self, k: usize)
        requires
            old(self).is_norm(),
        ensures
            final(self).val() == old(self).val() / pow2s(k as nat),
            final(self).is_norm(),
    {
        let mut j: usize = 0;
        proof {
            lemma_vpre_nonneg(old(self).w@, NLEN as int);
        }
        while j < k
            invariant
                j <= k,
                self.is_norm(),
                self.val() >= 0,
                self.val() == old(self).val() / pow2s(j as nat),
            decreases k - j,
        {
            let ghost before = self.val();
            self.fshr1();
            proof {
                lemma_pow2s_pos(j as nat);
                lemma_vpre_nonneg(old(self).w@, NLEN as int);
                vstd::arithmetic::div_mod::lemma_div_denominator(
                    old(self).val(),
                    pow2s(j as nat),
                    2,
                );
                assert(pow2s((j + 1) as nat) == pow2s(j as nat) * 2) by {
                    lemma_pow2s_adds(j as nat, 1);
                }
            }
            j = j + 1;
        }
    }

    /// Multiply in place by a small word; the product must fit the width.
    pub fn pmul(&mut self, c: u64)
        requires
            old(self).is_norm(),
            c < 0x20000000,
            old(self).val() * c < bpow(NLEN as nat),
        ensures
            final(self).val() == old(self).val() * c,
            final(self).is_norm(),
    {
        let a = self.w;
        let mut r = self.w;
        let mut carry: u64 = 0;
        for i in 0..(NLEN - 1)
            invariant
                r@.len() == NLEN,
                norm_limbs(a@, NLEN as int),
                c < 0x20000000,
                carry < 0x20000000,
                forall|j: int| 0 <= j < i ==> r@[j] < 0x20000000,
                vpre(r@, i as int) + carry * bpow(i as nat) == vpre(a@, i as int) * c,
        {
            let ghost r0 = r@;
            let ghost c0 = carry;
            proof {
                assert(a@[i as int] * c + c0 < 0x20000000 * 0x20000000) by (nonlinear_arith)
                    requires
                        a@[i as int] < 0x20000000,
                        c < 0x20000000,
                        c0 < 0x20000000,
                ;
            }
            let t = a[i] * c + carry;
            r[i] = t % BASE;
            carry = t / BASE;
            proof {
                lemma_fundamental_div_mod(t as int, 0x20000000);
                lemma_div_below(t as int, 0x20000000, 0x20000000);
                lemma_vpre_ext(r0, r@, i as int);
                assert(vpre(r@, i + 1) + carry * bpow((i + 1) as nat) == vpre(a@, i + 1) * c)
                    by (nonlinear_arith)
                    requires
                        vpre(r@, i + 1) == vpre(r0, i as int) + (t % 0x20000000) * bpow(i as nat),
                        vpre(r0, i as int) + c0 * bpow(i as nat) == vpre(a@, i as int) * c,
                        t == a@[i as int] * c + c0,
                        t == 0x20000000 * carry + t % 0x20000000,
                        vpre(a@, i + 1) == vpre(a@, i as int) + a@[i as int] * bpow(i as nat),
                        bpow((i + 1) as nat) == 0x20000000 * bpow(i as nat),
                ;
            }
        }
        let ghost rq = r@;
        let ghost cq = carry;
        proof {
            assert(a@[NLEN as int - 1] * c + cq < 0x20000000 * 0x20000000) by (nonlinear_arith)
                requires
                    a@[NLEN as int - 1] < 0x20000000,
                    c < 0x20000000,
                    cq < 0x20000000,
            ;
        }
        let t = a[NLEN - 1] * c + carry;
        r[NLEN - 1] = t;
        proof {
            lemma_vpre_ext(rq, r@, NLEN as int - 1);
            assert(vpre(r@, NLEN as int) == vpre(a@, NLEN as int) * c) by (nonlinear_arith)
                requires
                    vpre(r@, NLEN as int) == vpre(rq, NLEN as int - 1) + t * bpow(
                        (NLEN - 1) as nat,
                    ),
                    vpre(rq, NLEN as int - 1) + cq * bpow((NLEN - 1) as nat)
                        == vpre(a@, NLEN as int - 1) * c,
                    t == a@[NLEN as int - 1] * c + cq,
                    vpre(a@, NLEN as int) == vpre(a@, NLEN as int - 1) + a@[NLEN as int - 1]
                        * bpow((NLEN - 1) as nat),
            ;
            // the top limb fits below the radix because the product does
            lemma_vpre_nonneg(rq, NLEN as int - 1);
            assert(t * bpow((NLEN - 1) as nat) <= vpre(r@, NLEN as int));
            assert(bpow(NLEN as nat) == 0x20000000 * bpow((NLEN - 1) as nat));
            lemma_bpow_pos((NLEN - 1) as nat);
            lemma_scale_lt(t as int, 0x20000000, bpow((NLEN - 1) as nat));
        }
        self.w = r;
    }

    /// One rung of the reduction ladder: halve `m`, then conditionally
    /// produce `a - m` in `r`. Returns 1 when `a` is smaller than the
    /// halved `m` (in which case `r` holds no meaningful value), else 0.
    pub fn ssn(r: &mut Big, a: &Big, m: &mut Big) -> (sr: u64)
        requires
            a.is_norm(),
            old(m).is_norm(),
        ensures
            final(m).val() == old(m).val() / 2,
            final(m).is_norm(),
            sr == 0 || sr == 1,
            sr == 0 <==> a.val() >= final(m).val(),
            sr == 0 ==> final(r).val() == a.val() - final(m).val() && final(r).is_norm(),
    {
        m.fshr1();
        let mut t = Big::new();
        let mut br: u64 = 0;
        for i in 0..NLEN
            invariant
                t.w@.len() == NLEN,
                norm_limbs(a.w@, NLEN as int),
                m.is_norm(),
                br == 0 || br == 1,
                forall|j: int| 0 <= j < i ==> t.w@[j] < 0x20000000,
                vpre(t.w@, i as int) == vpre(a.w@, i as int) - vpre(m.w@, i as int) + br * bpow(
                    i as nat,
                ),
        {
            let ghost t0 = t.w@;
            let ghost b0 = br;
            let x = a.w[i] + BASE - m.w[i] - br;
            t.w[i] = x % BASE;
            br = 1 - x / BASE;
            proof {
                lemma_fundamental_div_mod(x as int, 0x20000000);
                assert(x < 0x40000000);
                lemma_div_below(x as int, 0x20000000, 2);
                lemma_vpre_ext(t0, t.w@, i as int);
                assert((x % 0x20000000) as int == a.w@[i as int] - m.w@[i as int] - b0 + br
                    * 0x20000000);
                assert(vpre(t.w@, i + 1) == vpre(a.w@, i + 1) - vpre(m.w@, i + 1) + br * bpow(
                    (i + 1) as nat,
                )) by (nonlinear_arith)
                    requires
                        vpre(t.w@, i + 1) == vpre(t0, i as int) + (x % 0x20000000) * bpow(
                            i as nat,
                        ),
                        vpre(t0, i as int) == vpre(a.w@, i as int) - vpre(m.w@, i as int) + b0
                            * bpow(i as nat),
                        (x % 0x20000000) as int == a.w@[i as int] - m.w@[i as int] - b0 + br
                            * 0x20000000,
                        vpre(a.w@, i + 1) == vpre(a.w@, i as int) + a.w@[i as int] * bpow(
                            i as nat,
                        ),
                        vpre(m.w@, i + 1) == vpre(m.w@, i as int) + m.w@[i as int] * bpow(
                            i as nat,
                        ),
                        bpow((i + 1) as nat) == 0x20000000 * bpow(i as nat),
                ;
            }
        }
        proof {
            lemma_vpre_bound(t.w@, NLEN as int);
            lemma_vpre_bound(a.w@, NLEN as int);
            lemma_vpre_bound(m.w@, NLEN as int);
            lemma_bpow_pos(NLEN as nat);
        }
        if br == 0 {
            r.copy(&t);
        }
        br
    }
}

impl Big {
    /// Full product of two normalised integers, schoolbook style with
    /// row-wise carry propagation into a double-length result.
    pub fn mul(a: &Big, b: &Big) -> (d: crate::dbig::DBig)
        requires
            a.is_norm(),
            b.is_norm(),
        ensures
            d.val() == a.val() * b.val(),
            d.is_norm(),
    {
        let mut d = crate::dbig::DBig::new();
        for i in 0..NLEN
            invariant
                d.w@.len() == DNLEN,
                norm_limbs(a.w@, NLEN as int),
                norm_limbs(b.w@, NLEN as int),
                norm_limbs(d.w@, DNLEN as int),
                forall|j: int| i + NLEN <= j < DNLEN ==> d.w@[j] == 0,
                vpre(d.w@, DNLEN as int) == vpre(a.w@, i as int) * vpre(b.w@, NLEN as int),
        {
            let ghost drow = d.w@;
            let mut carry: u64 = 0;
            for j in 0..NLEN
                invariant
                    0 <= i < NLEN,
                    d.w@.len() == DNLEN,
                    norm_limbs(a.w@, NLEN as int),
                    norm_limbs(b.w@, NLEN as int),
                    norm_limbs(d.w@, DNLEN as int),
                    carry < 0x20000000,
                    forall|j2: int| i + NLEN <= j2 < DNLEN ==> d.w@[j2] == 0,
                    vpre(d.w@, DNLEN as int) + carry * bpow((i + j) as nat) == vpre(
                        a.w@,
                        i as int,
                    ) * vpre(b.w@, NLEN as int) + a.w@[i as int] * vpre(b.w@, j as int) * bpow(
                        i as nat,
                    ),
            {
                let ghost d0 = d.w@;
                let ghost c0 = carry;
                proof {
                    assert(d0[i + j] + a.w@[i as int] * b.w@[j as int] + c0 < 0x20000000
                        * 0x20000000) by (nonlinear_arith)
                        requires
                            d0[i + j] < 0x20000000,
                            a.w@[i as int] < 0x20000000,
                            b.w@[j as int] < 0x20000000,
                            c0 < 0x20000000,
                    ;
                }
                let t = d.w[i + j] + a.w[i] * b.w[j] + carry;
                d.w[i + j] = t % BASE;
                carry = t / BASE;
                proof {
                    lemma_fundamental_div_mod(t as int, 0x20000000);
                    lemma_div_below(t as int, 0x20000000, 0x20000000);
                    lemma_vpre_update(d0, (i + j) as int, (t % 0x20000000) as u64, DNLEN as int);
                    lemma_bpow_adds(i as nat, j as nat);
                    lemma_bpow_adds(i as nat, (j + 1) as nat);
                    assert(bpow((i + j + 1) as nat) == 0x20000000 * bpow((i + j) as nat));
                    assert(vpre(b.w@, j + 1) == vpre(b.w@, j as int) + b.w@[j as int] * bpow(
                        j as nat,
                    ));
                    assert(vpre(d.w@, DNLEN as int) + carry * bpow((i + j + 1) as nat) == vpre(
                        d0,
                        DNLEN as int,
                    ) + (a.w@[i as int] * b.w@[j as int] + c0) * bpow((i + j) as nat))
                        by (nonlinear_arith)
                        requires
                            vpre(d.w@, DNLEN as int) == vpre(d0, DNLEN as int) + ((t
                                % 0x20000000) - d0[i + j]) * bpow((i + j) as nat),
                            t == d0[i + j] + a.w@[i as int] * b.w@[j as int] + c0,
                            t == 0x20000000 * carry + t % 0x20000000,
                            bpow((i + j + 1) as nat) == 0x20000000 * bpow((i + j) as nat),
                    ;
                    assert((a.w@[i as int] * b.w@[j as int] + c0) * bpow((i + j) as nat) == c0
                        * bpow((i + j) as nat) + a.w@[i as int] * b.w@[j as int] * (bpow(i as nat)
                        * bpow(j as nat))) by (nonlinear_arith)
                        requires
                            bpow((i + j) as nat) == bpow(i as nat) * bpow(j as nat),
                    ;
                    assert(a.w@[i as int] * vpre(b.w@, j as int) * bpow(i as nat)
                        + a.w@[i as int] * b.w@[j as int] * (bpow(i as nat) * bpow(j as nat))
                        == a.w@[i as int]
                        * vpre(b.w@, j + 1) * bpow(i as nat)) by (nonlinear_arith)
                        requires
                            vpre(b.w@, j + 1) == vpre(b.w@, j as int) + b.w@[j as int] * bpow(
                                j as nat,
                            ),
                    ;
                }
            }
            let ghost dq = d.w@;
            let ghost cq = carry;
            d.w[i + NLEN] = carry;
            proof {
                lemma_vpre_update(dq, (i + NLEN) as int, cq, DNLEN as int);
                assert(dq[(i + NLEN) as int] == 0);
                assert(vpre(d.w@, DNLEN as int) == vpre(a.w@, i + 1) * vpre(b.w@, NLEN as int))
                    by (nonlinear_arith)
                    requires
                        vpre(d.w@, DNLEN as int) == vpre(dq, DNLEN as int) + cq * bpow(
                            (i + NLEN) as nat,
                        ),
                        vpre(dq, DNLEN as int) + cq * bpow((i + NLEN) as nat) == vpre(
                            a.w@,
                            i as int,
                        ) * vpre(b.w@, NLEN as int) + a.w@[i as int] * vpre(b.w@, NLEN as int)
                            * bpow(i as nat),
                        vpre(a.w@, i + 1) == vpre(a.w@, i as int) + a.w@[i as int] * bpow(
                            i as nat,
                        ),
                ;
            }
        }
        d
    }

    /// Squared value of a normalised integer.
    pub fn sqr(a: &Big) -> (d: crate::dbig::DBig)
        requires
            a.is_norm(),
        ensures
            d.val() == a.val() * a.val(),
            d.is_norm(),
    {
        Big::mul(a, a)
    }

    /// Montgomery reduction of a double-length value by the modulus `md`
    /// with precomputed constant `mc` (the negated inverse of the modulus
    /// modulo the radix). The result `r` satisfies `r·2^406 ≡ d (mod md)`
    /// and is bounded by `d / 2^406 + md`.
    pub fn monty(md: &Big, mc: u64, d: &mut crate::dbig::DBig) -> (r: Big)
        requires
            md.is_norm(),
            old(d).is_norm(),
            mc < 0x20000000,
            md.val() >= 1,
            (1 + mc * md.w@[0]) % 0x20000000 == 0,
            old(d).val() <= bpow(NLEN as nat) * (bpow(NLEN as nat) - md.val()),
        ensures
            r.is_norm(),
            (r.val() * bpow(NLEN as nat)) % md.val() == old(d).val() % md.val(),
            r.val() <= old(d).val() / bpow(NLEN as nat) + md.val(),
    {
        let ghost dorig = old(d).val();
        let ghost mv = md.val();
        proof {
            lemma_vpre_nonneg(old(d).w@, DNLEN as int);
        }
        let mut gq: Ghost<int> = Ghost(0int);
        for i in 0..NLEN
            invariant
                d.w@.len() == DNLEN,
                norm_limbs(md.w@, NLEN as int),
                mc < 0x20000000,
                mv == md.val(),
                mv >= 1,
                dorig == old(d).val(),
                (1 + mc * md.w@[0]) % 0x20000000 == 0,
                forall|k: int| 0 <= k < i ==> d.w@[k] == 0,
                forall|k: int| 0 <= k < DNLEN ==> d.w@[k] < 0x80000000,
                forall|k: int| 0 <= k < DNLEN && k != i + NLEN - 1 ==> d.w@[k] < 0x20000000,
                0 <= gq@ < bpow(i as nat),
                vpre(d.w@, DNLEN as int) == dorig + gq@ * mv,
            decreases NLEN - i,
        {
            let ghost drow = d.w@;
            proof {
                assert(d.w@[i as int] * mc < 0x80000000 * 0x20000000) by (nonlinear_arith)
                    requires
                        d.w@[i as int] < 0x80000000,
                        mc < 0x20000000,
                ;
            }
            let v = (d.w[i] * mc) % BASE;
            let mut carry: u64 = 0;
            for j in 0..NLEN
                invariant
                    0 <= i < NLEN,
                    d.w@.len() == DNLEN,
                    norm_limbs(md.w@, NLEN as int),
                    mc < 0x20000000,
                    (1 + mc * md.w@[0]) % 0x20000000 == 0,
                    v == (drow[i as int] * mc) % 0x20000000,
                    v < 0x20000000,
                    carry < 0x40000000,
                    j == 0 ==> carry == 0,
                    forall|k: int| 0 <= k < i ==> d.w@[k] == 0,
                    forall|k: int| 0 <= k < DNLEN ==> d.w@[k] < 0x80000000,
                    forall|k: int| i <= k < i + j ==> d.w@[k] < 0x20000000,
                    forall|k: int| i + NLEN <= k < DNLEN ==> d.w@[k] < 0x20000000,
                    j == 0 ==> d.w@ == drow,
                    vpre(d.w@, DNLEN as int) + carry * bpow((i + j) as nat) == vpre(
                        drow,
                        DNLEN as int,
                    ) + v * vpre(md.w@, j as int) * bpow(i as nat),
                    j >= 1 ==> d.w@[i as int] == 0,
            {
                let ghost d0 = d.w@;
                let ghost c0 = carry;
                proof {
                    assert(d0[i + j] + v * md.w@[j as int] + c0 < 0x20000000 * 0x40000000)
                        by (nonlinear_arith)
                        requires
                            d0[i + j] < 0x80000000,
                            v < 0x20000000,
                            md.w@[j as int] < 0x20000000,
                            c0 < 0x40000000,
                    ;
                }
                let t = d.w[i + j] + v * md.w[j] + carry;
                d.w[i + j] = t % BASE;
                carry = t / BASE;
                proof {
                    lemma_fundamental_div_mod(t as int, 0x20000000);
                    lemma_div_below(t as int, 0x20000000, 0x40000000);
                    lemma_vpre_update(d0, (i + j) as int, (t % 0x20000000) as u64, DNLEN as int);
                    lemma_bpow_adds(i as nat, j as nat);
                    lemma_bpow_adds(i as nat, (j + 1) as nat);
                    assert(vpre(md.w@, j + 1) == vpre(md.w@, j as int) + md.w@[j as int] * bpow(
                        j as nat,
                    ));
                    assert(vpre(d.w@, DNLEN as int) + carry * bpow((i + j + 1) as nat) == vpre(
                        drow,
                        DNLEN as int,
                    ) + v * vpre(md.w@, j + 1) * bpow(i as nat)) by (nonlinear_arith)
                        requires
                            vpre(d.w@, DNLEN as int) == vpre(d0, DNLEN as int) + ((t
                                % 0x20000000) - d0[i + j]) * bpow((i + j) as nat),
                            vpre(d0, DNLEN as int) + c0 * bpow((i + j) as nat) == vpre(
                                drow,
                                DNLEN as int,
                            ) + v * vpre(md.w@, j as int) * bpow(i as nat),
                            t == d0[i + j] + v * md.w@[j as int] + c0,
                            t == 0x20000000 * carry + t % 0x20000000,
                            vpre(md.w@, j + 1) == vpre(md.w@, j as int) + md.w@[j as int] * bpow(
                                j as nat,
                            ),
                            bpow((i + j) as nat) == bpow(i as nat) * bpow(j as nat),
                            bpow((i + j + 1) as nat) == bpow(i as nat) * bpow((j + 1) as nat),
                            bpow((j + 1) as nat) == 0x20000000 * bpow(j as nat),
                    ;
                    if j == 0 {
                        // the freshly written limb i is exactly zero
                        lemma_mul_mod_zero(d0[i as int] as int, mc as int, md.w@[0] as int);
                        vstd::arithmetic::div_mod::lemma_mod_mod(
                            d0[i as int] * mc,
                            0x20000000,
                            1,
                        );
                        assert(d.w@[i as int] == 0);
                    }
                }
            }
            let ghost dq = d.w@;
            let ghost cq = carry;
            proof {
                assert(dq[(i + NLEN) as int] < 0x20000000);
            }
            d.w[i + NLEN] = d.w[i + NLEN] + carry;
            proof {
                lemma_vpre_update(dq, (i + NLEN) as int, (dq[(i + NLEN) as int] + cq) as u64,
                    DNLEN as int);
                assert(vpre(d.w@, DNLEN as int) == vpre(drow, DNLEN as int) + v * mv * bpow(
                    i as nat,
                )) by (nonlinear_arith)
                    requires
                        vpre(d.w@, DNLEN as int) == vpre(dq, DNLEN as int) + cq * bpow(
                            (i + NLEN) as nat,
                        ),
                        vpre(dq, DNLEN as int) + cq * bpow((i + NLEN) as nat) == vpre(
                            drow,
                            DNLEN as int,
                        ) + v * mv * bpow(i as nat),
                ;
            }
            gq = Ghost(gq@ + v * bpow(i as nat));
            proof {
                assert(vpre(d.w@, DNLEN as int) == dorig + gq@ * mv) by (nonlinear_arith)
                    requires
                        vpre(d.w@, DNLEN as int) == vpre(drow, DNLEN as int) + v * mv * bpow(
                            i as nat,
                        ),
                        vpre(drow, DNLEN as int) == dorig + (gq@ - v * bpow(i as nat)) * mv,
                ;
                assert(gq@ < bpow((i + 1) as nat)) by (nonlinear_arith)
                    requires
                        gq@ - v * bpow(i as nat) < bpow(i as nat),
                        v < 0x20000000,
                        bpow(i as nat) >= 1,
                        bpow((i + 1) as nat) == 0x20000000 * bpow(i as nat),
                ;
                assert(gq@ >= 0) by (nonlinear_arith)
                    requires
                        gq@ - v * bpow(i as nat) >= 0,
                        v >= 0,
                        bpow(i as nat) >= 1,
                ;
                lemma_bpow_pos(i as nat);
            }
        }
        // the low half is now zero: the upper half is the exact quotient
        let mut r = Big::new();
        for j in 0..NLEN
            invariant
                r.w@.len() == NLEN,
                d.w@.len() == DNLEN,
                forall|k: int| 0 <= k < DNLEN ==> d.w@[k] < 0x80000000,
                forall|k: int| 0 <= k < j ==> r.w@[k] == d.w@[NLEN + k],
                forall|k: int| j <= k < NLEN ==> r.w@[k] == 0,
        {
            r.w[j] = d.w[NLEN + j];
        }
        proof {
            lemma_vpre_split(d.w@, NLEN as int, DNLEN as int);
            lemma_vpre_zero(d.w@, NLEN as int);
            lemma_vpre_ext(r.w@, d.w@.skip(NLEN as int), NLEN as int);
            // value of r before normalisation
            assert(bpow(NLEN as nat) * vpre(r.w@, NLEN as int) == dorig + gq@ * mv);
            lemma_vpre_nonneg(r.w@, NLEN as int);
            lemma_bpow_pos(NLEN as nat);
            // bound: r ≤ dorig/R + md
            lemma_monty_bound(vpre(r.w@, NLEN as int), dorig, gq@, mv, bpow(NLEN as nat));
            // the unnormalised value already fits the fixed width
            assert(vpre(r.w@, NLEN as int) < bpow(NLEN as nat)) by (nonlinear_arith)
                requires
                    bpow(NLEN as nat) * vpre(r.w@, NLEN as int) == dorig + gq@ * mv,
                    dorig <= bpow(NLEN as nat) * (bpow(NLEN as nat) - mv),
                    0 <= gq@ < bpow(NLEN as nat),
                    mv >= 1,
                    bpow(NLEN as nat) >= 1,
                    vpre(r.w@, NLEN as int) >= 0,
            ;
        }
        let ghost rv = vpre(r.w@, NLEN as int);
        r.norm();
        proof {
            // congruence: r·R == dorig + gq·md
            vstd::arithmetic::div_mod::lemma_mod_multiples_vanish(gq@, dorig, mv);
            assert(rv * bpow(NLEN as nat) == dorig + gq@ * mv) by (nonlinear_arith)
                requires
                    bpow(NLEN as nat) * rv == dorig + gq@ * mv,
            ;
            assert((rv * bpow(NLEN as nat)) % mv == (gq@ * mv + dorig) % mv);
        }
        r
    }
}

/// A value annihilated by the Montgomery constant: if `(1 + mc·m0)` is a
/// multiple of the radix, so is `x + (x·mc mod radix)·m0`.
pub proof fn lemma_mul_mod_zero(x: int, mc: int, m0: int)
    requires
        0 <= x,
        0 <= mc,
        0 <= m0,
        (1 + mc * m0) % 0x20000000 == 0,
    ensures
        (x + ((x * mc) % 0x20000000) * m0) % 0x20000000 == 0,
{
    let b = 0x20000000int;
    let v = (x * mc) % b;
    lemma_fundamental_div_mod(x * mc, b);
    let q = (x * mc) / b;
    lemma_fundamental_div_mod(1 + mc * m0, b);
    let k = (1 + mc * m0) / b;
    // x + v*m0 == x*(1 + mc*m0) - q*b*m0 == b*(x*k - q*m0)
    assert(x + v * m0 == b * (x * k - q * m0)) by (nonlinear_arith)
        requires
            v == x * mc - b * q,
            1 + mc * m0 == b * k,
    ;
    vstd::arithmetic::div_mod::lemma_mod_multiples_vanish(x * k - q * m0, 0, b);
}

/// The Montgomery quotient bound: from `r·R == d + g·m` with `g < R` it
/// follows that `r ≤ d/R + m`.
pub proof fn lemma_monty_bound(r: int, d: int, g: int, m: int, rr: int)
    requires
        rr * r == d + g * m,
        0 <= g < rr,
        0 <= d,
        m >= 1,
        rr >= 1,
        r >= 0,
    ensures
        r <= d / rr + m,
{
    lemma_fundamental_div_mod(d, rr);
    let q = d / rr;
    let rem = d % rr;
    assert(g * m <= (rr - 1) * m) by (nonlinear_arith)
        requires
            g <= rr - 1,
            m >= 1,
            g >= 0,
    ;
    // rr*r == rr*q + rem + g*m <= rr*q + rr - 1 + rr*m - m
    assert(rr * r <= rr * q + rr - 1 + rr * m - m) by (nonlinear_arith)
        requires
            rr * r == d + g * m,
            d == rr * q + rem,
            rem <= rr - 1,
            g * m <= (rr - 1) * m,
    ;
    assert(r <= q + m) by (nonlinear_arith)
        requires
            rr * r <= rr * q + rr - 1 + rr * m - m,
            rr >= 1,
            m >= 1,
    ;
}

} // verus!
