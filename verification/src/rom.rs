//! Curve constants for BLS12-381 at radix 2^29: the modulus, the
//! Montgomery constants, and the field elements used by the optimised
//! Shallue–van de Woestijne–Ulas map and its 3-isogeny.

use vstd::prelude::*;
#[allow(unused_imports)]
use crate::arith::prime;
#[allow(unused_imports)]
use crate::big::{bpow, vpre, Big, NLEN};

verus! {

/// The Montgomery constant: the negated inverse of the modulus modulo the
/// radix.
pub const MCONST: u64 = 0x1ffcfffd;

impl Big {
    /// The 381-bit BLS12-381 base field prime as limbs.
    pub fn modulus() -> (r: Big)
        ensures
            r.val() == prime(),
            r.is_norm(),
            r.w@[0] == 0x1fffaaab,
            r.val() >= 1,
    {
        let r = Big {
            w: [
                0x1fffaaab, 0xff7ffff, 0x14ffffee, 0x17fffd62, 0xf6241ea, 0x9507b58, 0xafd9cc3,
                0x109e70a2, 0x1764774b, 0x121a5d66, 0x12c6e9ed, 0x12ffcd34, 0x111ea3, 0xd,
            ],
        };
        proof {
            reveal_with_fuel(vpre, 16);
            reveal_with_fuel(bpow, 16);
            assert(r.val() == prime());
        }
        r
    }

    /// 2^812 modulo the prime: the square of the Montgomery radix, used to
    /// enter Montgomery form.
    pub fn r2modp() -> (r: Big)
        ensures
            r.val() == (bpow(NLEN as nat) * bpow(NLEN as nat)) % prime(),
            r.is_norm(),
    {
        let r = Big {
            w: [
                0x15bef7ae, 0x1031cd0e, 0x2dd93e8, 0x9226323, 0xe6e2cd2, 0x11684daa, 0x1170e5db,
                0x88e25b1, 0x1b366399, 0x1c536f47, 0xd1f9cbc, 0x278b67f, 0x1ea66a2b, 0xc,
            ],
        };
        proof {
            reveal_with_fuel(vpre, 16);
            reveal_with_fuel(bpow, 16);
            assert(r.val()
                == 0x19ea66a2b13c5b3fb47e72f38a6de8fb36639944712d8c5c3976e2d09b54e6e2cd249131918b764fa20639a1d5bef7aeint);
            lemma_radix_value();
            vstd::arithmetic::div_mod::lemma_fundamental_div_mod_converse(
                bpow(NLEN as nat) * bpow(NLEN as nat),
                prime(),
                0x9d835d2f3cc9e45ce28101b0cc7a6ba291b82741ff6a0a94bdf4771e0286779d3997167a058f1c07b13e207f56591ba2ead397b918f6int,
                0x19ea66a2b13c5b3fb47e72f38a6de8fb36639944712d8c5c3976e2d09b54e6e2cd249131918b764fa20639a1d5bef7aeint,
            );
        }
        r
    }


    /// The square root of −1/2: the base-field component shared by the
    /// square roots of ±u, used by the roots of unity. As a plain integer
    /// below the prime.
    pub fn root_neg_half() -> (r: Big)
        ensures
            r.val() == 0x6af0e0437ff400b6831e36d6bd17ffe48395dabc2d3435e77f76e17009241c5ee67992f72ec05f4c81084fbede3cc09int,
            r.is_norm(),
            0 <= r.val() < prime(),
    {
        let r = Big {
            w: [
                0xde3cc09, 0x8427df, 0x1b017d32, 0xf325ee5, 0x41c5ee6, 0x170b8049, 0xd79dfdd, 0x15785a68, 0x1e48395d, 0xb5e8bff, 0x1a0c78db, 0xffe8016, 0xaf0e043, 0x3,
            ],
        };
        proof {
            reveal_with_fuel(vpre, 16);
            reveal_with_fuel(bpow, 16);
            assert(r.val() == 0x6af0e0437ff400b6831e36d6bd17ffe48395dabc2d3435e77f76e17009241c5ee67992f72ec05f4c81084fbede3cc09int);
        }
        r
    }

    /// The first η patch constant for the swu fallback, as a plain integer below the prime.
    pub fn eta1() -> (r: Big)
        ensures
            r.val() == 0x699be3b8c6870965e5bf892ad5d2cc7b0e85a117402dfd83b7f4a947e02d978498255a2aaec0ac627b5afbdf1bf1c90int,
            r.is_norm(),
            0 <= r.val() < prime(),
    {
        let r = Big {
            w: [
                0x11bf1c90, 0x1dad7def, 0x1b02b189, 0x4ab4555, 0xd978498, 0x54a3f01, 0x1f60edfd, 0x22e805b, 0x7b0e85a, 0x156ae966, 0x1796fe24, 0x18d0e12c, 0x99be3b8, 0x3,
            ],
        };
        proof {
            reveal_with_fuel(vpre, 16);
            reveal_with_fuel(bpow, 16);
            assert(r.val() == 0x699be3b8c6870965e5bf892ad5d2cc7b0e85a117402dfd83b7f4a947e02d978498255a2aaec0ac627b5afbdf1bf1c90int);
        }
        r
    }

    /// The second η patch constant, as a plain integer below the prime.
    pub fn eta2() -> (r: Big)
        ensures
            r.val() == 0x8157cd83046453f5dd0972b6e3949e4288020b5b8a9cc99ca07e27089a2ce2436d965026adad3ef7baba37f2183e9b5int,
            r.is_norm(),
            0 <= r.val() < prime(),
    {
        let r = Big {
            w: [
                0x183e9b5, 0x1d5d1bf9, 0x16b4fbde, 0x12ca04d5, 0xce2436d, 0x113844d1, 0x1267281f, 0x16b71539, 0x4288020, 0x1b71ca4f, 0x177425ca, 0x8c8a7e, 0x157cd83, 0x4,
            ],
        };
        proof {
            reveal_with_fuel(vpre, 16);
            reveal_with_fuel(bpow, 16);
            assert(r.val() == 0x8157cd83046453f5dd0972b6e3949e4288020b5b8a9cc99ca07e27089a2ce2436d965026adad3ef7baba37f2183e9b5int);
        }
        r
    }

    /// The third η patch constant, as a plain integer below the prime.
    pub fn eta3() -> (r: Big)
        ensures
            r.val() == 0xab1c2ffdd6c253ca155231eb3e71ba044fd562f6f72bc5bad5ec46a0b7a3b0247cf08ce6c6317f40edbc653a72dee17int,
            r.is_norm(),
            0 <= r.val() < prime(),
    {
        let r = Big {
            w: [
                0x72dee17, 0x16de329d, 0x18c5fd03, 0x1e119cd8, 0x3b0247c, 0x23505bd, 0x116eb57b, 0x5edee57, 0x44fd56, 0x159f38dd, 0x85548c7, 0x1ad84a79, 0xb1c2ffd, 0x5,
            ],
        };
        proof {
            reveal_with_fuel(vpre, 16);
            reveal_with_fuel(bpow, 16);
            assert(r.val() == 0xab1c2ffdd6c253ca155231eb3e71ba044fd562f6f72bc5bad5ec46a0b7a3b0247cf08ce6c6317f40edbc653a72dee17int);
        }
        r
    }

    /// The fourth η patch constant, as a plain integer below the prime.
    pub fn eta4() -> (r: Big)
        ensures
            r.val() == 0xaa404866706722864480885d68ad0ccac1967c7544b447873cc37e0181271e006df72162a3d3e0287bf597fbf7f8fc1int,
            r.is_norm(),
            0 <= r.val() < prime(),
    {
        let r = Big {
            w: [
                0x1f7f8fc1, 0x1dfacbfd, 0xf4f80a1, 0x1ee42c54, 0x71e006d, 0x1bf00c09, 0x11e1cf30, 0x18ea8968, 0xcac1967, 0xeb45686, 0x19120221, 0xe0ce450, 0xa404866, 0x5,
            ],
        };
        proof {
            reveal_with_fuel(vpre, 16);
            reveal_with_fuel(bpow, 16);
            assert(r.val() == 0xaa404866706722864480885d68ad0ccac1967c7544b447873cc37e0181271e006df72162a3d3e0287bf597fbf7f8fc1int);
        }
        r
    }}

/// The numeric value of the Montgomery radix 2^406.
pub proof fn lemma_radix_value()
    ensures
        bpow(NLEN as nat)
            == 0x400000000000000000000000000000000000000000000000000000000000000000000000000000000000000000000000000000int,
{
    reveal_with_fuel(bpow, 16);
}

/// The Montgomery constant annihilates the modulus modulo the radix.
pub proof fn lemma_mconst()
    ensures
        (1 + MCONST * 0x1fffaaab) % 0x20000000 == 0int,
{
}

/// The prime is odd and leaves ample headroom in the fixed width: a value
/// below 2^15 times the prime fits the limbs, and a full product of two
/// excess-bounded elements fits the double width demanded by the
/// Montgomery reduction.
pub proof fn lemma_prime_shape()
    ensures
        1 <= prime(),
        prime() % 2 == 1,
        prime() < bpow(NLEN as nat),
        0x8000 * prime() < bpow(NLEN as nat),
        0x10000 * prime() < bpow(NLEN as nat),
        0x4000 * (prime() * prime()) <= bpow(NLEN as nat) * (bpow(NLEN as nat) - prime()),
        0x10000 * (prime() * prime()) <= bpow(NLEN as nat) * (bpow(NLEN as nat) - prime()),
        0x20000 * (prime() * prime()) < bpow(crate::big::DNLEN as nat),
{
    lemma_radix_value();
    reveal_with_fuel(bpow, 30);
    assert(prime() * prime()
        == 0x2a437a4b8c35fc74bd278eaa22f25e9e2dc90e50e7046b466e59e49349e8bd050a62cfd16ddca6ef53149330978ef011d68619c86185c7b292e85a87091a04966bf91ed3e71b743162c338362113cfd7ced6b1d76382eab26aa00001c718e39int);
}

} // verus!
