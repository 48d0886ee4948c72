//! IEEE-754 single-precision bit patterns for small unsigned integers.
//!
//! The exporters store coordinates, heights and timestamps as 32-bit floats
//! in little-endian byte order. This crate never computes with floats: it
//! carries each value as the `u32` word holding its bit pattern. Synthetic
//! heights and timestamps start out as integers, so this module encodes an
//! integer below 2^24 (the range single precision represents exactly) into
//! its float bit pattern: sign 0, biased exponent `127 + floor(log2 n)`, and
//! the low 23 bits of `n` shifted so its leading bit drops out.

use vstd::arithmetic::mul::lemma_mul_inequality;
use vstd::arithmetic::power2::{lemma2_to64, lemma_pow2_strictly_increases, pow2};
use vstd::prelude::*;

verus! {

/// Floor of the base-2 logarithm (0 for inputs below 2).
pub open spec fn log2_floor(n: nat) -> nat
    decreases n,
{
    if n < 2 {
        0
    } else {
        1 + log2_floor(n / 2)
    }
}

/// The IEEE-754 single-precision bit pattern of the integer `n`,
/// exact for `n < 2^24`.
pub open spec fn f32_bits(n: nat) -> nat
    recommends
        n < 0x1000000,
{
    if n == 0 {
        0
    } else {
        let e = log2_floor(n);
        (127 + e) * 0x800000 + (n * pow2((23 - e) as nat)) % 0x800000
    }
}

/// 2^e as a 32-bit value, for small exponents.
fn pow2_u32(e: u32) -> (r: u32)
    requires
        e <= 23,
    ensures
        r == pow2(e as nat),
{
    proof {
        lemma2_to64();
    }
    let mut r: u32 = 1;
    let mut k: u32 = 0;
    while k < e
        invariant
            0 <= k <= e <= 23,
            r == pow2(k as nat),
            r <= 0x800000,
        decreases e - k,
    {
        proof {
            lemma2_to64();
            if (k as nat) < 23 {
                lemma_pow2_strictly_increases(k as nat, 23);
            }
        }
        r = r * 2;
        k = k + 1;
    }
    r
}

/// The float bit pattern of the integer `n`, for integers that single
/// precision represents exactly.
pub fn f32_bits_of(n: u32) -> (r: u32)
    requires
        n < 0x1000000,
    ensures
        r == f32_bits(n as nat),
{
    if n == 0 {
        return 0;
    }
    // Find the exponent: the floor of log2(n).
    let mut e: u32 = 0;
    let mut m: u32 = n;
    proof {
        lemma2_to64();
        assert(pow2(0) * (n as nat) == n as nat);
    }
    while m >= 2
        invariant
            1 <= m <= n,
            n < 0x1000000,
            e <= 23,
            log2_floor(n as nat) == e + log2_floor(m as nat),
            pow2(e as nat) * m <= n,
        decreases m,
    {
        proof {
            lemma2_to64();
            lemma_mul_inequality(2, m as int, pow2(e as nat) as int);
            if e as nat + 1 >= 24 {
                lemma_pow2_strictly_increases(24, (e + 1) as nat);
            }
            assert(pow2((e + 1) as nat) == 2 * pow2(e as nat));
            lemma_mul_inequality(2 * (m as int / 2), m as int, pow2(e as nat) as int);
            assert(pow2(e as nat) * (2 * (m as int / 2)) == (2 * pow2(e as nat)) * (m as int / 2))
                by (nonlinear_arith);
        }
        m = m / 2;
        e = e + 1;
    }
    proof {
        assert(log2_floor(n as nat) == e);
        lemma2_to64();
        if (e as nat) < 23 {
            lemma_pow2_strictly_increases(e as nat, 23);
        }
    }
    // The 23-bit mantissa: n shifted left so that its leading bit lands just
    // above the mantissa field, then cut to the field.
    let scale = pow2_u32(23 - e);
    proof {
        lemma2_to64();
        if ((23 - e) as nat) < 23 {
            lemma_pow2_strictly_increases((23 - e) as nat, 23);
        }
        assert((n as int) * (scale as int) < 0x1000000 * 0x800000) by (nonlinear_arith)
            requires
                n < 0x1000000,
                0 <= scale <= 0x800000,
        ;
    }
    let scaled: u64 = (n as u64) * (scale as u64);
    let mant = (scaled % 0x800000) as u32;
    (127 + e) * 0x800000 + mant
}

} // verus!
