//! Quantization of floating-point color samples to single bytes.
//!
//! A sample is an IEEE 754 binary32 value carried by its bit pattern, so
//! that every step of the computation is plain integer arithmetic on the
//! fields of that pattern. Quantizing a sample means forming the binary32
//! product of `255` and the sample, rounded to the nearest representable
//! value with ties to even, and then narrowing it to the unsigned 8-bit
//! range: truncation toward zero, with values below `0` pinned to `0`,
//! values of `256` and above pinned to `255`, and NaN narrowed to `0`.

use vstd::prelude::*;
use vstd::arithmetic::power2::pow2;
use vstd::arithmetic::power2::lemma_pow2_unfold;
use vstd::arithmetic::power2::lemma_pow2_adds;
use vstd::arithmetic::power2::lemma_pow2_strictly_increases;
use vstd::arithmetic::power2::lemma_pow2_pos;
use vstd::arithmetic::power2::lemma2_to64;
use vstd::arithmetic::div_mod::lemma_fundamental_div_mod;
use vstd::arithmetic::div_mod::lemma_mod_bound;
use vstd::arithmetic::div_mod::lemma_basic_div;
use vstd::arithmetic::div_mod::lemma_multiply_divide_lt;

verus! {

/// One color sample: the bit pattern of an IEEE 754 binary32 value in
/// `[0.0, 1.0]`. Out-of-range patterns, infinities and NaN are accepted
/// too; they quantize to the byte the narrowing rule gives them.
#[derive(Clone, Copy, Debug, PartialEq, Eq, Structural)]
pub struct Sample {
    /// The sample as `f32::to_bits` renders it.
    pub bits: u32,
}

/// Number of binary digits of `m`; zero for zero.
pub open spec fn bit_len(m: nat) -> nat
    decreases m,
{
    if m == 0 {
        0
    } else {
        1 + bit_len(m / 2)
    }
}

/// A positive number lies between the two powers of two its digit count names.
pub proof fn lemma_bit_len_bounds(m: nat)
    requires
        m > 0,
    ensures
        m < pow2(bit_len(m)),
        pow2(bit_len(m)) <= 2 * m,
    decreases m,
{
    lemma_fundamental_div_mod(m as int, 2);
    lemma_mod_bound(m as int, 2);
    assert(bit_len(m) == 1 + bit_len(m / 2));
    if m / 2 == 0 {
        lemma2_to64();
    } else {
        lemma_bit_len_bounds(m / 2);
        lemma_pow2_unfold(bit_len(m));
    }
}

/// A number below `pow2(k)` has at most `k` binary digits.
pub proof fn lemma_bit_len_le(m: nat, k: nat)
    requires
        m < pow2(k),
    ensures
        bit_len(m) <= k,
{
    if m > 0 {
        lemma_bit_len_bounds(m);
        if bit_len(m) > k {
            if bit_len(m) > k + 1 {
                lemma_pow2_strictly_increases(k + 1, bit_len(m));
            }
            lemma_pow2_unfold((k + 1) as nat);
        }
    }
}

/// Sign bit of a binary32 pattern: `1` for negative values.
pub open spec fn sign_field(bits: u32) -> int {
    bits as int / 0x8000_0000
}

/// Stored exponent of a binary32 pattern: eight bits below the sign.
pub open spec fn exponent_field(bits: u32) -> int {
    (bits as int / 0x80_0000) % 0x100
}

/// Fraction of a binary32 pattern: its low 23 bits.
pub open spec fn fraction_field(bits: u32) -> int {
    bits as int % 0x80_0000
}

/// Round-to-nearest of `num / pow2(t)` with ties to even: the integer
/// quotient, plus one when the discarded remainder exceeds one half of the
/// divisor, or equals it and the quotient is odd.
pub open spec fn round_half_even(num: int, t: nat) -> int {
    let q = num / pow2(t) as int;
    let r = num % pow2(t) as int;
    if 2 * r > pow2(t) || (2 * r == pow2(t) && q % 2 == 1) {
        q + 1
    } else {
        q
    }
}

/// The byte a binary32 sample quantizes to: the binary32 product of `255`
/// and the sample (rounded to 24 significant binary digits, ties to even),
/// truncated toward zero and pinned into the 8-bit range.
///
/// A finite positive sample with stored exponent `e > 0` and fraction `f`
/// has the value `(f + 2^23) * 2^(e - 150)`, since the exponent bias is
/// `127` and the fraction holds `23` binary places; a subnormal one
/// (`e == 0`) has the value `f * 2^(1 - 150)`.
pub open spec fn quantize_spec(bits: u32) -> u8 {
    let exp = exponent_field(bits);
    let frac = fraction_field(bits);
    if exp == 0xff {
        if frac != 0 {
            0u8  // NaN narrows to zero
        } else if sign_field(bits) == 1 {
            0u8  // negative infinity stays below zero
        } else {
            255u8  // positive infinity saturates
        }
    } else if sign_field(bits) == 1 {
        0u8  // the product of a negative sample stays at or below zero
    } else if exp == 0 && frac == 0 {
        0u8  // positive zero
    } else {
        let m = if exp == 0 {
            frac
        } else {
            frac + 0x80_0000
        };
        let e = if exp == 0 {
            1int
        } else {
            exp
        };
        if e >= 150 {
            255u8  // the product is at least 255 and exact, or infinite
        } else {
            // the exact product is num / 2^d
            let num = 255 * m;
            let d = 150 - e;
            let len = bit_len(num as nat) as int;
            if len > d + 8 {
                255u8  // the product is at least 256
            } else {
                // keep 24 significant digits of the product
                let t = if len > 24 {
                    (len - 24) as nat
                } else {
                    0nat
                };
                let v = round_half_even(num, t) / pow2((d - t) as nat) as int;
                if v >= 255 {
                    255u8
                } else {
                    v as u8
                }
            }
        }
    }
}

/// `pow2` on machine words.
fn pow2_u64(k: u32) -> (r: u64)
    requires
        k < 64,
    ensures
        r == pow2(k as nat),
    decreases k,
{
    if k == 0 {
        proof {
            lemma2_to64();
        }
        1
    } else {
        let half = pow2_u64(k - 1);
        proof {
            lemma_pow2_unfold(k as nat);
            lemma_pow2_strictly_increases(k as nat, 64);
            lemma2_to64();
        }
        2 * half
    }
}

/// `bit_len` on machine words.
fn bit_len_u64(m: u64) -> (r: u32)
    ensures
        r == bit_len(m as nat),
    decreases m,
{
    if m == 0 {
        0
    } else {
        proof {
            lemma2_to64();
            lemma_pow2_unfold(64);
            lemma_multiply_divide_lt(m as int, 2, pow2(63) as int);
            lemma_bit_len_le((m / 2) as nat, 63);
        }
        1 + bit_len_u64(m / 2)
    }
}

/// Quantize one sample, with exact integer arithmetic on its bit pattern.
pub fn quantize(sample: Sample) -> (byte: u8)
    ensures
        byte == quantize_spec(sample.bits),
{
    let bits = sample.bits;
    let sign: u32 = bits / 0x8000_0000;
    let exp: u32 = (bits / 0x80_0000) % 0x100;
    let frac: u32 = bits % 0x80_0000;
    if exp == 0xff {
        if frac != 0 {
            0
        } else if sign == 1 {
            0
        } else {
            255
        }
    } else if sign == 1 {
        0
    } else if exp == 0 && frac == 0 {
        0
    } else {
        let m: u64 = if exp == 0 {
            frac as u64
        } else {
            frac as u64 + 0x80_0000
        };
        let e: u32 = if exp == 0 {
            1
        } else {
            exp
        };
        if e >= 150 {
            255
        } else {
            let num: u64 = 255 * m;
            let d: u32 = 150 - e;
            let len: u32 = bit_len_u64(num);
            proof {
                lemma2_to64();
                lemma_bit_len_le(num as nat, 32);
                lemma_bit_len_bounds(num as nat);
            }
            if len > d + 8 {
                255
            } else {
                let t: u32 = if len > 24 {
                    len - 24
                } else {
                    0
                };
                let p: u64 = pow2_u64(t);
                let q: u64 = num / p;
                let r: u64 = num % p;
                proof {
                    lemma_pow2_pos(t as nat);
                }
                let rounded: u64 = if 2 * r > p || (2 * r == p && q % 2 == 1) {
                    q + 1
                } else {
                    q
                };
                let shift: u32 = d - t;
                proof {
                    // rounded stays under 2^25: num has at most 24 digits past t
                    if t == 0 {
                        lemma_pow2_strictly_increases(len as nat, 25);
                    } else {
                        lemma_pow2_adds(t as nat, 24);
                        lemma_multiply_divide_lt(num as int, pow2(t as nat) as int, pow2(24) as int);
                        lemma_pow2_strictly_increases(24, 25);
                    }
                }
                let v: u64 = if shift >= 25 {
                    proof {
                        if shift > 25 {
                            lemma_pow2_strictly_increases(25, shift as nat);
                        }
                        lemma_pow2_pos(shift as nat);
                        lemma_basic_div(rounded as int, pow2(shift as nat) as int);
                    }
                    0
                } else {
                    rounded / pow2_u64(shift)
                };
                if v >= 255 {
                    255
                } else {
                    v as u8
                }
            }
        }
    }
}

} // verus!
