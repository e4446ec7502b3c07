//! Double-precision values carried as their IEEE 754 bit patterns.
//!
//! The library never computes with floating-point arithmetic: a value is a
//! 64-bit pattern, and every question asked of it (its sign, its magnitude
//! scaled by a power of two, its place in the total order) is answered by
//! exact integer arithmetic over the sign, exponent and mantissa fields.
//!
//! A finite pattern with adjusted exponent `e` and mantissa `m` denotes the
//! real number `(-1)^sign * m * 2^(e - 1075)`; subnormals (biased exponent
//! zero) use `e = 1` with no implicit leading bit, so the formula is uniform.

use vstd::prelude::*;
use vstd::arithmetic::power2::pow2;
use vstd::arithmetic::power2::lemma_pow2_pos;
use vstd::arithmetic::power2::lemma_pow2_strictly_increases;
use vstd::arithmetic::power2::lemma2_to64;
use vstd::arithmetic::power2::lemma2_to64_rest;
use vstd::arithmetic::div_mod::lemma_fundamental_div_mod_converse;
use vstd::arithmetic::div_mod::lemma_div_nonincreasing;
use vstd::arithmetic::mul::lemma_mul_strict_upper_bound;
use vstd::arithmetic::mul::lemma_mul_inequality;
use vstd::bits::lemma_u64_shl_is_mul;

verus! {

/// A double-precision floating-point value, held as its IEEE 754 bit pattern.
///
/// Single-precision values participate through their exact widening to
/// double precision, which the caller performs when constructing the
/// pattern; every comparison and bucketing contract then applies to them
/// verbatim.
#[derive(Clone, Copy, PartialEq, Eq, Structural, Debug, Hash)]
pub struct Scalar {
    /// The raw IEEE 754 double-precision bit pattern.
    pub bits: u64,
}

impl View for Scalar {
    type V = u64;

    open spec fn view(&self) -> u64 {
        self.bits
    }
}

impl Scalar {
    /// Wraps a raw IEEE 754 double-precision bit pattern.
    pub fn from_bits(bits: u64) -> (r: Scalar)
        ensures
            r.bits == bits,
    {
        Scalar { bits }
    }

    /// Returns the raw bit pattern.
    pub fn to_bits(self) -> (r: u64)
        ensures
            r == self.bits,
    {
        self.bits
    }

    /// Returns whether the sign bit is clear (the value is positive, +0, or a
    /// NaN with a positive sign).
    pub fn is_sign_positive(self) -> (r: bool)
        ensures
            r == !sign_bit(self.bits),
    {
        let b: u64 = self.bits;
        proof {
            assert(b >> 63 == 0 || b >> 63 == 1) by (bit_vector);
        }
        b >> 63 == 0
    }
}

/// The sign bit of a pattern.
pub open spec fn sign_bit(bits: u64) -> bool {
    bits >> 63 == 1u64
}

/// The biased exponent field (11 bits).
pub open spec fn biased_exp(bits: u64) -> u64 {
    (bits >> 52) & 0x7ff
}

/// The fraction field (52 bits).
pub open spec fn frac_field(bits: u64) -> u64 {
    bits & 0xf_ffff_ffff_ffff
}

/// Whether the pattern denotes a finite number (not an infinity, not a NaN).
pub open spec fn is_finite_bits(bits: u64) -> bool {
    biased_exp(bits) != 0x7ff
}

/// Whether the pattern is a NaN.
pub open spec fn is_nan_bits(bits: u64) -> bool {
    biased_exp(bits) == 0x7ff && frac_field(bits) != 0
}

/// The mantissa with the implicit leading bit made explicit for normals.
pub open spec fn mant(bits: u64) -> u64 {
    if biased_exp(bits) == 0 {
        frac_field(bits)
    } else {
        (frac_field(bits) + 0x10_0000_0000_0000) as u64
    }
}

/// The adjusted exponent: subnormals share the exponent of the smallest normals.
pub open spec fn adj_exp(bits: u64) -> int {
    if biased_exp(bits) == 0 {
        1
    } else {
        biased_exp(bits) as int
    }
}

/// The mantissa with the sign applied.
pub open spec fn signed_mant(bits: u64) -> int {
    if sign_bit(bits) {
        -(mant(bits) as int)
    } else {
        mant(bits) as int
    }
}

/// `v * 2^k` truncated toward zero, where `v` is the real number a finite
/// pattern denotes.
pub open spec fn strunc(bits: u64, k: int) -> int {
    let t = adj_exp(bits) - 1075 + k;
    if t >= 0 {
        signed_mant(bits) * pow2(t as nat)
    } else if sign_bit(bits) {
        -((mant(bits) as int) / (pow2((-t) as nat) as int))
    } else {
        (mant(bits) as int) / (pow2((-t) as nat) as int)
    }
}

/// The largest `i64` value, as a spec constant.
pub open spec fn i64_max() -> int {
    0x7fff_ffff_ffff_ffff
}

/// The smallest `i64` value, as a spec constant.
pub open spec fn i64_min() -> int {
    -0x8000_0000_0000_0000
}

/// Clamps an integer into the `i64` range.
pub open spec fn clamp_i64(x: int) -> int {
    if x < i64_min() {
        i64_min()
    } else if x > i64_max() {
        i64_max()
    } else {
        x
    }
}

/// `v * 2^k` truncated toward zero and clamped into `i64`, extended to
/// every bit pattern: NaN is sent to 0, and the infinities saturate.
pub open spec fn strunc_total(bits: u64, k: int) -> int {
    if is_nan_bits(bits) {
        0
    } else if !is_finite_bits(bits) {
        if sign_bit(bits) {
            i64_min()
        } else {
            i64_max()
        }
    } else {
        clamp_i64(strunc(bits, k))
    }
}

/// The sign-magnitude reading of a `(negative, magnitude)` pair.
pub open spec fn sm_val(neg: bool, mag: u64) -> int {
    if neg {
        -(mag as int)
    } else {
        mag as int
    }
}

/// Field bounds of the IEEE 754 decomposition.
pub proof fn lemma_fields(bits: u64)
    ensures
        biased_exp(bits) <= 0x7ff,
        frac_field(bits) <= 0xf_ffff_ffff_ffff,
        mant(bits) <= 0x1f_ffff_ffff_ffff,
        1 <= adj_exp(bits) <= 0x7ff,
{
    assert((bits >> 52) & 0x7ff <= 0x7ff && bits & 0xf_ffff_ffff_ffff <= 0xf_ffff_ffff_ffff)
        by (bit_vector);
}

/// A pattern with a zero mantissa scales and truncates to zero.
pub(crate) proof fn lemma_strunc_zero(bits: u64, k: int)
    requires
        mant(bits) == 0,
    ensures
        strunc(bits, k) == 0,
{
    let t = adj_exp(bits) - 1075 + k;
    if t < 0 {
        lemma_pow2_pos((-t) as nat);
        lemma_fundamental_div_mod_converse(0, pow2((-t) as nat) as int, 0, 0);
    }
}

/// `2^e` as a `u64`, for `e < 64`.
pub fn pow2_u64(e: u64) -> (r: u64)
    requires
        e < 64,
    ensures
        r == pow2(e as nat),
        r >= 1,
{
    proof {
        lemma2_to64();
        lemma2_to64_rest();
        if e < 63 {
            lemma_pow2_strictly_increases(e as nat, 63);
        }
        lemma_u64_shl_is_mul(1u64, e);
        lemma_pow2_pos(e as nat);
    }
    1u64 << e
}

/// Computes the clamped, zero-truncated scaling of a pattern: the returned
/// pair `(neg, mag)` reads as `strunc_total(bits, k)` in sign-magnitude form.
pub fn scaled_trunc(bits: u64, k: i32) -> (r: (bool, u64))
    ensures
        sm_val(r.0, r.1) == strunc_total(bits, k as int),
        r.0 ==> r.1 >= 1,
{
    let sign: bool = bits >> 63 == 1;
    let e: u64 = (bits >> 52) & 0x7ff;
    let f: u64 = bits & 0xf_ffff_ffff_ffff;
    proof {
        lemma_fields(bits);
    }
    if e == 0x7ff {
        if f != 0 {
            return (false, 0);
        } else if sign {
            return (true, 0x8000_0000_0000_0000);
        } else {
            return (false, 0x7fff_ffff_ffff_ffff);
        }
    }
    let m: u64 = if e == 0 {
        f
    } else {
        f + 0x10_0000_0000_0000
    };
    let ae: i64 = if e == 0 {
        1
    } else {
        e as i64
    };
    if m == 0 {
        proof {
            lemma_strunc_zero(bits, k as int);
        }
        return (false, 0);
    }
    let t: i64 = ae + (k as i64) - 1075;
    if t >= 0 {
        if t >= 64 {
            proof {
                lemma2_to64();
                lemma2_to64_rest();
                if t > 64 {
                    lemma_pow2_strictly_increases(64, t as nat);
                }
                lemma_mul_inequality(pow2(64) as int, pow2(t as nat) as int, m as int);
                lemma_mul_inequality(1, m as int, pow2(64) as int);
                assert(pow2(64) * (m as int) == (m as int) * pow2(64)
                    && (1 as int) * pow2(64) == pow2(64)
                    && pow2(t as nat) * (m as int) == (m as int) * pow2(t as nat)
                    && (-(m as int)) * pow2(t as nat) == -((m as int) * pow2(t as nat)))
                    by (nonlinear_arith);
                assert((m as int) * pow2(t as nat) >= pow2(64));
            }
            if sign {
                return (true, 0x8000_0000_0000_0000);
            } else {
                return (false, 0x7fff_ffff_ffff_ffff);
            }
        }
        let p2: u64 = pow2_u64(t as u64);
        proof {
            lemma2_to64();
            lemma2_to64_rest();
            if (t as nat) < 63 {
                lemma_pow2_strictly_increases(t as nat, 63);
            }
            lemma_mul_strict_upper_bound(
                m as int,
                0x20_0000_0000_0000,
                p2 as int,
                0x8000_0000_0000_0001,
            );
            lemma_mul_inequality(1, m as int, p2 as int);
            assert((1 as int) * (p2 as int) == p2 as int && (-(m as int)) * pow2(t as nat) == -((
            m as int) * pow2(t as nat))) by (nonlinear_arith);
        }
        let p: u128 = (m as u128) * (p2 as u128);
        if sign {
            if p >= 0x8000_0000_0000_0000 {
                return (true, 0x8000_0000_0000_0000);
            } else {
                return (true, p as u64);
            }
        } else {
            if p >= 0x7fff_ffff_ffff_ffff {
                return (false, 0x7fff_ffff_ffff_ffff);
            } else {
                return (false, p as u64);
            }
        }
    } else {
        let sh: i64 = 0 - t;
        if sh >= 53 {
            proof {
                lemma2_to64();
                lemma2_to64_rest();
                if sh > 53 {
                    lemma_pow2_strictly_increases(53, sh as nat);
                }
                lemma_div_small_is_zero(m as int, pow2(sh as nat) as int);
            }
            return (false, 0);
        }
        let d: u64 = pow2_u64(sh as u64);
        let q: u64 = m / d;
        proof {
            lemma_div_nonincreasing(m as int, d as int);
        }
        if sign {
            if q == 0 {
                return (false, 0);
            }
            return (true, q);
        } else {
            return (false, q);
        }
    }
}

/// `0 <= a < d` gives `a / d == 0`.
pub(crate) proof fn lemma_div_small_is_zero(a: int, d: int)
    requires
        0 <= a < d,
    ensures
        a / d == 0,
{
    lemma_fundamental_div_mod_converse(a, d, 0, a);
}

/// The key whose unsigned order is the IEEE 754 total order on patterns.
pub open spec fn ord_key(bits: u64) -> u64 {
    if sign_bit(bits) {
        !bits
    } else {
        bits ^ 0x8000_0000_0000_0000
    }
}

/// Computes the total-order key of a pattern.
pub fn total_order_key(bits: u64) -> (r: u64)
    ensures
        r == ord_key(bits),
{
    if bits >> 63 == 1 {
        !bits
    } else {
        bits ^ 0x8000_0000_0000_0000
    }
}

/// The total-order key is injective, so the order it induces distinguishes
/// every pair of distinct patterns.
pub proof fn lemma_ord_key_injective(a: u64, b: u64)
    requires
        ord_key(a) == ord_key(b),
    ensures
        a == b,
{
    assert(((a >> 63 == 1) && (b >> 63 == 1) && !a == !b) ==> a == b) by (bit_vector);
    assert(((a >> 63 == 1) && !(b >> 63 == 1)) ==> !a != b ^ 0x8000_0000_0000_0000) by (bit_vector);
    assert((!(a >> 63 == 1) && (b >> 63 == 1)) ==> a ^ 0x8000_0000_0000_0000 != !b) by (bit_vector);
    assert((!(a >> 63 == 1) && !(b >> 63 == 1) && a ^ 0x8000_0000_0000_0000 == b
        ^ 0x8000_0000_0000_0000) ==> a == b) by (bit_vector);
}

} // verus!
