//! Tolerance configuration and deterministic bucketing of the real line.
//!
//! A [`Precision`] fixes a tolerance `2^-n` for an integer exponent `n`.
//! Values are bucketed on a grid of cells of that same width, quantized by
//! truncation toward zero (so the two cells astride zero form one
//! double-width band, and a value and its negation near zero can share a
//! bucket).  The `absolute(n)` constructor uses the exponent `n` directly;
//! `new_simple(n)`, which backs the library-wide default, realizes its
//! parameter the same way (the concrete formula for the default mode is
//! this implementation's documented choice).  The default precision uses
//! `n = 48`.
//!
//! A bucket identifier is the clamped integer `trunc(v * 2^n)`, reencoded
//! into `u64` by two's complement.  The neighbouring buckets one full cell
//! away (`v` minus and plus the tolerance) support boundary hysteresis in
//! the interner: a freshly registered value also claims both of them when
//! they are vacant.
//!
//! The continuous tolerance test accepts two values when their clamped
//! scaled truncations at half-cell granularity differ by at most two steps,
//! so values whose difference is below the tolerance always compare equal,
//! and values accepted as equal always differ by less than twice the
//! tolerance (saturation and the sign-merged band at zero aside); a NaN
//! compares equal to nothing.

use vstd::prelude::*;
use crate::scalar::Scalar;
use crate::scalar::clamp_i64;
use crate::scalar::i64_max;
use crate::scalar::i64_min;
use crate::scalar::is_nan_bits;
use crate::scalar::scaled_trunc;
use crate::scalar::strunc_total;
use crate::scalar::sm_val;

verus! {

/// A tolerance `2^-w`: values are bucketed on a grid of cells of width
/// `2^-w` by truncation toward zero.
#[derive(Clone, Copy, PartialEq, Eq, Structural, Debug)]
pub struct Precision {
    w: i32,
}

/// The two's-complement reencoding of a clamped scaled truncation as a
/// bucket identifier.
pub open spec fn bucket_id_of(v: int) -> u64 {
    if v >= 0 {
        v as u64
    } else {
        (v + 0x1_0000_0000_0000_0000) as u64
    }
}

/// Integer halving toward zero.
pub open spec fn tdiv2(v: int) -> int {
    if v >= 0 {
        v / 2
    } else {
        -((-v) / 2)
    }
}

impl Precision {
    /// The width exponent: bucket cells have width `2^-w`, which is also the
    /// tolerance.
    pub closed spec fn wexp(self) -> int {
        self.w as int
    }

    #[verifier::type_invariant]
    closed spec fn type_inv(self) -> bool {
        -100_000 <= self.w <= 100_000
    }

    /// The clamped zero-truncated scaling of a pattern at half-cell
    /// granularity (twice the grid scale).
    pub open spec fn spec_sf2(self, bits: u64) -> int {
        strunc_total(bits, self.wexp() + 1)
    }

    /// The bucket identifier of a pattern: the half-cell scaling halved
    /// again toward zero, so that it agrees with the middle result of
    /// [`Precision::nearby_buckets`] on every input.
    pub open spec fn spec_bucket(self, bits: u64) -> u64 {
        self.spec_mid(bits)
    }

    /// The bucket identifier of the cell holding `v` minus the tolerance.
    pub open spec fn spec_lo(self, bits: u64) -> u64 {
        bucket_id_of(tdiv2(clamp_i64(self.spec_sf2(bits) - 2)))
    }

    /// The bucket of `v` itself, computed from the tolerance scale.
    pub open spec fn spec_mid(self, bits: u64) -> u64 {
        bucket_id_of(tdiv2(self.spec_sf2(bits)))
    }

    /// The bucket identifier of the cell holding `v` plus the tolerance.
    pub open spec fn spec_hi(self, bits: u64) -> u64 {
        bucket_id_of(tdiv2(clamp_i64(self.spec_sf2(bits) + 2)))
    }

    /// The continuous tolerance test: no NaN, and the clamped scaled
    /// truncations at the tolerance scale differ by at most one step.
    pub open spec fn spec_eq(self, a: u64, b: u64) -> bool {
        &&& !is_nan_bits(a)
        &&& !is_nan_bits(b)
        &&& -2 <= self.spec_sf2(a) - self.spec_sf2(b) <= 2
    }

    /// An absolute tolerance of `2^-n`: bucket cells of width `2^-n`.
    ///
    /// Tolerance exponents beyond `±100000` are clamped; they are already
    /// far outside the dynamic range of double-precision values.
    pub fn absolute(n: i32) -> (r: Precision)
        ensures
            r.wexp() == clamp_wexp(n as int),
    {
        Precision { w: clamp_exponent(n) }
    }

    /// The default ("simple") tolerance mode with parameter `n`.
    ///
    /// In this implementation the parameter is realized exactly as in the
    /// absolute mode: the tolerance is `2^-n`.
    pub fn new_simple(n: i32) -> (r: Precision)
        ensures
            r.wexp() == clamp_wexp(n as int),
    {
        Precision { w: clamp_exponent(n) }
    }
}

impl Default for Precision {
    /// The library-wide default tolerance, `2^-48`.
    fn default() -> (r: Precision)
        ensures
            r.wexp() == 48,
    {
        Precision { w: 48 }
    }
}

/// The clamp applied to requested width exponents.
pub open spec fn clamp_wexp(n: int) -> int {
    if n < -100_000 {
        -100_000
    } else if n > 100_000 {
        100_000
    } else {
        n
    }
}

/// Clamps a requested width exponent into the supported band.
fn clamp_exponent(n: i32) -> (r: i32)
    ensures
        r as int == clamp_wexp(n as int),
        -100_000 <= r <= 100_000,
{
    if n < -100_000 {
        -100_000
    } else if n > 100_000 {
        100_000
    } else {
        n
    }
}

/// Reencodes a sign-magnitude value in the `i64` range as a bucket identifier.
fn id_of(neg: bool, mag: u64) -> (r: u64)
    requires
        neg ==> 1 <= mag <= 0x8000_0000_0000_0000,
    ensures
        r == bucket_id_of(sm_val(neg, mag)),
{
    if neg {
        (0x1_0000_0000_0000_0000u128 - (mag as u128)) as u64
    } else {
        mag
    }
}

/// Halves a sign-magnitude value, truncating toward zero.
fn half_toward_zero(neg: bool, mag: u64) -> (r: (bool, u64))
    requires
        neg ==> 1 <= mag <= 0x8000_0000_0000_0000,
        !neg ==> mag <= 0x7fff_ffff_ffff_ffff,
    ensures
        sm_val(r.0, r.1) == tdiv2(sm_val(neg, mag)),
        r.0 ==> 1 <= r.1 <= 0x8000_0000_0000_0000,
        !r.0 ==> r.1 <= 0x7fff_ffff_ffff_ffff,
{
    let q: u64 = mag / 2;
    if neg && q > 0 {
        (true, q)
    } else {
        (false, q)
    }
}

/// Subtracts a small step from a sign-magnitude value, clamping at the
/// bottom of `i64`.
fn dec_by(neg: bool, mag: u64, d: u64) -> (r: (bool, u64))
    requires
        1 <= d <= 2,
        neg ==> 1 <= mag <= 0x8000_0000_0000_0000,
        !neg ==> mag <= 0x7fff_ffff_ffff_ffff,
    ensures
        sm_val(r.0, r.1) == clamp_i64(sm_val(neg, mag) - d),
        r.0 ==> 1 <= r.1 <= 0x8000_0000_0000_0000,
        !r.0 ==> r.1 <= 0x7fff_ffff_ffff_ffff,
{
    if neg {
        if mag + d >= 0x8000_0000_0000_0000 {
            (true, 0x8000_0000_0000_0000)
        } else {
            (true, mag + d)
        }
    } else {
        if mag >= d {
            (false, mag - d)
        } else {
            (true, d - mag)
        }
    }
}

/// Adds a small step to a sign-magnitude value, clamping at the top of
/// `i64`.
fn inc_by(neg: bool, mag: u64, d: u64) -> (r: (bool, u64))
    requires
        1 <= d <= 2,
        neg ==> 1 <= mag <= 0x8000_0000_0000_0000,
        !neg ==> mag <= 0x7fff_ffff_ffff_ffff,
    ensures
        sm_val(r.0, r.1) == clamp_i64(sm_val(neg, mag) + d),
        r.0 ==> 1 <= r.1 <= 0x8000_0000_0000_0000,
        !r.0 ==> r.1 <= 0x7fff_ffff_ffff_ffff,
{
    if neg {
        if mag <= d {
            (false, d - mag)
        } else {
            (true, mag - d)
        }
    } else {
        if mag + d >= 0x7fff_ffff_ffff_ffff {
            (false, 0x7fff_ffff_ffff_ffff)
        } else {
            (false, mag + d)
        }
    }
}

impl Precision {
    /// Maps a value to its bucket identifier: `trunc(v * 2^w)` (away from
    /// the clamping extremes), reencoded into the unsigned space by two's
    /// complement.  It always equals the middle result of
    /// [`Precision::nearby_buckets`].
    pub fn bucket(&self, x: Scalar) -> (id: u64)
        ensures
            id == self.spec_bucket(x@),
    {
        proof {
            use_type_invariant(self);
        }
        let (neg, mag) = scaled_trunc(x.bits, self.w + 1);
        let (mn, mm) = half_toward_zero(neg, mag);
        id_of(mn, mm)
    }

    /// Returns the buckets that would hold `v` minus the tolerance, `v`
    /// itself, and `v` plus the tolerance (one full cell each way); the
    /// outer two only where they differ from the middle one.
    pub fn nearby_buckets(&self, x: Scalar) -> (r: (Option<u64>, u64, Option<u64>))
        ensures
            r.1 == self.spec_mid(x@),
            r.0 == (if self.spec_lo(x@) != self.spec_mid(x@) {
                Some(self.spec_lo(x@))
            } else {
                None::<u64>
            }),
            r.2 == (if self.spec_hi(x@) != self.spec_mid(x@) {
                Some(self.spec_hi(x@))
            } else {
                None::<u64>
            }),
    {
        proof {
            use_type_invariant(self);
        }
        let (neg, mag) = scaled_trunc(x.bits, self.w + 1);
        let (mn, mm) = half_toward_zero(neg, mag);
        let (dn, dm) = dec_by(neg, mag, 2);
        let (ln, lm) = half_toward_zero(dn, dm);
        let (un, um) = inc_by(neg, mag, 2);
        let (hn, hm) = half_toward_zero(un, um);
        let mid: u64 = id_of(mn, mm);
        let lo: u64 = id_of(ln, lm);
        let hi: u64 = id_of(hn, hm);
        (
            if lo != mid {
                Some(lo)
            } else {
                None
            },
            mid,
            if hi != mid {
                Some(hi)
            } else {
                None
            },
        )
    }

    /// The continuous tolerance test on two values: equal when their clamped
    /// scaled truncations are at most two half-steps apart; never equal to
    /// a NaN.
    pub fn f64_eq(&self, a: Scalar, b: Scalar) -> (r: bool)
        ensures
            r == self.spec_eq(a@, b@),
    {
        proof {
            use_type_invariant(self);
        }
        let ab: u64 = a.bits;
        let bb: u64 = b.bits;
        let ae: u64 = (ab >> 52) & 0x7ff;
        let af: u64 = ab & 0xf_ffff_ffff_ffff;
        let be: u64 = (bb >> 52) & 0x7ff;
        let bf: u64 = bb & 0xf_ffff_ffff_ffff;
        if (ae == 0x7ff && af != 0) || (be == 0x7ff && bf != 0) {
            return false;
        }
        let (na, ma) = scaled_trunc(ab, self.w + 1);
        let (nb, mb) = scaled_trunc(bb, self.w + 1);
        let va: i128 = if na {
            -(ma as i128)
        } else {
            ma as i128
        };
        let vb: i128 = if nb {
            -(mb as i128)
        } else {
            mb as i128
        };
        let d: i128 = va - vb;
        -2 <= d && d <= 2
    }

    /// The continuous tolerance test against zero.
    pub fn f64_eq_zero(&self, x: Scalar) -> (r: bool)
        ensures
            r == self.spec_eq(x@, 0),
    {
        self.f64_eq(x, Scalar::from_bits(0))
    }
}


impl Precision {
    /// The signed cell index of a pattern: its bucket before reencoding.
    pub open spec fn cell_mid(self, bits: u64) -> int {
        tdiv2(self.spec_sf2(bits))
    }

    /// The signed cell index one tolerance below a pattern.
    pub open spec fn cell_lo(self, bits: u64) -> int {
        tdiv2(clamp_i64(self.spec_sf2(bits) - 2))
    }

    /// The signed cell index one tolerance above a pattern.
    pub open spec fn cell_hi(self, bits: u64) -> int {
        tdiv2(clamp_i64(self.spec_sf2(bits) + 2))
    }
}

/// Halving toward zero commutes with negation and shifts by one under a
/// shift of the argument by two.
proof fn lemma_tdiv2_shift(v: int)
    requires
        v >= 2,
    ensures
        tdiv2(v - 2) == tdiv2(v) - 1,
{
    vstd::arithmetic::div_mod::lemma_fundamental_div_mod(v, 2);
    vstd::arithmetic::div_mod::lemma_fundamental_div_mod_converse(v - 2, 2, v / 2 - 1, v % 2);
}

/// Cell indices stay in a band well inside `i64`.
pub proof fn lemma_cell_range(prec: Precision, bits: u64)
    ensures
        -0x4000_0000_0000_0000 <= prec.cell_mid(bits) <= 0x3fff_ffff_ffff_ffff,
        -0x4000_0000_0000_0000 <= prec.cell_lo(bits) <= 0x3fff_ffff_ffff_ffff,
        -0x4000_0000_0000_0000 <= prec.cell_hi(bits) <= 0x3fff_ffff_ffff_ffff,
{
}

/// The neighbouring cells are the adjacent cell indices, except where the
/// step is absorbed: into the double-width band at zero, or at the clamped
/// extremes of the scaled range.
pub proof fn lemma_cell_adjacent(prec: Precision, bits: u64)
    ensures
        prec.cell_lo(bits) == prec.cell_mid(bits) - 1 || prec.cell_lo(bits) == prec.cell_mid(
            bits,
        ),
        prec.cell_hi(bits) == prec.cell_mid(bits) + 1 || prec.cell_hi(bits) == prec.cell_mid(
            bits,
        ),
        prec.cell_lo(bits) == prec.cell_mid(bits) ==> prec.cell_mid(bits) == 0 || prec.cell_mid(
            bits,
        ) == -0x4000_0000_0000_0000,
        prec.cell_hi(bits) == prec.cell_mid(bits) ==> prec.cell_mid(bits) == 0 || prec.cell_mid(
            bits,
        ) == 0x3fff_ffff_ffff_ffff,
{
    let f = prec.spec_sf2(bits);
    if f >= 2 {
        lemma_tdiv2_shift(f);
        if f <= i64_max() - 2 {
            lemma_tdiv2_shift(f + 2);
        } else {
            assert(tdiv2(i64_max()) == 0x3fff_ffff_ffff_ffff);
            assert(tdiv2(i64_max() - 1) == 0x3fff_ffff_ffff_ffff);
        }
    } else if f <= -2 {
        lemma_tdiv2_shift(-f);
        if f >= i64_min() + 2 {
            lemma_tdiv2_shift(-(f - 2));
        } else {
            assert(tdiv2(i64_min()) == -0x4000_0000_0000_0000);
            assert(tdiv2(i64_min() + 1) == -0x4000_0000_0000_0000 + 1 || tdiv2(i64_min() + 1)
                == -0x4000_0000_0000_0000);
        }
    }
}

/// The bucket identifier is zero exactly on the zero cell.
pub proof fn lemma_cell_ids(prec: Precision, a: u64, b: u64)
    ensures
        prec.spec_mid(a) == prec.spec_mid(b) <==> prec.cell_mid(a) == prec.cell_mid(b),
        prec.spec_lo(a) == prec.spec_mid(b) <==> prec.cell_lo(a) == prec.cell_mid(b),
        prec.spec_hi(a) == prec.spec_mid(b) <==> prec.cell_hi(a) == prec.cell_mid(b),
        prec.spec_mid(a) == 0 <==> prec.cell_mid(a) == 0,
        prec.spec_lo(a) == prec.spec_mid(a) <==> prec.cell_lo(a) == prec.cell_mid(a),
        prec.spec_hi(a) == prec.spec_mid(a) <==> prec.cell_hi(a) == prec.cell_mid(a),
{
    lemma_cell_range(prec, a);
    lemma_cell_range(prec, b);
    if bucket_id_of(prec.cell_mid(a)) == bucket_id_of(prec.cell_mid(b)) {
        lemma_bucket_id_injective(prec.cell_mid(a), prec.cell_mid(b));
    }
    if bucket_id_of(prec.cell_lo(a)) == bucket_id_of(prec.cell_mid(b)) {
        lemma_bucket_id_injective(prec.cell_lo(a), prec.cell_mid(b));
    }
    if bucket_id_of(prec.cell_hi(a)) == bucket_id_of(prec.cell_mid(b)) {
        lemma_bucket_id_injective(prec.cell_hi(a), prec.cell_mid(b));
    }
    if bucket_id_of(prec.cell_mid(a)) == 0 {
        lemma_bucket_id_injective(prec.cell_mid(a), 0);
    }
    if bucket_id_of(prec.cell_lo(a)) == bucket_id_of(prec.cell_mid(a)) {
        lemma_bucket_id_injective(prec.cell_lo(a), prec.cell_mid(a));
    }
    if bucket_id_of(prec.cell_hi(a)) == bucket_id_of(prec.cell_mid(a)) {
        lemma_bucket_id_injective(prec.cell_hi(a), prec.cell_mid(a));
    }
}

/// Bucket identifiers determine the clamped cell index: the reencoding is
/// injective on the `i64` range, so distinct cells get distinct
/// identifiers.
pub proof fn lemma_bucket_id_injective(v1: int, v2: int)
    requires
        i64_min() <= v1 <= i64_max(),
        i64_min() <= v2 <= i64_max(),
        bucket_id_of(v1) == bucket_id_of(v2),
    ensures
        v1 == v2,
{
}

} // verus!
