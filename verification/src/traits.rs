//! Behavioral contracts for approximate comparison, interning and
//! post-intern hashing.
//!
//! Every contract is parameterized by a [`Precision`] passed at call time
//! and is defined recursively: [`Scalar`] is the floating-point base case,
//! `u64` is a non-float leaf, and composites (vectors, optional values,
//! pairs) delegate structurally to their parts.
//!
//! A composite's spec view is split in two: `floats()` is the sequence of
//! floating-point bit patterns it contains, in declaration order, and
//! `same_shape` relates values that agree on everything else.  Post-intern
//! equality is agreement on both; the post-intern hash folds a token stream
//! that is determined by them.

use vstd::prelude::*;
use core::cmp::Ordering;
use crate::precision::Precision;
use crate::scalar::Scalar;
use crate::scalar::ord_key;
use crate::scalar::total_order_key;
use crate::scalar::sign_bit;
use crate::pool::FloatPool;
use crate::pool::intern1_map;
use crate::pool::intern1_val;
use crate::pool::intern_seq_map;
use crate::pool::intern_seq_vals;
use crate::pool::try_seq_ok;
use crate::pool::try_seq_vals;

verus! {

broadcast use vstd::array::group_array_axioms;

/// One step of the post-intern hash: fold a 64-bit token into the state
/// (xor, then multiply by the FNV-1a prime, wrapping).
pub open spec fn mix(h: u64, x: u64) -> u64 {
    (h ^ x).wrapping_mul(0x100_0000_01b3)
}

/// Folding a whole token stream into the state.
pub open spec fn mix_seq(h: u64, s: Seq<u64>) -> u64
    decreases s.len(),
{
    if s.len() == 0 {
        h
    } else {
        mix_seq(mix(h, s[0]), s.skip(1))
    }
}

/// Folding a concatenation folds the parts in order.
pub proof fn lemma_mix_seq_append(h: u64, s1: Seq<u64>, s2: Seq<u64>)
    ensures
        mix_seq(h, s1 + s2) == mix_seq(mix_seq(h, s1), s2),
    decreases s1.len(),
{
    if s1.len() == 0 {
        assert(s1 + s2 =~= s2);
    } else {
        assert((s1 + s2).skip(1) =~= s1.skip(1) + s2);
        lemma_mix_seq_append(mix(h, s1[0]), s1.skip(1), s2);
    }
}

/// Folding a single token.
pub proof fn lemma_mix_seq_one(h: u64, x: u64)
    ensures
        mix_seq(h, seq![x]) == mix(h, x),
{
    let s = seq![x];
    assert(s.skip(1) =~= Seq::<u64>::empty());
    assert(mix_seq(h, s) == mix_seq(mix(h, x), s.skip(1)));
    assert(mix_seq(mix(h, x), s.skip(1)) == mix(h, x));
}

/// The seed of the post-intern hash: the FNV-1a offset basis.
pub open spec fn hash_seed() -> u64 {
    0xcbf2_9ce4_8422_2325
}

/// The hash of a whole value: its token stream folded into the seed.
pub open spec fn key_hash<K: ApproxHash>(k: K) -> u64 {
    mix_seq(hash_seed(), k.tokens())
}

/// The running state of the post-intern hash: a plain 64-bit accumulator
/// that tokens are folded into.
pub struct HashState {
    h: u64,
}

impl HashState {
    /// The current accumulator value.
    pub closed spec fn spec_h(self) -> u64 {
        self.h
    }

    /// A fresh state, seeded with the FNV-1a offset basis.
    pub fn new() -> (r: HashState)
        ensures
            r.spec_h() == hash_seed(),
    {
        HashState { h: 0xcbf2_9ce4_8422_2325 }
    }

    /// Folds one token into the state.
    pub fn write_u64(&mut self, x: u64)
        ensures
            final(self).spec_h() == mix(old(self).spec_h(), x),
    {
        self.h = (self.h ^ x).wrapping_mul(0x100_0000_01b3);
    }

    /// Reads the accumulated hash out.
    pub fn finish(&self) -> (r: u64)
        ensures
            r == self.spec_h(),
    {
        self.h
    }
}

/// Trait for types that can be approximately compared for equality.
pub trait ApproxEq {
    /// What approximate equality means for this type, under a precision.
    spec fn eq_spec(&self, other: &Self, prec: Precision) -> bool;

    /// Returns whether `self` and `other` are approximately equal according
    /// to the precision.
    fn approx_eq(&self, other: &Self, prec: Precision) -> (r: bool)
        ensures
            r == self.eq_spec(other, prec),
    ;
}

/// Trait for types that can be approximately compared to zero.
pub trait ApproxEqZero {
    /// What being approximately zero means for this type, under a precision.
    spec fn zero_spec(&self, prec: Precision) -> bool;

    /// Returns whether `self` is approximately zero according to the
    /// precision: every part within tolerance of zero.
    fn approx_eq_zero(&self, prec: Precision) -> (r: bool)
        ensures
            r == self.zero_spec(prec),
    ;
}

/// Trait for types that can be approximately ordered.
///
/// The ordering is total; composites compare lexicographically.
pub trait ApproxOrd: ApproxEq {
    /// What the approximate ordering returns for this type.
    spec fn cmp_spec(&self, other: &Self, prec: Precision) -> Ordering;

    /// Returns the ordering relation between `self` and `other` according
    /// to the precision.
    fn approx_cmp(&self, other: &Self, prec: Precision) -> (r: Ordering)
        ensures
            r == self.cmp_spec(other, prec),
    ;
}

/// Trait for types whose sign against zero can be taken approximately:
/// equal when approximately zero, otherwise the algebraic sign.
pub trait ApproxCmpZero: ApproxEqZero {
    /// What the approximate sign test returns for this type.
    spec fn cmp_zero_spec(&self, prec: Precision) -> Ordering;

    /// Returns `Equal` when approximately zero, otherwise the sign.
    fn approx_cmp_zero(&self, prec: Precision) -> (r: Ordering)
        ensures
            r == self.cmp_zero_spec(prec),
    ;
}

/// Trait for types whose floats can be interned, part by part, in a
/// [`FloatPool`].
pub trait ApproxInternable {
    /// The floating-point bit patterns reachable in the value, in
    /// declaration order.
    spec fn floats(&self) -> Seq<u64>;

    /// Agreement on everything except the floating-point patterns: same
    /// structure, same non-float leaves, same active variants.
    spec fn same_shape(&self, other: &Self) -> bool;

    /// Shape agreement is reflexive.
    proof fn shape_refl(&self)
        ensures
            self.same_shape(self),
    ;

    /// Shape agreement is symmetric.
    proof fn shape_sym(&self, other: &Self)
        requires
            self.same_shape(other),
        ensures
            other.same_shape(self),
    ;

    /// Shape agreement is transitive.
    proof fn shape_trans(&self, b: &Self, c: &Self)
        requires
            self.same_shape(b),
            b.same_shape(c),
        ensures
            self.same_shape(c),
    ;

    /// Values of the same shape carry the same number of floats.
    proof fn shape_floats_len(&self, other: &Self)
        requires
            self.same_shape(other),
        ensures
            self.floats().len() == other.floats().len(),
    ;

    /// Interns every float in the value, in declaration order, replacing
    /// each with its bucket's canonical value and registering the ones
    /// whose buckets were vacant (those also claim their neighbour
    /// buckets).  Only the floats change.
    fn intern_floats(&mut self, pool: &mut FloatPool)
        requires
            old(pool).wf(),
        ensures
            final(pool).wf(),
            final(pool).spec_prec() == old(pool).spec_prec(),
            final(pool).model() == intern_seq_map(
                old(pool).model(),
                old(pool).spec_prec(),
                old(self).floats(),
            ),
            final(self).floats() == intern_seq_vals(
                old(pool).model(),
                old(pool).spec_prec(),
                old(self).floats(),
            ),
            final(self).same_shape(old(self)),
    ;

    /// Replaces every float with its bucket's existing canonical value,
    /// without mutating the pool.  Fails when any float's bucket is vacant;
    /// the partly rewritten value is then meaningless and the caller
    /// discards it.
    fn try_intern_floats(&mut self, pool: &FloatPool) -> (ok: bool)
        ensures
            ok == try_seq_ok(pool.model(), pool.spec_prec(), old(self).floats()),
            ok ==> final(self).floats() == try_seq_vals(
                pool.model(),
                pool.spec_prec(),
                old(self).floats(),
            ) && final(self).same_shape(old(self)),
    ;
}

/// Trait for types that can be stored in an approximate hash map: exact
/// equality and hashing, meaningful on interned values.
pub trait ApproxHash: ApproxInternable {
    /// The token stream folded into the post-intern hash: lengths and
    /// active-variant markers interleaved with the float patterns.
    spec fn tokens(&self) -> Seq<u64>;

    /// The token stream is determined by the shape and the floats.
    proof fn tokens_agree(&self, other: &Self)
        requires
            self.same_shape(other),
            self.floats() == other.floats(),
        ensures
            self.tokens() == other.tokens(),
    ;

    /// Returns whether `self` and `other` are exactly equal: same shape and
    /// bit-identical floats.  Intended for values that have already been
    /// interned; on others it is exact and therefore stricter than
    /// approximate equality.
    fn interned_eq(&self, other: &Self) -> (r: bool)
        ensures
            r == (self.same_shape(other) && self.floats() == other.floats()),
    ;

    /// Folds the value's token stream into the hash state.
    fn interned_hash(&self, st: &mut HashState)
        ensures
            final(st).spec_h() == mix_seq(old(st).spec_h(), self.tokens()),
    ;
}

impl ApproxEq for Scalar {
    open spec fn eq_spec(&self, other: &Self, prec: Precision) -> bool {
        prec.spec_eq(self.bits, other.bits)
    }

    fn approx_eq(&self, other: &Self, prec: Precision) -> (r: bool) {
        prec.f64_eq(*self, *other)
    }
}

impl ApproxEqZero for Scalar {
    open spec fn zero_spec(&self, prec: Precision) -> bool {
        prec.spec_eq(self.bits, 0)
    }

    fn approx_eq_zero(&self, prec: Precision) -> (r: bool) {
        prec.f64_eq_zero(*self)
    }
}

impl ApproxOrd for Scalar {
    open spec fn cmp_spec(&self, other: &Self, prec: Precision) -> Ordering {
        if prec.spec_eq(self.bits, other.bits) {
            Ordering::Equal
        } else if ord_key(self.bits) == ord_key(other.bits) {
            Ordering::Equal
        } else if ord_key(self.bits) < ord_key(other.bits) {
            Ordering::Less
        } else {
            Ordering::Greater
        }
    }

    fn approx_cmp(&self, other: &Self, prec: Precision) -> (r: Ordering) {
        if prec.f64_eq(*self, *other) {
            Ordering::Equal
        } else {
            let ka: u64 = total_order_key(self.bits);
            let kb: u64 = total_order_key(other.bits);
            if ka == kb {
                Ordering::Equal
            } else if ka < kb {
                Ordering::Less
            } else {
                Ordering::Greater
            }
        }
    }
}

impl ApproxCmpZero for Scalar {
    open spec fn cmp_zero_spec(&self, prec: Precision) -> Ordering {
        if prec.spec_eq(self.bits, 0) {
            Ordering::Equal
        } else if !sign_bit(self.bits) {
            Ordering::Greater
        } else {
            Ordering::Less
        }
    }

    fn approx_cmp_zero(&self, prec: Precision) -> (r: Ordering) {
        if prec.f64_eq_zero(*self) {
            Ordering::Equal
        } else if self.is_sign_positive() {
            Ordering::Greater
        } else {
            Ordering::Less
        }
    }
}

impl ApproxInternable for Scalar {
    open spec fn floats(&self) -> Seq<u64> {
        seq![self.bits]
    }

    open spec fn same_shape(&self, other: &Self) -> bool {
        true
    }

    proof fn shape_refl(&self) {
    }

    proof fn shape_sym(&self, other: &Self) {
    }

    proof fn shape_trans(&self, b: &Self, c: &Self) {
    }

    proof fn shape_floats_len(&self, other: &Self) {
    }

    fn intern_floats(&mut self, pool: &mut FloatPool) {
        let ghost m0 = pool.model();
        let ghost prec = pool.spec_prec();
        let ghost x = self.bits;
        let (v, _b) = pool.register(self.bits);
        self.bits = v;
        proof {
            lemma_seq_one_unfold(m0, prec, x);
        }
    }

    fn try_intern_floats(&mut self, pool: &FloatPool) -> (ok: bool) {
        let ghost m0 = pool.model();
        let ghost prec = pool.spec_prec();
        let ghost x = self.bits;
        match pool.lookup(self.bits) {
            Some(v) => {
                self.bits = v;
                proof {
                    assert(seq![x][0] == x);
                    assert(try_seq_vals(m0, prec, seq![x]) =~= seq![m0[prec.spec_bucket(x)]]);
                }
                true
            },
            None => {
                proof {
                    assert(seq![x][0] == x);
                }
                false
            },
        }
    }
}

/// Unfolds the sequence-interning fold on a single pattern.
proof fn lemma_seq_one_unfold(m: Map<u64, u64>, prec: Precision, x: u64)
    ensures
        intern_seq_map(m, prec, seq![x]) == intern1_map(m, prec, x),
        intern_seq_vals(m, prec, seq![x]) == seq![intern1_val(m, prec, x)],
{
    let s = seq![x];
    assert(s.skip(1) =~= Seq::<u64>::empty());
    assert(intern_seq_map(m, prec, s) == intern_seq_map(intern1_map(m, prec, x), prec, s.skip(1)));
    assert(intern_seq_map(intern1_map(m, prec, x), prec, s.skip(1)) == intern1_map(m, prec, x));
    assert(intern_seq_vals(m, prec, s) == seq![intern1_val(m, prec, x)] + intern_seq_vals(
        intern1_map(m, prec, x),
        prec,
        s.skip(1),
    ));
    assert(intern_seq_vals(intern1_map(m, prec, x), prec, s.skip(1)) =~= Seq::<u64>::empty());
    assert(intern_seq_vals(m, prec, s) =~= seq![intern1_val(m, prec, x)]);
}

impl ApproxHash for Scalar {
    open spec fn tokens(&self) -> Seq<u64> {
        seq![self.bits]
    }

    proof fn tokens_agree(&self, other: &Self) {
        assert(self.floats()[0] == self.bits && other.floats()[0] == other.bits);
    }

    fn interned_eq(&self, other: &Self) -> (r: bool) {
        proof {
            if self.bits == other.bits {
                assert(self.floats() =~= other.floats());
            } else {
                assert(self.floats()[0] != other.floats()[0]);
            }
        }
        self.bits == other.bits
    }

    fn interned_hash(&self, st: &mut HashState) {
        st.write_u64(self.bits);
        proof {
            lemma_mix_seq_one(old(st).spec_h(), self.bits);
        }
    }
}

impl ApproxEq for u64 {
    open spec fn eq_spec(&self, other: &Self, prec: Precision) -> bool {
        self == other
    }

    fn approx_eq(&self, other: &Self, prec: Precision) -> (r: bool) {
        *self == *other
    }
}

impl ApproxEqZero for u64 {
    open spec fn zero_spec(&self, prec: Precision) -> bool {
        *self == 0
    }

    fn approx_eq_zero(&self, prec: Precision) -> (r: bool) {
        *self == 0
    }
}

impl ApproxOrd for u64 {
    open spec fn cmp_spec(&self, other: &Self, prec: Precision) -> Ordering {
        if self == other {
            Ordering::Equal
        } else if *self < *other {
            Ordering::Less
        } else {
            Ordering::Greater
        }
    }

    fn approx_cmp(&self, other: &Self, prec: Precision) -> (r: Ordering) {
        if *self == *other {
            Ordering::Equal
        } else if *self < *other {
            Ordering::Less
        } else {
            Ordering::Greater
        }
    }
}

impl ApproxCmpZero for u64 {
    open spec fn cmp_zero_spec(&self, prec: Precision) -> Ordering {
        if *self == 0 {
            Ordering::Equal
        } else {
            Ordering::Greater
        }
    }

    fn approx_cmp_zero(&self, prec: Precision) -> (r: Ordering) {
        if *self == 0 {
            Ordering::Equal
        } else {
            Ordering::Greater
        }
    }
}

impl ApproxInternable for u64 {
    open spec fn floats(&self) -> Seq<u64> {
        Seq::empty()
    }

    open spec fn same_shape(&self, other: &Self) -> bool {
        self == other
    }

    proof fn shape_refl(&self) {
    }

    proof fn shape_sym(&self, other: &Self) {
    }

    proof fn shape_trans(&self, b: &Self, c: &Self) {
    }

    proof fn shape_floats_len(&self, other: &Self) {
    }

    fn intern_floats(&mut self, pool: &mut FloatPool) {
    }

    fn try_intern_floats(&mut self, pool: &FloatPool) -> (ok: bool) {
        proof {
            assert(try_seq_vals(pool.model(), pool.spec_prec(), self.floats()) =~= self.floats());
        }
        true
    }
}

impl ApproxHash for u64 {
    open spec fn tokens(&self) -> Seq<u64> {
        seq![*self]
    }

    proof fn tokens_agree(&self, other: &Self) {
    }

    fn interned_eq(&self, other: &Self) -> (r: bool) {
        *self == *other
    }

    fn interned_hash(&self, st: &mut HashState) {
        st.write_u64(*self);
        proof {
            lemma_mix_seq_one(old(st).spec_h(), *self);
        }
    }
}


/// Splitting a concatenation at a known boundary recovers the parts.
pub proof fn lemma_concat_split(s1: Seq<u64>, s2: Seq<u64>, t1: Seq<u64>, t2: Seq<u64>)
    requires
        s1 + s2 == t1 + t2,
        s1.len() == t1.len(),
    ensures
        s1 == t1,
        s2 == t2,
{
    assert(s1 =~= (s1 + s2).subrange(0, s1.len() as int));
    assert(t1 =~= (t1 + t2).subrange(0, t1.len() as int));
    assert(s2 =~= (s1 + s2).subrange(s1.len() as int, (s1 + s2).len() as int));
    assert(t2 =~= (t1 + t2).subrange(t1.len() as int, (t1 + t2).len() as int));
}

impl<T: ApproxEq> ApproxEq for Option<T> {
    open spec fn eq_spec(&self, other: &Self, prec: Precision) -> bool {
        match (self, other) {
            (None, None) => true,
            (Some(a), Some(b)) => a.eq_spec(b, prec),
            _ => false,
        }
    }

    fn approx_eq(&self, other: &Self, prec: Precision) -> (r: bool) {
        match (self, other) {
            (None, None) => true,
            (Some(a), Some(b)) => a.approx_eq(b, prec),
            _ => false,
        }
    }
}

impl<T: ApproxOrd> ApproxOrd for Option<T> {
    open spec fn cmp_spec(&self, other: &Self, prec: Precision) -> Ordering {
        match (self, other) {
            (None, None) => Ordering::Equal,
            (None, Some(_)) => Ordering::Less,
            (Some(_), None) => Ordering::Greater,
            (Some(a), Some(b)) => a.cmp_spec(b, prec),
        }
    }

    fn approx_cmp(&self, other: &Self, prec: Precision) -> (r: Ordering) {
        match (self, other) {
            (None, None) => Ordering::Equal,
            (None, Some(_)) => Ordering::Less,
            (Some(_), None) => Ordering::Greater,
            (Some(a), Some(b)) => a.approx_cmp(b, prec),
        }
    }
}

impl<T: ApproxInternable> ApproxInternable for Option<T> {
    open spec fn floats(&self) -> Seq<u64> {
        match self {
            None => Seq::empty(),
            Some(a) => a.floats(),
        }
    }

    open spec fn same_shape(&self, other: &Self) -> bool {
        match (self, other) {
            (None, None) => true,
            (Some(a), Some(b)) => a.same_shape(b),
            _ => false,
        }
    }

    proof fn shape_refl(&self) {
        match self {
            None => {},
            Some(a) => a.shape_refl(),
        }
    }

    proof fn shape_sym(&self, other: &Self) {
        match (self, other) {
            (Some(a), Some(b)) => a.shape_sym(b),
            _ => {},
        }
    }

    proof fn shape_trans(&self, b: &Self, c: &Self) {
        match (self, b, c) {
            (Some(x), Some(y), Some(z)) => x.shape_trans(y, z),
            _ => {},
        }
    }

    proof fn shape_floats_len(&self, other: &Self) {
        match (self, other) {
            (Some(a), Some(b)) => a.shape_floats_len(b),
            _ => {},
        }
    }

    fn intern_floats(&mut self, pool: &mut FloatPool) {
        match self {
            None => {},
            Some(inner) => {
                inner.intern_floats(pool);
            },
        }
    }

    fn try_intern_floats(&mut self, pool: &FloatPool) -> (ok: bool) {
        match self {
            None => {
                proof {
                    assert(try_seq_vals(pool.model(), pool.spec_prec(), self.floats())
                        =~= self.floats());
                }
                true
            },
            Some(inner) => inner.try_intern_floats(pool),
        }
    }
}

impl<T: ApproxHash> ApproxHash for Option<T> {
    open spec fn tokens(&self) -> Seq<u64> {
        match self {
            None => seq![0u64],
            Some(a) => seq![1u64] + a.tokens(),
        }
    }

    proof fn tokens_agree(&self, other: &Self) {
        match (self, other) {
            (Some(a), Some(b)) => a.tokens_agree(b),
            _ => {},
        }
    }

    fn interned_eq(&self, other: &Self) -> (r: bool) {
        match (self, other) {
            (None, None) => true,
            (Some(a), Some(b)) => a.interned_eq(b),
            _ => false,
        }
    }

    fn interned_hash(&self, st: &mut HashState) {
        match self {
            None => {
                st.write_u64(0);
                proof {
                    lemma_mix_seq_one(old(st).spec_h(), 0);
                }
            },
            Some(inner) => {
                let ghost h0 = st.spec_h();
                st.write_u64(1);
                inner.interned_hash(st);
                proof {
                    lemma_mix_seq_one(h0, 1);
                    lemma_mix_seq_append(h0, seq![1u64], inner.tokens());
                }
            },
        }
    }
}

impl<A: ApproxEq, B: ApproxEq> ApproxEq for (A, B) {
    open spec fn eq_spec(&self, other: &Self, prec: Precision) -> bool {
        self.0.eq_spec(&other.0, prec) && self.1.eq_spec(&other.1, prec)
    }

    fn approx_eq(&self, other: &Self, prec: Precision) -> (r: bool) {
        self.0.approx_eq(&other.0, prec) && self.1.approx_eq(&other.1, prec)
    }
}

impl<A: ApproxEqZero, B: ApproxEqZero> ApproxEqZero for (A, B) {
    open spec fn zero_spec(&self, prec: Precision) -> bool {
        self.0.zero_spec(prec) && self.1.zero_spec(prec)
    }

    fn approx_eq_zero(&self, prec: Precision) -> (r: bool) {
        self.0.approx_eq_zero(prec) && self.1.approx_eq_zero(prec)
    }
}

impl<A: ApproxOrd, B: ApproxOrd> ApproxOrd for (A, B) {
    open spec fn cmp_spec(&self, other: &Self, prec: Precision) -> Ordering {
        match self.0.cmp_spec(&other.0, prec) {
            Ordering::Equal => self.1.cmp_spec(&other.1, prec),
            nonequal => nonequal,
        }
    }

    fn approx_cmp(&self, other: &Self, prec: Precision) -> (r: Ordering) {
        match self.0.approx_cmp(&other.0, prec) {
            Ordering::Equal => self.1.approx_cmp(&other.1, prec),
            nonequal => nonequal,
        }
    }
}

impl<A: ApproxCmpZero, B: ApproxCmpZero> ApproxCmpZero for (A, B) {
    open spec fn cmp_zero_spec(&self, prec: Precision) -> Ordering {
        match self.0.cmp_zero_spec(prec) {
            Ordering::Equal => self.1.cmp_zero_spec(prec),
            nonequal => nonequal,
        }
    }

    fn approx_cmp_zero(&self, prec: Precision) -> (r: Ordering) {
        match self.0.approx_cmp_zero(prec) {
            Ordering::Equal => self.1.approx_cmp_zero(prec),
            nonequal => nonequal,
        }
    }
}

impl<A: ApproxInternable, B: ApproxInternable> ApproxInternable for (A, B) {
    open spec fn floats(&self) -> Seq<u64> {
        self.0.floats() + self.1.floats()
    }

    open spec fn same_shape(&self, other: &Self) -> bool {
        self.0.same_shape(&other.0) && self.1.same_shape(&other.1)
    }

    proof fn shape_refl(&self) {
        self.0.shape_refl();
        self.1.shape_refl();
    }

    proof fn shape_sym(&self, other: &Self) {
        self.0.shape_sym(&other.0);
        self.1.shape_sym(&other.1);
    }

    proof fn shape_trans(&self, b: &Self, c: &Self) {
        self.0.shape_trans(&b.0, &c.0);
        self.1.shape_trans(&b.1, &c.1);
    }

    proof fn shape_floats_len(&self, other: &Self) {
        self.0.shape_floats_len(&other.0);
        self.1.shape_floats_len(&other.1);
    }

    fn intern_floats(&mut self, pool: &mut FloatPool) {
        let ghost m0 = pool.model();
        let ghost prec = pool.spec_prec();
        let ghost fa = self.0.floats();
        let ghost fb = self.1.floats();
        self.0.intern_floats(pool);
        self.1.intern_floats(pool);
        proof {
            crate::pool::lemma_intern_seq_append(m0, prec, fa, fb);
        }
    }

    fn try_intern_floats(&mut self, pool: &FloatPool) -> (ok: bool) {
        let ghost m0 = pool.model();
        let ghost prec = pool.spec_prec();
        let ghost fa = self.0.floats();
        let ghost fb = self.1.floats();
        if !self.0.try_intern_floats(pool) {
            proof {
                let i = choose|i: int| 0 <= i < fa.len() && !m0.contains_key(
                    #[trigger] prec.spec_bucket(fa[i]),
                );
                assert((fa + fb)[i] == fa[i]);
            }
            return false;
        }
        if !self.1.try_intern_floats(pool) {
            proof {
                let i = choose|i: int| 0 <= i < fb.len() && !m0.contains_key(
                    #[trigger] prec.spec_bucket(fb[i]),
                );
                assert((fa + fb)[fa.len() + i] == fb[i]);
            }
            return false;
        }
        proof {
            assert(try_seq_vals(m0, prec, fa + fb) =~= try_seq_vals(m0, prec, fa) + try_seq_vals(
                m0,
                prec,
                fb,
            ));
            assert forall|i: int| 0 <= i < (fa + fb).len() implies m0.contains_key(
                #[trigger] prec.spec_bucket((fa + fb)[i]),
            ) by {
                if i < fa.len() {
                    assert((fa + fb)[i] == fa[i]);
                } else {
                    assert((fa + fb)[i] == fb[i - fa.len()]);
                }
            }
        }
        true
    }
}

impl<A: ApproxHash, B: ApproxHash> ApproxHash for (A, B) {
    open spec fn tokens(&self) -> Seq<u64> {
        self.0.tokens() + self.1.tokens()
    }

    proof fn tokens_agree(&self, other: &Self) {
        self.0.shape_floats_len(&other.0);
        lemma_concat_split(self.0.floats(), self.1.floats(), other.0.floats(), other.1.floats());
        self.0.tokens_agree(&other.0);
        self.1.tokens_agree(&other.1);
    }

    fn interned_eq(&self, other: &Self) -> (r: bool) {
        let r0 = self.0.interned_eq(&other.0);
        let r1 = self.1.interned_eq(&other.1);
        proof {
            if r0 && r1 {
            } else {
                if self.same_shape(other) && self.floats() == other.floats() {
                    self.0.shape_floats_len(&other.0);
                    lemma_concat_split(
                        self.0.floats(),
                        self.1.floats(),
                        other.0.floats(),
                        other.1.floats(),
                    );
                }
            }
        }
        r0 && r1
    }

    fn interned_hash(&self, st: &mut HashState) {
        let ghost h0 = st.spec_h();
        self.0.interned_hash(st);
        self.1.interned_hash(st);
        proof {
            lemma_mix_seq_append(h0, self.0.tokens(), self.1.tokens());
        }
    }
}


/// The floats of a sequence of parts, concatenated in order.
pub open spec fn flat_floats<T: ApproxInternable>(s: Seq<T>) -> Seq<u64>
    decreases s.len(),
{
    if s.len() == 0 {
        Seq::empty()
    } else {
        s[0].floats() + flat_floats(s.skip(1))
    }
}

/// The hash tokens of a sequence of parts, concatenated in order.
pub open spec fn flat_tokens<T: ApproxHash>(s: Seq<T>) -> Seq<u64>
    decreases s.len(),
{
    if s.len() == 0 {
        Seq::empty()
    } else {
        s[0].tokens() + flat_tokens(s.skip(1))
    }
}

/// Appending one part appends its floats.
pub proof fn lemma_flat_push<T: ApproxInternable>(s: Seq<T>, x: T)
    ensures
        flat_floats(s.push(x)) == flat_floats(s) + x.floats(),
    decreases s.len(),
{
    if s.len() == 0 {
        assert(s.push(x).skip(1) =~= Seq::<T>::empty());
        assert(s.push(x)[0] == x);
        assert(flat_floats(Seq::<T>::empty()) =~= Seq::<u64>::empty());
        assert(flat_floats(s.push(x)) =~= flat_floats(s) + x.floats());
    } else {
        assert(s.push(x).skip(1) =~= s.skip(1).push(x));
        assert(s.push(x)[0] == s[0]);
        lemma_flat_push(s.skip(1), x);
        assert(s[0].floats() + (flat_floats(s.skip(1)) + x.floats()) =~= (s[0].floats()
            + flat_floats(s.skip(1))) + x.floats());
    }
}

/// Appending one part appends its tokens.
pub proof fn lemma_flat_tokens_push<T: ApproxHash>(s: Seq<T>, x: T)
    ensures
        flat_tokens(s.push(x)) == flat_tokens(s) + x.tokens(),
    decreases s.len(),
{
    if s.len() == 0 {
        assert(s.push(x).skip(1) =~= Seq::<T>::empty());
        assert(s.push(x)[0] == x);
        assert(flat_tokens(Seq::<T>::empty()) =~= Seq::<u64>::empty());
        assert(flat_tokens(s.push(x)) =~= flat_tokens(s) + x.tokens());
    } else {
        assert(s.push(x).skip(1) =~= s.skip(1).push(x));
        assert(s.push(x)[0] == s[0]);
        lemma_flat_tokens_push(s.skip(1), x);
        assert(s[0].tokens() + (flat_tokens(s.skip(1)) + x.tokens()) =~= (s[0].tokens()
            + flat_tokens(s.skip(1))) + x.tokens());
    }
}

/// The flat floats split at any part boundary.
pub proof fn lemma_flat_split_at<T: ApproxInternable>(s: Seq<T>, i: int)
    requires
        0 <= i <= s.len(),
    ensures
        flat_floats(s) == flat_floats(s.subrange(0, i)) + flat_floats(
            s.subrange(i, s.len() as int),
        ),
    decreases i,
{
    if i == 0 {
        assert(s.subrange(0, 0) =~= Seq::<T>::empty());
        assert(s.subrange(0, s.len() as int) =~= s);
        assert(flat_floats(s.subrange(0, 0)) + flat_floats(s) =~= flat_floats(s));
    } else {
        lemma_flat_split_at(s, i - 1);
        let tail = s.subrange(i - 1, s.len() as int);
        assert(tail.skip(1) =~= s.subrange(i, s.len() as int));
        assert(tail[0] == s[i - 1]);
        assert(s.subrange(0, i) =~= s.subrange(0, i - 1).push(s[i - 1]));
        lemma_flat_push(s.subrange(0, i - 1), s[i - 1]);
        assert((flat_floats(s.subrange(0, i - 1)) + s[i - 1].floats()) + flat_floats(
            s.subrange(i, s.len() as int),
        ) =~= flat_floats(s.subrange(0, i - 1)) + (s[i - 1].floats() + flat_floats(
            s.subrange(i, s.len() as int),
        )));
    }
}

/// Parts of the same shapes with equal floats have equal flat floats.
pub proof fn lemma_flat_eq<T: ApproxInternable>(a: Seq<T>, b: Seq<T>)
    requires
        a.len() == b.len(),
        forall|i: int| 0 <= i < a.len() ==> #[trigger] a[i].floats() == b[i].floats(),
    ensures
        flat_floats(a) == flat_floats(b),
    decreases a.len(),
{
    if a.len() == 0 {
        assert(flat_floats(a) =~= flat_floats(b));
    } else {
        assert forall|i: int| 0 <= i < a.skip(1).len() implies #[trigger] a.skip(1)[i].floats()
            == b.skip(1)[i].floats() by {
            assert(a.skip(1)[i] == a[i + 1] && b.skip(1)[i] == b[i + 1]);
        }
        lemma_flat_eq(a.skip(1), b.skip(1));
        assert(a[0].floats() == b[0].floats());
    }
}

/// With agreeing shapes, equal flat floats force equal floats part by part.
pub proof fn lemma_flat_split_parts<T: ApproxInternable>(a: Seq<T>, b: Seq<T>)
    requires
        a.len() == b.len(),
        forall|i: int| 0 <= i < a.len() ==> #[trigger] a[i].same_shape(&b[i]),
        flat_floats(a) == flat_floats(b),
    ensures
        forall|i: int| 0 <= i < a.len() ==> #[trigger] a[i].floats() == b[i].floats(),
    decreases a.len(),
{
    if a.len() > 0 {
        a[0].shape_floats_len(&b[0]);
        lemma_concat_split(a[0].floats(), flat_floats(a.skip(1)), b[0].floats(), flat_floats(
            b.skip(1),
        ));
        assert forall|i: int| 0 <= i < a.skip(1).len() implies #[trigger] a.skip(1)[i].same_shape(
            &b.skip(1)[i],
        ) by {
            assert(a.skip(1)[i] == a[i + 1] && b.skip(1)[i] == b[i + 1]);
        }
        lemma_flat_split_parts(a.skip(1), b.skip(1));
        assert forall|i: int| 0 <= i < a.len() implies #[trigger] a[i].floats() == b[i].floats() by {
            if i > 0 {
                assert(a[i] == a.skip(1)[i - 1] && b[i] == b.skip(1)[i - 1]);
            }
        }
    }
}

/// Parts of the same shapes with equal floats have equal flat tokens.
pub proof fn lemma_flat_tokens_eq<T: ApproxHash>(a: Seq<T>, b: Seq<T>)
    requires
        a.len() == b.len(),
        forall|i: int| 0 <= i < a.len() ==> #[trigger] a[i].same_shape(&b[i]),
        forall|i: int| 0 <= i < a.len() ==> #[trigger] a[i].floats() == b[i].floats(),
    ensures
        flat_tokens(a) == flat_tokens(b),
    decreases a.len(),
{
    if a.len() == 0 {
        assert(flat_tokens(a) =~= flat_tokens(b));
    } else {
        a[0].tokens_agree(&b[0]);
        assert forall|i: int| 0 <= i < a.skip(1).len() implies #[trigger] a.skip(1)[i].same_shape(
            &b.skip(1)[i],
        ) && a.skip(1)[i].floats() == b.skip(1)[i].floats() by {
            assert(a.skip(1)[i] == a[i + 1] && b.skip(1)[i] == b[i + 1]);
        }
        lemma_flat_tokens_eq(a.skip(1), b.skip(1));
    }
}

/// Non-mutating interning succeeds on a concatenation exactly when it
/// succeeds on both parts, and resolves them in order.
pub proof fn lemma_try_seq_concat(m: Map<u64, u64>, prec: Precision, s1: Seq<u64>, s2: Seq<u64>)
    ensures
        try_seq_ok(m, prec, s1 + s2) == (try_seq_ok(m, prec, s1) && try_seq_ok(m, prec, s2)),
        try_seq_vals(m, prec, s1 + s2) == try_seq_vals(m, prec, s1) + try_seq_vals(m, prec, s2),
{
    assert(try_seq_vals(m, prec, s1 + s2) =~= try_seq_vals(m, prec, s1) + try_seq_vals(
        m,
        prec,
        s2,
    ));
    if try_seq_ok(m, prec, s1) && try_seq_ok(m, prec, s2) {
        assert forall|i: int| 0 <= i < (s1 + s2).len() implies m.contains_key(
            #[trigger] prec.spec_bucket((s1 + s2)[i]),
        ) by {
            if i < s1.len() {
                assert((s1 + s2)[i] == s1[i]);
            } else {
                assert((s1 + s2)[i] == s2[i - s1.len()]);
            }
        }
    }
    if try_seq_ok(m, prec, s1 + s2) {
        assert forall|i: int| 0 <= i < s1.len() implies m.contains_key(
            #[trigger] prec.spec_bucket(s1[i]),
        ) by {
            assert((s1 + s2)[i] == s1[i]);
        }
        assert forall|i: int| 0 <= i < s2.len() implies m.contains_key(
            #[trigger] prec.spec_bucket(s2[i]),
        ) by {
            assert((s1 + s2)[s1.len() + i] == s2[i]);
        }
    }
}


impl<T: ApproxEq> ApproxEq for Vec<T> {
    open spec fn eq_spec(&self, other: &Self, prec: Precision) -> bool {
        self@.len() == other@.len() && forall|i: int|
            0 <= i < self@.len() ==> #[trigger] self@[i].eq_spec(&other@[i], prec)
    }

    fn approx_eq(&self, other: &Self, prec: Precision) -> (r: bool) {
        if self.len() != other.len() {
            return false;
        }
        let n: usize = self.len();
        let mut i: usize = 0;
        while i < n
            invariant
                n == self@.len(),
                n == other@.len(),
                i <= n,
                forall|j: int| 0 <= j < i ==> #[trigger] self@[j].eq_spec(&other@[j], prec),
            decreases n - i,
        {
            if !self[i].approx_eq(&other[i], prec) {
                return false;
            }
            i += 1;
        }
        true
    }
}

impl<T: ApproxEqZero> ApproxEqZero for Vec<T> {
    open spec fn zero_spec(&self, prec: Precision) -> bool {
        forall|i: int| 0 <= i < self@.len() ==> #[trigger] self@[i].zero_spec(prec)
    }

    fn approx_eq_zero(&self, prec: Precision) -> (r: bool) {
        let n: usize = self.len();
        let mut i: usize = 0;
        while i < n
            invariant
                n == self@.len(),
                i <= n,
                forall|j: int| 0 <= j < i ==> #[trigger] self@[j].zero_spec(prec),
            decreases n - i,
        {
            if !self[i].approx_eq_zero(prec) {
                return false;
            }
            i += 1;
        }
        true
    }
}

/// Lexicographic comparison of part sequences: the first part that differs
/// decides; a prefix sorts before its extensions.
pub open spec fn seq_cmp<T: ApproxOrd>(a: Seq<T>, b: Seq<T>, prec: Precision) -> Ordering
    decreases a.len() + b.len(),
{
    if a.len() == 0 && b.len() == 0 {
        Ordering::Equal
    } else if a.len() == 0 {
        Ordering::Less
    } else if b.len() == 0 {
        Ordering::Greater
    } else {
        match a[0].cmp_spec(&b[0], prec) {
            Ordering::Equal => seq_cmp(a.skip(1), b.skip(1), prec),
            nonequal => nonequal,
        }
    }
}

impl<T: ApproxOrd> ApproxOrd for Vec<T> {
    open spec fn cmp_spec(&self, other: &Self, prec: Precision) -> Ordering {
        seq_cmp(self@, other@, prec)
    }

    fn approx_cmp(&self, other: &Self, prec: Precision) -> (r: Ordering) {
        let a_len: usize = self.len();
        let b_len: usize = other.len();
        let n: usize = if a_len < b_len {
            a_len
        } else {
            b_len
        };
        proof {
            assert(self@.skip(0) =~= self@);
            assert(other@.skip(0) =~= other@);
        }
        let mut i: usize = 0;
        while i < n
            invariant
                a_len == self@.len(),
                b_len == other@.len(),
                n == (if a_len < b_len {
                    a_len
                } else {
                    b_len
                }),
                i <= n,
                seq_cmp(self@, other@, prec) == seq_cmp(self@.skip(i as int), other@.skip(i as int), prec),
            decreases n - i,
        {
            let c = self[i].approx_cmp(&other[i], prec);
            proof {
                let sa = self@.skip(i as int);
                let sb = other@.skip(i as int);
                assert(sa[0] == self@[i as int] && sb[0] == other@[i as int]);
                assert(sa.skip(1) =~= self@.skip(i as int + 1));
                assert(sb.skip(1) =~= other@.skip(i as int + 1));
            }
            match c {
                Ordering::Equal => {},
                nonequal => {
                    return nonequal;
                },
            }
            i += 1;
        }
        proof {
            let sa = self@.skip(i as int);
            let sb = other@.skip(i as int);
            if a_len < b_len {
                assert(sa.len() == 0 && sb.len() > 0);
            } else if b_len < a_len {
                assert(sb.len() == 0 && sa.len() > 0);
            } else {
                assert(sa.len() == 0 && sb.len() == 0);
            }
        }
        if a_len < b_len {
            Ordering::Less
        } else if b_len < a_len {
            Ordering::Greater
        } else {
            Ordering::Equal
        }
    }
}

impl<T: ApproxInternable> ApproxInternable for Vec<T> {
    open spec fn floats(&self) -> Seq<u64> {
        flat_floats(self@)
    }

    open spec fn same_shape(&self, other: &Self) -> bool {
        self@.len() == other@.len() && forall|i: int|
            0 <= i < self@.len() ==> #[trigger] self@[i].same_shape(&other@[i])
    }

    proof fn shape_refl(&self) {
        assert forall|i: int| 0 <= i < self@.len() implies #[trigger] self@[i].same_shape(
            &self@[i],
        ) by {
            self@[i].shape_refl();
        }
    }

    proof fn shape_sym(&self, other: &Self) {
        assert forall|i: int| 0 <= i < other@.len() implies #[trigger] other@[i].same_shape(
            &self@[i],
        ) by {
            self@[i].shape_sym(&other@[i]);
        }
    }

    proof fn shape_trans(&self, b: &Self, c: &Self) {
        assert forall|i: int| 0 <= i < self@.len() implies #[trigger] self@[i].same_shape(
            &c@[i],
        ) by {
            self@[i].shape_trans(&b@[i], &c@[i]);
        }
    }

    proof fn shape_floats_len(&self, other: &Self) {
        lemma_flat_len_eq(self@, other@);
    }

    #[verifier::rlimit(60)]
    fn intern_floats(&mut self, pool: &mut FloatPool) {
        let ghost s0 = old(self)@;
        let ghost m0 = old(pool).model();
        let ghost prec = pool.spec_prec();
        let n: usize = self.len();
        let mut i: usize = 0;
        while i < n
            invariant
                n == self@.len(),
                self@.len() == s0.len(),
                i <= n,
                pool.wf(),
                pool.spec_prec() == prec,
                forall|j: int| i <= j < n ==> self@[j] == s0[j],
                forall|j: int| 0 <= j < i ==> #[trigger] self@[j].same_shape(&s0[j]),
                pool.model() == intern_seq_map(m0, prec, flat_floats(s0.subrange(0, i as int))),
                flat_floats(self@.subrange(0, i as int)) == intern_seq_vals(
                    m0,
                    prec,
                    flat_floats(s0.subrange(0, i as int)),
                ),
            decreases n - i,
        {
            let ghost pre = self@;
            let ghost mpre = pool.model();
            let elem = &mut self[i];
            elem.intern_floats(pool);
            proof {
                assert(self@ == pre.update(i as int, self@[i as int]));
                assert(pre[i as int] == s0[i as int]);
                assert(s0.subrange(0, i as int + 1) =~= s0.subrange(0, i as int).push(
                    s0[i as int],
                ));
                lemma_flat_push(s0.subrange(0, i as int), s0[i as int]);
                crate::pool::lemma_intern_seq_append(
                    m0,
                    prec,
                    flat_floats(s0.subrange(0, i as int)),
                    s0[i as int].floats(),
                );
                assert(self@.subrange(0, i as int) =~= pre.subrange(0, i as int));
                assert(self@.subrange(0, i as int + 1) =~= self@.subrange(0, i as int).push(
                    self@[i as int],
                ));
                lemma_flat_push(self@.subrange(0, i as int), self@[i as int]);
            }
            i += 1;
        }
        proof {
            assert(s0.subrange(0, n as int) =~= s0);
            assert(self@.subrange(0, n as int) =~= self@);
        }
    }

    fn try_intern_floats(&mut self, pool: &FloatPool) -> (ok: bool) {
        let ghost s0 = old(self)@;
        let ghost m = pool.model();
        let ghost prec = pool.spec_prec();
        let n: usize = self.len();
        let mut i: usize = 0;
        while i < n
            invariant
                s0 == old(self)@,
                n == self@.len(),
                self@.len() == s0.len(),
                i <= n,
                forall|j: int| i <= j < n ==> self@[j] == s0[j],
                forall|j: int| 0 <= j < i ==> #[trigger] self@[j].same_shape(&s0[j]),
                try_seq_ok(m, prec, flat_floats(s0.subrange(0, i as int))),
                flat_floats(self@.subrange(0, i as int)) == try_seq_vals(
                    m,
                    prec,
                    flat_floats(s0.subrange(0, i as int)),
                ),
                m == pool.model(),
                prec == pool.spec_prec(),
            decreases n - i,
        {
            let ghost pre = self@;
            let elem = &mut self[i];
            let ok = elem.try_intern_floats(pool);
            if !ok {
                proof {
                    assert(pre[i as int] == s0[i as int]);
                    lemma_flat_split_at(s0, i as int);
                    lemma_try_seq_concat(
                        m,
                        prec,
                        flat_floats(s0.subrange(0, i as int)),
                        flat_floats(s0.subrange(i as int, s0.len() as int)),
                    );
                    let tail = s0.subrange(i as int, s0.len() as int);
                    assert(tail[0] == s0[i as int]);
                    assert(tail.skip(1) =~= s0.subrange(i as int + 1, s0.len() as int));
                    lemma_try_seq_concat(
                        m,
                        prec,
                        s0[i as int].floats(),
                        flat_floats(tail.skip(1)),
                    );
                    assert(flat_floats(tail) == s0[i as int].floats() + flat_floats(tail.skip(1)));
                    assert(!try_seq_ok(m, prec, s0[i as int].floats()));
                    assert(!try_seq_ok(m, prec, flat_floats(tail)));
                    assert(flat_floats(s0) == flat_floats(s0.subrange(0, i as int)) + flat_floats(
                        tail,
                    ));
                    assert(!try_seq_ok(m, prec, flat_floats(s0)));
                    assert(old(self).floats() == flat_floats(s0));
                }
                return false;
            }
            proof {
                assert(self@ == pre.update(i as int, self@[i as int]));
                assert(pre[i as int] == s0[i as int]);
                assert(s0.subrange(0, i as int + 1) =~= s0.subrange(0, i as int).push(
                    s0[i as int],
                ));
                lemma_flat_push(s0.subrange(0, i as int), s0[i as int]);
                lemma_try_seq_concat(
                    m,
                    prec,
                    flat_floats(s0.subrange(0, i as int)),
                    s0[i as int].floats(),
                );
                assert(self@.subrange(0, i as int) =~= pre.subrange(0, i as int));
                assert(self@.subrange(0, i as int + 1) =~= self@.subrange(0, i as int).push(
                    self@[i as int],
                ));
                lemma_flat_push(self@.subrange(0, i as int), self@[i as int]);
            }
            i += 1;
        }
        proof {
            assert(s0.subrange(0, n as int) =~= s0);
            assert(self@.subrange(0, n as int) =~= self@);
        }
        true
    }
}

/// Sequences of parts of agreeing shapes carry equally many floats.
pub proof fn lemma_flat_len_eq<T: ApproxInternable>(a: Seq<T>, b: Seq<T>)
    requires
        a.len() == b.len(),
        forall|i: int| 0 <= i < a.len() ==> #[trigger] a[i].same_shape(&b[i]),
    ensures
        flat_floats(a).len() == flat_floats(b).len(),
    decreases a.len(),
{
    if a.len() > 0 {
        a[0].shape_floats_len(&b[0]);
        assert forall|i: int| 0 <= i < a.skip(1).len() implies #[trigger] a.skip(1)[i].same_shape(
            &b.skip(1)[i],
        ) by {
            assert(a.skip(1)[i] == a[i + 1] && b.skip(1)[i] == b[i + 1]);
        }
        lemma_flat_len_eq(a.skip(1), b.skip(1));
    }
}

impl<T: ApproxHash> ApproxHash for Vec<T> {
    open spec fn tokens(&self) -> Seq<u64> {
        seq![self@.len() as u64] + flat_tokens(self@)
    }

    proof fn tokens_agree(&self, other: &Self) {
        lemma_flat_split_parts(self@, other@);
        lemma_flat_tokens_eq(self@, other@);
    }

    fn interned_eq(&self, other: &Self) -> (r: bool) {
        if self.len() != other.len() {
            proof {
                if self.same_shape(other) {
                    assert(false);
                }
            }
            return false;
        }
        let n: usize = self.len();
        let mut i: usize = 0;
        while i < n
            invariant
                n == self@.len(),
                n == other@.len(),
                i <= n,
                forall|j: int| 0 <= j < i ==> #[trigger] self@[j].same_shape(&other@[j]),
                forall|j: int| 0 <= j < i ==> #[trigger] self@[j].floats() == other@[j].floats(),
            decreases n - i,
        {
            if !self[i].interned_eq(&other[i]) {
                proof {
                    if self.same_shape(other) && self.floats() == other.floats() {
                        lemma_flat_split_parts(self@, other@);
                    }
                }
                return false;
            }
            i += 1;
        }
        proof {
            lemma_flat_eq(self@, other@);
        }
        true
    }

    fn interned_hash(&self, st: &mut HashState) {
        let ghost h0 = st.spec_h();
        let n: usize = self.len();
        st.write_u64(n as u64);
        let ghost h1 = st.spec_h();
        proof {
            lemma_mix_seq_one(h0, n as u64);
        }
        let mut i: usize = 0;
        while i < n
            invariant
                n == self@.len(),
                i <= n,
                st.spec_h() == mix_seq(h1, flat_tokens(self@.subrange(0, i as int))),
                h1 == mix(h0, n as u64),
            decreases n - i,
        {
            let ghost hpre = st.spec_h();
            self[i].interned_hash(st);
            proof {
                assert(self@.subrange(0, i as int + 1) =~= self@.subrange(0, i as int).push(
                    self@[i as int],
                ));
                lemma_flat_tokens_push(self@.subrange(0, i as int), self@[i as int]);
                lemma_mix_seq_append(
                    h1,
                    flat_tokens(self@.subrange(0, i as int)),
                    self@[i as int].tokens(),
                );
            }
            i += 1;
        }
        proof {
            assert(self@.subrange(0, n as int) =~= self@);
            lemma_mix_seq_one(h0, n as u64);
            lemma_mix_seq_append(h0, seq![self@.len() as u64], flat_tokens(self@));
        }
    }
}


impl<T: ApproxEq> ApproxEq for Box<T> {
    open spec fn eq_spec(&self, other: &Self, prec: Precision) -> bool {
        (**self).eq_spec(&**other, prec)
    }

    fn approx_eq(&self, other: &Self, prec: Precision) -> (r: bool) {
        (**self).approx_eq(&**other, prec)
    }
}

impl<T: ApproxEqZero> ApproxEqZero for Box<T> {
    open spec fn zero_spec(&self, prec: Precision) -> bool {
        (**self).zero_spec(prec)
    }

    fn approx_eq_zero(&self, prec: Precision) -> (r: bool) {
        (**self).approx_eq_zero(prec)
    }
}

impl<T: ApproxOrd> ApproxOrd for Box<T> {
    open spec fn cmp_spec(&self, other: &Self, prec: Precision) -> Ordering {
        (**self).cmp_spec(&**other, prec)
    }

    fn approx_cmp(&self, other: &Self, prec: Precision) -> (r: Ordering) {
        (**self).approx_cmp(&**other, prec)
    }
}

impl<T: ApproxCmpZero> ApproxCmpZero for Box<T> {
    open spec fn cmp_zero_spec(&self, prec: Precision) -> Ordering {
        (**self).cmp_zero_spec(prec)
    }

    fn approx_cmp_zero(&self, prec: Precision) -> (r: Ordering) {
        (**self).approx_cmp_zero(prec)
    }
}

impl<T: ApproxInternable> ApproxInternable for Box<T> {
    open spec fn floats(&self) -> Seq<u64> {
        (**self).floats()
    }

    open spec fn same_shape(&self, other: &Self) -> bool {
        (**self).same_shape(&**other)
    }

    proof fn shape_refl(&self) {
        (**self).shape_refl();
    }

    proof fn shape_sym(&self, other: &Self) {
        (**self).shape_sym(&**other);
    }

    proof fn shape_trans(&self, b: &Self, c: &Self) {
        (**self).shape_trans(&**b, &**c);
    }

    proof fn shape_floats_len(&self, other: &Self) {
        (**self).shape_floats_len(&**other);
    }

    fn intern_floats(&mut self, pool: &mut FloatPool) {
        (**self).intern_floats(pool);
    }

    fn try_intern_floats(&mut self, pool: &FloatPool) -> (ok: bool) {
        (**self).try_intern_floats(pool)
    }
}

impl<T: ApproxHash> ApproxHash for Box<T> {
    open spec fn tokens(&self) -> Seq<u64> {
        (**self).tokens()
    }

    proof fn tokens_agree(&self, other: &Self) {
        (**self).tokens_agree(&**other);
    }

    fn interned_eq(&self, other: &Self) -> (r: bool) {
        (**self).interned_eq(&**other)
    }

    fn interned_hash(&self, st: &mut HashState) {
        (**self).interned_hash(st);
    }
}


impl<A: ApproxEq, B: ApproxEq, C: ApproxEq> ApproxEq for (A, B, C) {
    open spec fn eq_spec(&self, other: &Self, prec: Precision) -> bool {
        self.0.eq_spec(&other.0, prec) && self.1.eq_spec(&other.1, prec) && self.2.eq_spec(
            &other.2,
            prec,
        )
    }

    fn approx_eq(&self, other: &Self, prec: Precision) -> (r: bool) {
        self.0.approx_eq(&other.0, prec) && self.1.approx_eq(&other.1, prec) && self.2.approx_eq(
            &other.2,
            prec,
        )
    }
}

impl<A: ApproxEqZero, B: ApproxEqZero, C: ApproxEqZero> ApproxEqZero for (A, B, C) {
    open spec fn zero_spec(&self, prec: Precision) -> bool {
        self.0.zero_spec(prec) && self.1.zero_spec(prec) && self.2.zero_spec(prec)
    }

    fn approx_eq_zero(&self, prec: Precision) -> (r: bool) {
        self.0.approx_eq_zero(prec) && self.1.approx_eq_zero(prec) && self.2.approx_eq_zero(prec)
    }
}

impl<A: ApproxOrd, B: ApproxOrd, C: ApproxOrd> ApproxOrd for (A, B, C) {
    open spec fn cmp_spec(&self, other: &Self, prec: Precision) -> Ordering {
        match self.0.cmp_spec(&other.0, prec) {
            Ordering::Equal => match self.1.cmp_spec(&other.1, prec) {
                Ordering::Equal => self.2.cmp_spec(&other.2, prec),
                nonequal => nonequal,
            },
            nonequal => nonequal,
        }
    }

    fn approx_cmp(&self, other: &Self, prec: Precision) -> (r: Ordering) {
        match self.0.approx_cmp(&other.0, prec) {
            Ordering::Equal => match self.1.approx_cmp(&other.1, prec) {
                Ordering::Equal => self.2.approx_cmp(&other.2, prec),
                nonequal => nonequal,
            },
            nonequal => nonequal,
        }
    }
}

impl<A: ApproxCmpZero, B: ApproxCmpZero, C: ApproxCmpZero> ApproxCmpZero for (A, B, C) {
    open spec fn cmp_zero_spec(&self, prec: Precision) -> Ordering {
        match self.0.cmp_zero_spec(prec) {
            Ordering::Equal => match self.1.cmp_zero_spec(prec) {
                Ordering::Equal => self.2.cmp_zero_spec(prec),
                nonequal => nonequal,
            },
            nonequal => nonequal,
        }
    }

    fn approx_cmp_zero(&self, prec: Precision) -> (r: Ordering) {
        match self.0.approx_cmp_zero(prec) {
            Ordering::Equal => match self.1.approx_cmp_zero(prec) {
                Ordering::Equal => self.2.approx_cmp_zero(prec),
                nonequal => nonequal,
            },
            nonequal => nonequal,
        }
    }
}

impl<A: ApproxInternable, B: ApproxInternable, C: ApproxInternable> ApproxInternable for (
    A,
    B,
    C,
) {
    open spec fn floats(&self) -> Seq<u64> {
        self.0.floats() + self.1.floats() + self.2.floats()
    }

    open spec fn same_shape(&self, other: &Self) -> bool {
        self.0.same_shape(&other.0) && self.1.same_shape(&other.1) && self.2.same_shape(&other.2)
    }

    proof fn shape_refl(&self) {
        self.0.shape_refl();
        self.1.shape_refl();
        self.2.shape_refl();
    }

    proof fn shape_sym(&self, other: &Self) {
        self.0.shape_sym(&other.0);
        self.1.shape_sym(&other.1);
        self.2.shape_sym(&other.2);
    }

    proof fn shape_trans(&self, b: &Self, c: &Self) {
        self.0.shape_trans(&b.0, &c.0);
        self.1.shape_trans(&b.1, &c.1);
        self.2.shape_trans(&b.2, &c.2);
    }

    proof fn shape_floats_len(&self, other: &Self) {
        self.0.shape_floats_len(&other.0);
        self.1.shape_floats_len(&other.1);
        self.2.shape_floats_len(&other.2);
    }

    fn intern_floats(&mut self, pool: &mut FloatPool) {
        let ghost m0 = pool.model();
        let ghost prec = pool.spec_prec();
        let ghost fa = self.0.floats();
        let ghost fb = self.1.floats();
        let ghost fc = self.2.floats();
        self.0.intern_floats(pool);
        self.1.intern_floats(pool);
        self.2.intern_floats(pool);
        proof {
            crate::pool::lemma_intern_seq_append(m0, prec, fa, fb);
            crate::pool::lemma_intern_seq_append(m0, prec, fa + fb, fc);
        }
    }

    fn try_intern_floats(&mut self, pool: &FloatPool) -> (ok: bool) {
        let ghost m0 = pool.model();
        let ghost prec = pool.spec_prec();
        let ghost fa = self.0.floats();
        let ghost fb = self.1.floats();
        let ghost fc = self.2.floats();
        if !self.0.try_intern_floats(pool) {
            proof {
                let i = choose|i: int| 0 <= i < fa.len() && !m0.contains_key(
                    #[trigger] prec.spec_bucket(fa[i]),
                );
                assert((fa + fb + fc)[i] == fa[i]);
            }
            return false;
        }
        if !self.1.try_intern_floats(pool) {
            proof {
                let i = choose|i: int| 0 <= i < fb.len() && !m0.contains_key(
                    #[trigger] prec.spec_bucket(fb[i]),
                );
                assert((fa + fb + fc)[fa.len() + i] == fb[i]);
            }
            return false;
        }
        if !self.2.try_intern_floats(pool) {
            proof {
                let i = choose|i: int| 0 <= i < fc.len() && !m0.contains_key(
                    #[trigger] prec.spec_bucket(fc[i]),
                );
                assert((fa + fb + fc)[fa.len() + fb.len() + i] == fc[i]);
            }
            return false;
        }
        proof {
            lemma_try_seq_concat(m0, prec, fa, fb);
            lemma_try_seq_concat(m0, prec, fa + fb, fc);
            assert(try_seq_vals(m0, prec, fa + fb + fc) =~= try_seq_vals(m0, prec, fa)
                + try_seq_vals(m0, prec, fb) + try_seq_vals(m0, prec, fc));
            assert forall|i: int| 0 <= i < (fa + fb + fc).len() implies m0.contains_key(
                #[trigger] prec.spec_bucket((fa + fb + fc)[i]),
            ) by {
                if i < fa.len() {
                    assert((fa + fb + fc)[i] == fa[i]);
                } else if i < fa.len() + fb.len() {
                    assert((fa + fb + fc)[i] == fb[i - fa.len()]);
                } else {
                    assert((fa + fb + fc)[i] == fc[i - fa.len() - fb.len()]);
                }
            }
        }
        true
    }
}

impl<A: ApproxHash, B: ApproxHash, C: ApproxHash> ApproxHash for (A, B, C) {
    open spec fn tokens(&self) -> Seq<u64> {
        self.0.tokens() + self.1.tokens() + self.2.tokens()
    }

    proof fn tokens_agree(&self, other: &Self) {
        self.0.shape_floats_len(&other.0);
        self.1.shape_floats_len(&other.1);
        lemma_concat_split(
            self.0.floats() + self.1.floats(),
            self.2.floats(),
            other.0.floats() + other.1.floats(),
            other.2.floats(),
        );
        lemma_concat_split(self.0.floats(), self.1.floats(), other.0.floats(), other.1.floats());
        self.0.tokens_agree(&other.0);
        self.1.tokens_agree(&other.1);
        self.2.tokens_agree(&other.2);
    }

    fn interned_eq(&self, other: &Self) -> (r: bool) {
        let r0 = self.0.interned_eq(&other.0);
        let r1 = self.1.interned_eq(&other.1);
        let r2 = self.2.interned_eq(&other.2);
        proof {
            if r0 && r1 && r2 {
            } else {
                if self.same_shape(other) && self.floats() == other.floats() {
                    self.0.shape_floats_len(&other.0);
                    self.1.shape_floats_len(&other.1);
                    lemma_concat_split(
                        self.0.floats() + self.1.floats(),
                        self.2.floats(),
                        other.0.floats() + other.1.floats(),
                        other.2.floats(),
                    );
                    lemma_concat_split(
                        self.0.floats(),
                        self.1.floats(),
                        other.0.floats(),
                        other.1.floats(),
                    );
                }
            }
        }
        r0 && r1 && r2
    }

    fn interned_hash(&self, st: &mut HashState) {
        let ghost h0 = st.spec_h();
        self.0.interned_hash(st);
        let ghost h1 = st.spec_h();
        self.1.interned_hash(st);
        self.2.interned_hash(st);
        proof {
            lemma_mix_seq_append(h0, self.0.tokens(), self.1.tokens());
            lemma_mix_seq_append(h0, self.0.tokens() + self.1.tokens(), self.2.tokens());
        }
    }
}


impl<T: ApproxEq, const N: usize> ApproxEq for [T; N] {
    open spec fn eq_spec(&self, other: &Self, prec: Precision) -> bool {
        forall|i: int| 0 <= i < N ==> #[trigger] self@[i].eq_spec(&other@[i], prec)
    }

    fn approx_eq(&self, other: &Self, prec: Precision) -> (r: bool) {
        let mut i: usize = 0;
        while i < N
            invariant
                i <= N,
                forall|j: int| 0 <= j < i ==> #[trigger] self@[j].eq_spec(&other@[j], prec),
            decreases N - i,
        {
            if !self[i].approx_eq(&other[i], prec) {
                return false;
            }
            i += 1;
        }
        true
    }
}

impl<T: ApproxEqZero, const N: usize> ApproxEqZero for [T; N] {
    open spec fn zero_spec(&self, prec: Precision) -> bool {
        forall|i: int| 0 <= i < N ==> #[trigger] self@[i].zero_spec(prec)
    }

    fn approx_eq_zero(&self, prec: Precision) -> (r: bool) {
        let mut i: usize = 0;
        while i < N
            invariant
                i <= N,
                forall|j: int| 0 <= j < i ==> #[trigger] self@[j].zero_spec(prec),
            decreases N - i,
        {
            if !self[i].approx_eq_zero(prec) {
                return false;
            }
            i += 1;
        }
        true
    }
}

impl<T: ApproxOrd, const N: usize> ApproxOrd for [T; N] {
    open spec fn cmp_spec(&self, other: &Self, prec: Precision) -> Ordering {
        seq_cmp(self@, other@, prec)
    }

    fn approx_cmp(&self, other: &Self, prec: Precision) -> (r: Ordering) {
        proof {
            assert(self@.skip(0) =~= self@);
            assert(other@.skip(0) =~= other@);
        }
        let mut i: usize = 0;
        while i < N
            invariant
                i <= N,
                seq_cmp(self@, other@, prec) == seq_cmp(self@.skip(i as int), other@.skip(i as int), prec),
            decreases N - i,
        {
            let c = self[i].approx_cmp(&other[i], prec);
            proof {
                let sa = self@.skip(i as int);
                let sb = other@.skip(i as int);
                assert(sa[0] == self@[i as int] && sb[0] == other@[i as int]);
                assert(sa.skip(1) =~= self@.skip(i as int + 1));
                assert(sb.skip(1) =~= other@.skip(i as int + 1));
            }
            match c {
                Ordering::Equal => {},
                nonequal => {
                    return nonequal;
                },
            }
            i += 1;
        }
        proof {
            assert(self@.skip(N as int).len() == 0 && other@.skip(N as int).len() == 0);
        }
        Ordering::Equal
    }
}


impl<T: ApproxInternable, const N: usize> ApproxInternable for [T; N] {
    open spec fn floats(&self) -> Seq<u64> {
        flat_floats(self@)
    }

    open spec fn same_shape(&self, other: &Self) -> bool {
        forall|i: int| 0 <= i < N ==> #[trigger] self@[i].same_shape(&other@[i])
    }

    proof fn shape_refl(&self) {
        assert forall|i: int| 0 <= i < N implies #[trigger] self@[i].same_shape(&self@[i]) by {
            self@[i].shape_refl();
        }
    }

    proof fn shape_sym(&self, other: &Self) {
        assert forall|i: int| 0 <= i < N implies #[trigger] other@[i].same_shape(&self@[i]) by {
            self@[i].shape_sym(&other@[i]);
        }
    }

    proof fn shape_trans(&self, b: &Self, c: &Self) {
        assert forall|i: int| 0 <= i < N implies #[trigger] self@[i].same_shape(&c@[i]) by {
            self@[i].shape_trans(&b@[i], &c@[i]);
        }
    }

    proof fn shape_floats_len(&self, other: &Self) {
        lemma_flat_len_eq(self@, other@);
    }

    #[verifier::rlimit(60)]
    fn intern_floats(&mut self, pool: &mut FloatPool) {
        let ghost s0 = old(self)@;
        let ghost m0 = old(pool).model();
        let ghost prec = pool.spec_prec();
        let mut i: usize = 0;
        while i < N
            invariant
                self@.len() == s0.len(),
                s0.len() == N,
                i <= N,
                pool.wf(),
                pool.spec_prec() == prec,
                forall|j: int| i <= j < N ==> self@[j] == s0[j],
                forall|j: int| 0 <= j < i ==> #[trigger] self@[j].same_shape(&s0[j]),
                pool.model() == intern_seq_map(m0, prec, flat_floats(s0.subrange(0, i as int))),
                flat_floats(self@.subrange(0, i as int)) == intern_seq_vals(
                    m0,
                    prec,
                    flat_floats(s0.subrange(0, i as int)),
                ),
            decreases N - i,
        {
            let ghost pre = self@;
            let ghost mpre = pool.model();
            let elem = &mut self[i];
            elem.intern_floats(pool);
            proof {
                assert(self@ == pre.update(i as int, self@[i as int]));
                assert(pre[i as int] == s0[i as int]);
                assert(s0.subrange(0, i as int + 1) =~= s0.subrange(0, i as int).push(
                    s0[i as int],
                ));
                lemma_flat_push(s0.subrange(0, i as int), s0[i as int]);
                crate::pool::lemma_intern_seq_append(
                    m0,
                    prec,
                    flat_floats(s0.subrange(0, i as int)),
                    s0[i as int].floats(),
                );
                assert(self@.subrange(0, i as int) =~= pre.subrange(0, i as int));
                assert(self@.subrange(0, i as int + 1) =~= self@.subrange(0, i as int).push(
                    self@[i as int],
                ));
                lemma_flat_push(self@.subrange(0, i as int), self@[i as int]);
            }
            i += 1;
        }
        proof {
            assert(s0.subrange(0, N as int) =~= s0);
            assert(self@.subrange(0, N as int) =~= self@);
        }
    }

    fn try_intern_floats(&mut self, pool: &FloatPool) -> (ok: bool) {
        let ghost s0 = old(self)@;
        let ghost m = pool.model();
        let ghost prec = pool.spec_prec();
        let mut i: usize = 0;
        while i < N
            invariant
                s0 == old(self)@,
                self@.len() == s0.len(),
                s0.len() == N,
                i <= N,
                forall|j: int| i <= j < N ==> self@[j] == s0[j],
                forall|j: int| 0 <= j < i ==> #[trigger] self@[j].same_shape(&s0[j]),
                try_seq_ok(m, prec, flat_floats(s0.subrange(0, i as int))),
                flat_floats(self@.subrange(0, i as int)) == try_seq_vals(
                    m,
                    prec,
                    flat_floats(s0.subrange(0, i as int)),
                ),
                m == pool.model(),
                prec == pool.spec_prec(),
            decreases N - i,
        {
            let ghost pre = self@;
            let elem = &mut self[i];
            let ok = elem.try_intern_floats(pool);
            if !ok {
                proof {
                    assert(pre[i as int] == s0[i as int]);
                    lemma_flat_split_at(s0, i as int);
                    lemma_try_seq_concat(
                        m,
                        prec,
                        flat_floats(s0.subrange(0, i as int)),
                        flat_floats(s0.subrange(i as int, s0.len() as int)),
                    );
                    let tail = s0.subrange(i as int, s0.len() as int);
                    assert(tail[0] == s0[i as int]);
                    assert(tail.skip(1) =~= s0.subrange(i as int + 1, s0.len() as int));
                    lemma_try_seq_concat(m, prec, s0[i as int].floats(), flat_floats(tail.skip(1)));
                    assert(flat_floats(tail) == s0[i as int].floats() + flat_floats(tail.skip(1)));
                }
                return false;
            }
            proof {
                assert(self@ == pre.update(i as int, self@[i as int]));
                assert(pre[i as int] == s0[i as int]);
                assert(s0.subrange(0, i as int + 1) =~= s0.subrange(0, i as int).push(
                    s0[i as int],
                ));
                lemma_flat_push(s0.subrange(0, i as int), s0[i as int]);
                lemma_try_seq_concat(
                    m,
                    prec,
                    flat_floats(s0.subrange(0, i as int)),
                    s0[i as int].floats(),
                );
                assert(self@.subrange(0, i as int) =~= pre.subrange(0, i as int));
                assert(self@.subrange(0, i as int + 1) =~= self@.subrange(0, i as int).push(
                    self@[i as int],
                ));
                lemma_flat_push(self@.subrange(0, i as int), self@[i as int]);
            }
            i += 1;
        }
        proof {
            assert(s0.subrange(0, N as int) =~= s0);
            assert(self@.subrange(0, N as int) =~= self@);
        }
        true
    }
}

impl<T: ApproxHash, const N: usize> ApproxHash for [T; N] {
    open spec fn tokens(&self) -> Seq<u64> {
        seq![N as u64] + flat_tokens(self@)
    }

    proof fn tokens_agree(&self, other: &Self) {
        lemma_flat_split_parts(self@, other@);
        lemma_flat_tokens_eq(self@, other@);
    }

    fn interned_eq(&self, other: &Self) -> (r: bool) {
        let mut i: usize = 0;
        while i < N
            invariant
                i <= N,
                forall|j: int| 0 <= j < i ==> #[trigger] self@[j].same_shape(&other@[j]),
                forall|j: int| 0 <= j < i ==> #[trigger] self@[j].floats() == other@[j].floats(),
            decreases N - i,
        {
            if !self[i].interned_eq(&other[i]) {
                proof {
                    if self.same_shape(other) && self.floats() == other.floats() {
                        lemma_flat_split_parts(self@, other@);
                    }
                }
                return false;
            }
            i += 1;
        }
        proof {
            lemma_flat_eq(self@, other@);
        }
        true
    }

    fn interned_hash(&self, st: &mut HashState) {
        let ghost h0 = st.spec_h();
        st.write_u64(N as u64);
        let ghost h1 = st.spec_h();
        proof {
            lemma_mix_seq_one(h0, N as u64);
        }
        let mut i: usize = 0;
        while i < N
            invariant
                i <= N,
                st.spec_h() == mix_seq(h1, flat_tokens(self@.subrange(0, i as int))),
                h1 == mix(h0, N as u64),
            decreases N - i,
        {
            self[i].interned_hash(st);
            proof {
                assert(self@.subrange(0, i as int + 1) =~= self@.subrange(0, i as int).push(
                    self@[i as int],
                ));
                lemma_flat_tokens_push(self@.subrange(0, i as int), self@[i as int]);
                lemma_mix_seq_append(
                    h1,
                    flat_tokens(self@.subrange(0, i as int)),
                    self@[i as int].tokens(),
                );
            }
            i += 1;
        }
        proof {
            assert(self@.subrange(0, N as int) =~= self@);
            lemma_mix_seq_one(h0, N as u64);
            lemma_mix_seq_append(h0, seq![N as u64], flat_tokens(self@));
        }
    }
}

} // verus!
