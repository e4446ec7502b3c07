//! Interner that canonicalizes similar floating-point values.
//!
//! A [`FloatPool`] owns a growable mapping from bucket identifiers to
//! canonical bit patterns.  Interning a value looks up its bucket: if the
//! bucket already holds a canonical value, that value is returned and the
//! input is discarded; otherwise the input becomes canonical for its own
//! bucket and for both neighbouring buckets, overwriting what a neighbour
//! held.  Occupancy is monotonic and a bucket's own registrant is never
//! displaced (its occupied neighbours shield it), but neighbour bindings
//! can be rebound later, so the canonical values depend on the order of
//! past interning calls; the one unshielded binding is the seeded zero
//! bucket, which a neighbouring registration may claim.

use vstd::prelude::*;
use std::collections::HashMap;
use crate::precision::Precision;
use crate::precision::lemma_cell_ids;
use crate::precision::lemma_cell_adjacent;
use crate::precision::lemma_cell_range;
use crate::scalar::Scalar;
use crate::scalar::lemma_strunc_zero;
use crate::traits::ApproxHash;
use vstd::set::axiom_set_insert_len;
use vstd::std_specs::iter::IteratorSpec;

verus! {

broadcast use vstd::std_specs::hash::group_hash_axioms;

/// The pool's structural properties: the zero bucket is occupied; every
/// value present anywhere is also canonical at its own bucket; a value
/// registered away from the zero cell keeps both its neighbour buckets
/// occupied (which is what shields its own bucket from later overwrites);
/// and a value of the zero cell lives nowhere but the zero bucket.
pub open spec fn pool_wf_map(m: Map<u64, u64>, prec: Precision) -> bool {
    &&& m.contains_key(0)
    &&& forall|b: u64| #[trigger]
        m.contains_key(b) ==> {
            let v = m[b];
            &&& m.contains_key(prec.spec_mid(v)) && m[prec.spec_mid(v)] == v
            &&& prec.spec_mid(v) != 0 ==> ((prec.spec_lo(v) != prec.spec_mid(v)
                ==> m.contains_key(prec.spec_lo(v))) && (prec.spec_hi(v) != prec.spec_mid(v)
                ==> m.contains_key(prec.spec_hi(v))))
            &&& prec.spec_mid(v) == 0 ==> b == 0
        }
}

/// One interning step on the model: if the middle bucket is occupied the
/// model is unchanged; otherwise the input becomes canonical for the middle
/// bucket and for both distinct neighbours, overwriting what they held.
pub open spec fn intern1_map(m: Map<u64, u64>, prec: Precision, x: u64) -> Map<u64, u64> {
    let lo = prec.spec_lo(x);
    let mid = prec.spec_mid(x);
    let hi = prec.spec_hi(x);
    if m.contains_key(mid) {
        m
    } else {
        let m1 = m.insert(mid, x);
        let m2 = if lo != mid {
            m1.insert(lo, x)
        } else {
            m1
        };
        if hi != mid {
            m2.insert(hi, x)
        } else {
            m2
        }
    }
}

/// The canonical value an interning step settles on.
pub open spec fn intern1_val(m: Map<u64, u64>, prec: Precision, x: u64) -> u64 {
    if m.contains_key(prec.spec_mid(x)) {
        m[prec.spec_mid(x)]
    } else {
        x
    }
}

/// The non-mutating lookup: the canonical value of the bucket of `x`, if
/// that bucket is occupied.
pub open spec fn lookup1(m: Map<u64, u64>, prec: Precision, x: u64) -> Option<u64> {
    if m.contains_key(prec.spec_bucket(x)) {
        Some(m[prec.spec_bucket(x)])
    } else {
        None
    }
}

/// Interning a whole sequence of patterns, threading the model through:
/// the model after each pattern of `s` has been registered in order.
pub open spec fn intern_seq_map(m: Map<u64, u64>, prec: Precision, s: Seq<u64>) -> Map<u64, u64>
    decreases s.len(),
{
    if s.len() == 0 {
        m
    } else {
        intern_seq_map(intern1_map(m, prec, s[0]), prec, s.skip(1))
    }
}

/// The canonical values settled on while interning a sequence in order.
pub open spec fn intern_seq_vals(m: Map<u64, u64>, prec: Precision, s: Seq<u64>) -> Seq<u64>
    decreases s.len(),
{
    if s.len() == 0 {
        Seq::empty()
    } else {
        seq![intern1_val(m, prec, s[0])] + intern_seq_vals(intern1_map(m, prec, s[0]), prec, s.skip(1))
    }
}

/// Whether a non-mutating interning of every pattern of `s` would succeed.
pub open spec fn try_seq_ok(m: Map<u64, u64>, prec: Precision, s: Seq<u64>) -> bool {
    forall|i: int| 0 <= i < s.len() ==> m.contains_key(#[trigger] prec.spec_bucket(s[i]))
}

/// The canonical values a non-mutating interning of `s` resolves to.
pub open spec fn try_seq_vals(m: Map<u64, u64>, prec: Precision, s: Seq<u64>) -> Seq<u64> {
    s.map(|i: int, x: u64| m[prec.spec_bucket(x)])
}

/// A sequence is settled under a model when every pattern is the canonical
/// value of its own bucket.
pub open spec fn seq_settled(m: Map<u64, u64>, prec: Precision, s: Seq<u64>) -> bool {
    forall|i: int| 0 <= i < s.len() ==> m.contains_key(#[trigger] prec.spec_bucket(s[i]))
        && m[prec.spec_bucket(s[i])] == s[i]
}

/// Settledness away from the zero bucket: every pattern whose bucket is
/// not the sign-merged band at zero is the canonical value of its bucket.
/// The zero bucket is exempt because a neighbouring registration may
/// rebind it at any time.
pub open spec fn seq_settled_off_zero(m: Map<u64, u64>, prec: Precision, s: Seq<u64>) -> bool {
    forall|i: int|
        0 <= i < s.len() ==> (#[trigger] prec.spec_bucket(s[i]) != 0 ==> m.contains_key(
            prec.spec_bucket(s[i]),
        ) && m[prec.spec_bucket(s[i])] == s[i])
}

/// Interning a concatenation is interning the parts in order.
pub proof fn lemma_intern_seq_append(m: Map<u64, u64>, prec: Precision, s1: Seq<u64>, s2: Seq<u64>)
    ensures
        intern_seq_map(m, prec, s1 + s2) == intern_seq_map(intern_seq_map(m, prec, s1), prec, s2),
        intern_seq_vals(m, prec, s1 + s2) == intern_seq_vals(m, prec, s1) + intern_seq_vals(
            intern_seq_map(m, prec, s1),
            prec,
            s2,
        ),
    decreases s1.len(),
{
    if s1.len() == 0 {
        assert(s1 + s2 =~= s2);
        assert(intern_seq_vals(m, prec, s1) + intern_seq_vals(m, prec, s2) =~= intern_seq_vals(
            m,
            prec,
            s2,
        ));
    } else {
        let m1 = intern1_map(m, prec, s1[0]);
        assert((s1 + s2).skip(1) =~= s1.skip(1) + s2);
        lemma_intern_seq_append(m1, prec, s1.skip(1), s2);
        assert(seq![intern1_val(m, prec, s1[0])] + (intern_seq_vals(m1, prec, s1.skip(1))
            + intern_seq_vals(intern_seq_map(m1, prec, s1.skip(1)), prec, s2)) =~= (seq![
            intern1_val(m, prec, s1[0]),
        ] + intern_seq_vals(m1, prec, s1.skip(1))) + intern_seq_vals(
            intern_seq_map(m1, prec, s1.skip(1)),
            prec,
            s2,
        ));
    }
}

/// Interning a sequence preserves the invariant, only grows occupancy,
/// yields as many canonical values as inputs, keeps every registration
/// away from the zero bucket in place, and leaves every canonical value
/// whose bucket is not the zero band settled in the final model.
pub proof fn lemma_intern_seq_wf(m: Map<u64, u64>, prec: Precision, s: Seq<u64>)
    requires
        pool_wf_map(m, prec),
    ensures
        pool_wf_map(intern_seq_map(m, prec, s), prec),
        forall|b: u64| #[trigger]
            m.contains_key(b) ==> intern_seq_map(m, prec, s).contains_key(b),
        forall|b: u64| #[trigger]
            m.contains_key(b) && b == prec.spec_mid(m[b]) && b != 0 ==> intern_seq_map(
                m,
                prec,
                s,
            )[b] == m[b],
        intern_seq_vals(m, prec, s).len() == s.len(),
        seq_settled_off_zero(intern_seq_map(m, prec, s), prec, intern_seq_vals(m, prec, s)),
    decreases s.len(),
{
    if s.len() == 0 {
    } else {
        let x = s[0];
        let v = intern1_val(m, prec, x);
        let m1 = intern1_map(m, prec, x);
        let mrest = intern_seq_map(m1, prec, s.skip(1));
        lemma_intern1_wf(m, prec, x);
        lemma_intern_seq_wf(m1, prec, s.skip(1));
        let vals = intern_seq_vals(m, prec, s);
        let vrest = intern_seq_vals(m1, prec, s.skip(1));
        assert(vals == seq![v] + vrest);
        assert(m1.contains_key(prec.spec_mid(v)) && m1[prec.spec_mid(v)] == v);
        assert forall|b: u64| #[trigger]
            m.contains_key(b) && b == prec.spec_mid(m[b]) && b != 0 implies mrest[b] == m[b] by {
            assert(m1[b] == m[b]);
            assert(m1.contains_key(b) && b == prec.spec_mid(m1[b]) && b != 0);
        }
        assert forall|i: int|
            0 <= i < vals.len() implies (#[trigger] prec.spec_bucket(vals[i]) != 0
                ==> mrest.contains_key(prec.spec_bucket(vals[i])) && mrest[prec.spec_bucket(
                vals[i],
            )] == vals[i]) by {
            if i > 0 {
                assert(vals[i] == vrest[i - 1]);
            } else {
                assert(vals[0] == v);
                if prec.spec_bucket(v) != 0 {
                    let b = prec.spec_mid(v);
                    assert(m1.contains_key(b) && b == prec.spec_mid(m1[b]) && b != 0);
                    assert(mrest[b] == m1[b]);
                }
            }
        }
    }
}

/// Interning a settled sequence changes nothing and returns it unchanged.
pub proof fn lemma_intern_seq_settled(m: Map<u64, u64>, prec: Precision, s: Seq<u64>)
    requires
        seq_settled(m, prec, s),
    ensures
        intern_seq_map(m, prec, s) == m,
        intern_seq_vals(m, prec, s) == s,
    decreases s.len(),
{
    if s.len() == 0 {
        assert(intern_seq_vals(m, prec, s) =~= s);
    } else {
        assert(m.contains_key(prec.spec_bucket(s[0])));
        assert(intern1_map(m, prec, s[0]) == m);
        assert(intern1_val(m, prec, s[0]) == s[0]);
        assert forall|i: int| 0 <= i < s.skip(1).len() implies m.contains_key(
            #[trigger] prec.spec_bucket(s.skip(1)[i]),
        ) && m[prec.spec_bucket(s.skip(1)[i])] == s.skip(1)[i] by {
            assert(s.skip(1)[i] == s[i + 1]);
        }
        lemma_intern_seq_settled(m, prec, s.skip(1));
        assert(intern_seq_vals(m, prec, s) =~= s);
    }
}

/// A settled sequence resolves without mutation, to itself.
pub proof fn lemma_try_seq_settled(m: Map<u64, u64>, prec: Precision, s: Seq<u64>)
    requires
        seq_settled(m, prec, s),
    ensures
        try_seq_ok(m, prec, s),
        try_seq_vals(m, prec, s) == s,
{
    assert(try_seq_vals(m, prec, s) =~= s);
}

/// Structure for interning similar floating-point values based on their
/// buckets under a fixed [`Precision`].
#[derive(Clone, Debug)]
pub struct FloatPool {
    prec: Precision,
    floats: HashMap<u64, u64>,
}

impl FloatPool {
    /// The mapping from bucket identifier to canonical bit pattern.
    pub closed spec fn model(self) -> Map<u64, u64> {
        self.floats@
    }

    /// The precision the pool was created with.
    pub closed spec fn spec_prec(self) -> Precision {
        self.prec
    }

    /// The pool invariant: finitely many buckets, with the structural
    /// properties of [`pool_wf_map`] (the zero bucket occupied and every
    /// value canonical at its own bucket).  Constructors establish it and
    /// every mutating operation preserves it.
    pub open spec fn wf(self) -> bool {
        &&& self.model().dom().finite()
        &&& pool_wf_map(self.model(), self.spec_prec())
    }

    /// Constructs a pool holding only the seed entry, which starts the zero
    /// bucket at +0.0 so that zero interns to exactly zero (until a
    /// neighbouring registration claims that bucket).
    pub fn new(prec: Precision) -> (r: FloatPool)
        ensures
            r.wf(),
            r.spec_prec() == prec,
            r.model() == Map::<u64, u64>::empty().insert(0, 0),
    {
        let mut floats: HashMap<u64, u64> = HashMap::new();
        floats.insert(0, 0);
        proof {
            lemma_zero_bucket(prec);
            assert(floats@ =~= Map::<u64, u64>::empty().insert(0, 0));
        }
        FloatPool { prec, floats }
    }

    /// Returns the precision level used by the interner.
    pub fn prec(&self) -> (r: Precision)
        ensures
            r == self.spec_prec(),
    {
        self.prec
    }

    /// Returns the number of occupied buckets in the pool.
    pub fn bucket_count(&self) -> (r: usize)
        ensures
            r == self.model().dom().len(),
    {
        self.floats.len()
    }

    /// Searches for an existing canonical value for a pattern approximately
    /// equal to `x`: the canonical value of the bucket of `x`, if any.
    pub(crate) fn lookup(&self, x: u64) -> (r: Option<u64>)
        ensures
            r == lookup1(self.model(), self.spec_prec(), x),
    {
        match self.floats.get(&self.prec.bucket(Scalar::from_bits(x))) {
            Some(v) => Some(*v),
            None => None,
        }
    }

    /// Registers a pattern: returns the existing canonical value of its
    /// bucket, or makes `x` canonical for its bucket and both neighbouring
    /// buckets, overwriting what a neighbour held.  The second result is
    /// the bucket of the canonical value.
    pub(crate) fn register(&mut self, x: u64) -> (r: (u64, u64))
        requires
            old(self).wf(),
        ensures
            final(self).wf(),
            final(self).spec_prec() == old(self).spec_prec(),
            final(self).model() == intern1_map(old(self).model(), old(self).spec_prec(), x),
            r.0 == intern1_val(old(self).model(), old(self).spec_prec(), x),
            r.1 == old(self).spec_prec().spec_bucket(r.0),
            final(self).model().contains_key(r.1),
            final(self).model()[r.1] == r.0,
    {
        let ghost m0 = self.floats@;
        let ghost prec = self.prec;
        let (lo_opt, mid, hi_opt) = self.prec.nearby_buckets(Scalar::from_bits(x));
        if self.floats.contains_key(&mid) {
            let v: u64 = *self.floats.get(&mid).unwrap();
            let b: u64 = self.prec.bucket(Scalar::from_bits(v));
            proof {
                assert(m0.contains_key(mid));
                assert(m0.contains_key(prec.spec_bucket(v)) && m0[prec.spec_bucket(v)] == v);
            }
            (v, b)
        } else {
            self.floats.insert(mid, x);
            if let Some(lo) = lo_opt {
                self.floats.insert(lo, x);
            }
            if let Some(hi) = hi_opt {
                self.floats.insert(hi, x);
            }
            proof {
                assert(self.floats@ =~= intern1_map(m0, prec, x));
                lemma_intern1_wf(m0, prec, x);
                lemma_intern1_growth(m0, prec, x);
            }
            (x, mid)
        }
    }
}

impl Default for FloatPool {
    /// Constructs a float interner using the default precision.
    fn default() -> (r: FloatPool)
        ensures
            r.wf(),
            r.spec_prec().wexp() == 48,
            r.model() == Map::<u64, u64>::empty().insert(0, 0),
    {
        FloatPool::new(Precision::default())
    }
}

impl FloatPool {
    /// Replaces all floats in `value` with interned ones that are
    /// approximately equal, returning the mutated copy.
    ///
    /// Floats whose buckets were vacant are added to the pool and come back
    /// unmodified; the rest are replaced by their buckets' canonical values.
    pub fn intern<V: ApproxHash>(&mut self, value: V) -> (r: V)
        requires
            old(self).wf(),
        ensures
            final(self).wf(),
            final(self).spec_prec() == old(self).spec_prec(),
            final(self).model() == intern_seq_map(
                old(self).model(),
                old(self).spec_prec(),
                value.floats(),
            ),
            r.floats() == intern_seq_vals(
                old(self).model(),
                old(self).spec_prec(),
                value.floats(),
            ),
            r.same_shape(&value),
    {
        let mut v = value;
        v.intern_floats(self);
        v
    }

    /// Replaces all floats in `value` with interned ones that are
    /// approximately equal, in place.
    pub fn intern_in_place<V: ApproxHash>(&mut self, value: &mut V)
        requires
            old(self).wf(),
        ensures
            final(self).wf(),
            final(self).spec_prec() == old(self).spec_prec(),
            final(self).model() == intern_seq_map(
                old(self).model(),
                old(self).spec_prec(),
                old(value).floats(),
            ),
            final(value).floats() == intern_seq_vals(
                old(self).model(),
                old(self).spec_prec(),
                old(value).floats(),
            ),
            final(value).same_shape(old(value)),
    {
        value.intern_floats(self);
    }

    /// Replaces all floats in `value` with their buckets' existing canonical
    /// values, without mutating the pool.  Returns nothing when any float's
    /// bucket has never been registered: partial results are not surfaced.
    pub fn try_intern<V: ApproxHash>(&self, value: V) -> (r: Option<V>)
        ensures
            match r {
                Some(out) => {
                    &&& try_seq_ok(self.model(), self.spec_prec(), value.floats())
                    &&& out.floats() == try_seq_vals(
                        self.model(),
                        self.spec_prec(),
                        value.floats(),
                    )
                    &&& out.same_shape(&value)
                },
                None => !try_seq_ok(self.model(), self.spec_prec(), value.floats()),
            },
    {
        let mut v = value;
        if v.try_intern_floats(self) {
            Some(v)
        } else {
            None
        }
    }
}

/// Interning is idempotent away from the zero bucket: when none of the
/// canonical values an interning pass settled on falls in the sign-merged
/// band at zero, interning them again changes neither the pool nor the
/// values.  (A canonical value of the zero bucket is excluded because a
/// neighbouring registration may rebind that bucket.)
pub proof fn lemma_intern_idempotent(m: Map<u64, u64>, prec: Precision, s: Seq<u64>)
    requires
        pool_wf_map(m, prec),
        forall|i: int|
            0 <= i < intern_seq_vals(m, prec, s).len() ==> #[trigger] prec.spec_bucket(
                intern_seq_vals(m, prec, s)[i],
            ) != 0,
    ensures
        intern_seq_map(intern_seq_map(m, prec, s), prec, intern_seq_vals(m, prec, s))
            == intern_seq_map(m, prec, s),
        intern_seq_vals(intern_seq_map(m, prec, s), prec, intern_seq_vals(m, prec, s))
            == intern_seq_vals(m, prec, s),
{
    lemma_intern_seq_wf(m, prec, s);
    lemma_intern_seq_settled(intern_seq_map(m, prec, s), prec, intern_seq_vals(m, prec, s));
}

/// Values settled by an interning pass away from the zero bucket resolve
/// without mutation, to themselves: a mutating intern followed by a
/// non-mutating one agree, under the same zero-bucket exclusion as
/// idempotence.
pub proof fn lemma_intern_then_try(m: Map<u64, u64>, prec: Precision, s: Seq<u64>)
    requires
        pool_wf_map(m, prec),
        forall|i: int|
            0 <= i < intern_seq_vals(m, prec, s).len() ==> #[trigger] prec.spec_bucket(
                intern_seq_vals(m, prec, s)[i],
            ) != 0,
    ensures
        try_seq_ok(intern_seq_map(m, prec, s), prec, intern_seq_vals(m, prec, s)),
        try_seq_vals(intern_seq_map(m, prec, s), prec, intern_seq_vals(m, prec, s))
            == intern_seq_vals(m, prec, s),
{
    lemma_intern_seq_wf(m, prec, s);
    lemma_try_seq_settled(intern_seq_map(m, prec, s), prec, intern_seq_vals(m, prec, s));
}

/// One interning step grows the pool by at most three buckets (the middle
/// one and up to two neighbours), and by none at all when the middle bucket
/// is already occupied.
pub proof fn lemma_intern1_growth(m: Map<u64, u64>, prec: Precision, x: u64)
    requires
        m.dom().finite(),
    ensures
        intern1_map(m, prec, x).dom().finite(),
        m.dom().len() <= intern1_map(m, prec, x).dom().len() <= m.dom().len() + 3,
        m.contains_key(prec.spec_bucket(x)) ==> intern1_map(m, prec, x) == m,
{
    let lo = prec.spec_lo(x);
    let mid = prec.spec_mid(x);
    let hi = prec.spec_hi(x);
    if !m.contains_key(mid) {
        let m1 = m.insert(mid, x);
        assert(m1.dom() =~= m.dom().insert(mid));
        axiom_set_insert_len(m.dom(), mid);
        let m2 = if lo != mid {
            m1.insert(lo, x)
        } else {
            m1
        };
        if lo != mid {
            assert(m2.dom() =~= m1.dom().insert(lo));
        }
        axiom_set_insert_len(m1.dom(), lo);
        let m3 = if hi != mid {
            m2.insert(hi, x)
        } else {
            m2
        };
        if hi != mid {
            assert(m3.dom() =~= m2.dom().insert(hi));
        }
        axiom_set_insert_len(m2.dom(), hi);
    }
}

/// Interning a sequence of patterns grows the pool by at most three buckets
/// per pattern, and by none for a pattern whose bucket is already occupied.
pub proof fn lemma_intern_seq_growth(m: Map<u64, u64>, prec: Precision, s: Seq<u64>)
    requires
        m.dom().finite(),
    ensures
        intern_seq_map(m, prec, s).dom().finite(),
        m.dom().len() <= intern_seq_map(m, prec, s).dom().len() <= m.dom().len() + 3 * s.len(),
    decreases s.len(),
{
    if s.len() > 0 {
        lemma_intern1_growth(m, prec, s[0]);
        lemma_intern_seq_growth(intern1_map(m, prec, s[0]), prec, s.skip(1));
    }
}

impl FloatPool {
    /// Returns the canonical values of the pool, each exactly once, in an
    /// unspecified order: the values registered at their own buckets, which
    /// by the pool invariant are all the values the pool holds anywhere.
    pub fn canonical_values(&self) -> (r: Vec<u64>)
        requires
            self.wf(),
        ensures
            r@.to_set() == self.model().values(),
            r@.no_duplicates(),
    {
        let ghost m = self.floats@;
        let ghost prec = self.prec;
        let ghost sq = vstd::std_specs::hash::spec_hash_map_iter(&self.floats).remaining();
        let ghost mut processed: int = 0;
        let ghost mut srcs: Seq<int> = Seq::empty();
        let mut r: Vec<u64> = Vec::new();
        for pair in it: self.floats.iter()
            invariant
                m == self.floats@,
                prec == self.prec,
                pool_wf_map(m, prec),
                it.seq() == sq,
                processed == it.index(),
                sq.len() == m.dom().len(),
                forall|j: int|
                    #![trigger sq[j]]
                    0 <= j < sq.len() ==> m.contains_key(*sq[j].0) && m[*sq[j].0] == *sq[j].1,
                forall|b: u64| #[trigger] m.contains_key(b) ==> sq.contains((&b, &m[b])),
                sq.no_duplicates(),
                forall|j: int|
                    #![trigger sq[j]]
                    0 <= j < processed && prec.spec_bucket(*sq[j].1) == *sq[j].0 ==> r@.contains(
                        *sq[j].1,
                    ),
                srcs.len() == r@.len(),
                forall|q: int|
                    #![trigger srcs[q]]
                    0 <= q < srcs.len() ==> 0 <= srcs[q] < processed && r@[q] == *sq[srcs[q]].1
                        && prec.spec_bucket(*sq[srcs[q]].1) == *sq[srcs[q]].0,
                r@.no_duplicates(),
        {
            let b: u64 = *pair.0;
            let v: u64 = *pair.1;
            let ghost r_pre = r@;
            proof {
                assert(sq[processed] == pair);
            }
            if self.prec.bucket(Scalar::from_bits(v)) == b {
                proof {
                    assert forall|q: int| 0 <= q < r@.len() implies r@[q] != v by {
                        let j = srcs[q];
                        if r@[q] == v {
                            assert(*sq[j].0 == prec.spec_bucket(v));
                            assert(*sq[processed].0 == prec.spec_bucket(v));
                            assert(m[*sq[j].0] == *sq[j].1);
                            assert(sq[j] == sq[processed]);
                            assert(false);
                        }
                    }
                }
                r.push(v);
                proof {
                    srcs = srcs.push(processed);
                    assert forall|j: int|
                        0 <= j < processed + 1 && prec.spec_bucket(*(#[trigger] sq[j]).1)
                            == *sq[j].0 implies r@.contains(*sq[j].1) by {
                        if j < processed {
                            let q = choose|q: int| 0 <= q < r_pre.len() && r_pre[q] == *sq[j].1;
                            assert(r@[q] == *sq[j].1);
                        } else {
                            assert(r@[r_pre.len() as int] == *sq[j].1);
                        }
                    }
                    processed = processed + 1;
                }
            } else {
                proof {
                    assert forall|j: int|
                        0 <= j < processed + 1 && prec.spec_bucket(*(#[trigger] sq[j]).1)
                            == *sq[j].0 implies r@.contains(*sq[j].1) by {
                        if j < processed {
                        } else {
                            assert(false);
                        }
                    }
                    processed = processed + 1;
                }
            }
        }
        proof {
            assert(processed == sq.len());
            assert forall|val: u64| self.model().values().contains(val) implies r@.to_set(
            ).contains(val) by {
                let b0 = choose|b0: u64| #[trigger] m.contains_key(b0) && m[b0] == val;
                assert(m.contains_key(prec.spec_bucket(val)) && m[prec.spec_bucket(val)] == val);
                let bv = prec.spec_bucket(val);
                assert(sq.contains((&bv, &m[bv])));
                let j = choose|j: int| 0 <= j < sq.len() && #[trigger] sq[j] == (&bv, &m[bv]);
                assert(prec.spec_bucket(*sq[j].1) == *sq[j].0);
                assert(r@.contains(val));
            }
            assert forall|val: u64| r@.to_set().contains(val) implies self.model().values(
            ).contains(val) by {
                let q = choose|q: int| 0 <= q < r@.len() && #[trigger] r@[q] == val;
                let j = srcs[q];
                assert(m.contains_key(*sq[j].0) && m[*sq[j].0] == val);
            }
            assert(r@.to_set() =~= self.model().values());
        }
        r
    }
}

/// The zero pattern falls in bucket zero under every precision.
pub proof fn lemma_zero_bucket(prec: Precision)
    ensures
        prec.spec_bucket(0) == 0,
        prec.spec_sf2(0) == 0,
{
    assert((0u64 >> 52) & 0x7ff == 0u64 && 0u64 & 0xf_ffff_ffff_ffff == 0u64) by (bit_vector);
    lemma_strunc_zero(0, prec.wexp() + 1);
}

/// An interning step preserves the pool invariant.  Occupancy only grows;
/// slots other than the two overwritten neighbours keep their values; a
/// slot holding its own value's registration, away from the zero bucket,
/// is shielded (its occupied neighbours keep any overwriter's middle
/// bucket occupied); and the canonical value that comes out is canonical
/// at its own bucket afterwards.
pub proof fn lemma_intern1_wf(m: Map<u64, u64>, prec: Precision, x: u64)
    requires
        pool_wf_map(m, prec),
    ensures
        pool_wf_map(intern1_map(m, prec, x), prec),
        forall|b: u64| #[trigger] m.contains_key(b) ==> intern1_map(m, prec, x).contains_key(b),
        forall|b: u64| #[trigger]
            m.contains_key(b) && b != prec.spec_lo(x) && b != prec.spec_hi(x) ==> intern1_map(
                m,
                prec,
                x,
            )[b] == m[b],
        forall|b: u64| #[trigger]
            m.contains_key(b) && b == prec.spec_mid(m[b]) && b != 0 ==> intern1_map(m, prec, x)[b]
                == m[b],
        intern1_map(m, prec, x).contains_key(prec.spec_mid(intern1_val(m, prec, x))),
        intern1_map(m, prec, x)[prec.spec_mid(intern1_val(m, prec, x))] == intern1_val(m, prec, x),
{
    let m1 = intern1_map(m, prec, x);
    let v = intern1_val(m, prec, x);
    let lo = prec.spec_lo(x);
    let mid = prec.spec_mid(x);
    let hi = prec.spec_hi(x);
    if m.contains_key(mid) {
        assert(m.contains_key(prec.spec_mid(v)) && m[prec.spec_mid(v)] == v);
    } else {
        assert(mid != 0);
        // No value in the pool away from the zero cell has its own bucket at
        // a neighbour slot of x: its shield would keep x's middle bucket
        // occupied.
        assert forall|b: u64|
            m.contains_key(b) && (prec.spec_mid(#[trigger] m[b]) == lo || prec.spec_mid(m[b])
                == hi) implies prec.spec_mid(m[b]) == 0 by {
            let w = m[b];
            lemma_cell_ids(prec, x, w);
            lemma_cell_ids(prec, w, x);
            lemma_cell_ids(prec, w, w);
            lemma_cell_ids(prec, x, x);
            lemma_cell_adjacent(prec, x);
            lemma_cell_adjacent(prec, w);
            lemma_cell_range(prec, x);
            lemma_cell_range(prec, w);
            if prec.spec_mid(w) != 0 {
                assert(m.contains_key(prec.spec_mid(w)));
                if prec.spec_mid(w) == lo {
                    assert(lo != mid);
                    assert(prec.cell_mid(w) == prec.cell_mid(x) - 1);
                    assert(prec.cell_hi(w) == prec.cell_mid(w) + 1);
                    assert(prec.spec_hi(w) == mid);
                    assert(m.contains_key(prec.spec_hi(w)));
                    assert(false);
                } else {
                    assert(hi != mid);
                    assert(prec.cell_mid(w) == prec.cell_mid(x) + 1);
                    assert(prec.cell_lo(w) == prec.cell_mid(w) - 1);
                    assert(prec.spec_lo(w) == mid);
                    assert(m.contains_key(prec.spec_lo(w)));
                    assert(false);
                }
            }
        }
        assert(m1.contains_key(mid) && m1[mid] == x);
        assert forall|b: u64| #[trigger]
            m.contains_key(b) && b == prec.spec_mid(m[b]) && b != 0 implies m1[b] == m[b] by {
            if b == lo || b == hi {
                assert(prec.spec_mid(m[b]) == 0);
                assert(false);
            }
        }
        assert forall|b: u64| #[trigger] m1.contains_key(b) implies {
            let v1 = m1[b];
            &&& m1.contains_key(prec.spec_mid(v1)) && m1[prec.spec_mid(v1)] == v1
            &&& prec.spec_mid(v1) != 0 ==> ((prec.spec_lo(v1) != prec.spec_mid(v1)
                ==> m1.contains_key(prec.spec_lo(v1))) && (prec.spec_hi(v1) != prec.spec_mid(v1)
                ==> m1.contains_key(prec.spec_hi(v1))))
            &&& prec.spec_mid(v1) == 0 ==> b == 0
        } by {
            let v1 = m1[b];
            if b == mid || (b == lo && lo != mid) || (b == hi && hi != mid) {
                assert(v1 == x);
            } else {
                assert(m.contains_key(b) && v1 == m[b]);
                if prec.spec_mid(v1) == mid {
                    assert(m.contains_key(mid));
                    assert(false);
                }
                if prec.spec_mid(v1) == lo && lo != mid || prec.spec_mid(v1) == hi && hi != mid {
                    assert(prec.spec_mid(v1) == 0);
                    assert(b == 0);
                    assert(lo != 0 && hi != 0);
                    assert(false);
                }
                assert(m1[prec.spec_mid(v1)] == m[prec.spec_mid(v1)]);
            }
        }
    }
}

} // verus!
