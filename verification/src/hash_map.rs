//! Hash map keyed by approximately-equal values.
//!
//! Every key-accepting operation first interns the key in the map's own
//! [`FloatPool`], so approximately equal keys collapse to one bit-identical
//! representative.  The map is two-level: an outer table from the exact
//! 64-bit hash of the interned key to a short list of `(key, value)` pairs,
//! resolved by bit-exact post-intern equality.  Two distinct keys may share
//! an outer hash; the list keeps them apart.

use vstd::prelude::*;
use std::collections::HashMap;
use vstd::set::axiom_set_insert_len;
use vstd::set::axiom_set_remove_len;
use crate::precision::Precision;
use crate::pool::FloatPool;
use crate::pool::intern_seq_map;
use crate::pool::intern_seq_vals;
use crate::pool::try_seq_ok;
use crate::pool::try_seq_vals;
use crate::traits::ApproxHash;
use crate::traits::ApproxInternable;
use crate::traits::HashState;
use crate::traits::key_hash;
use vstd::std_specs::iter::IteratorSpec;

verus! {

broadcast use vstd::std_specs::hash::group_hash_axioms;

/// Bit-exact post-intern equality of two keys: same shape and identical
/// float patterns.
pub open spec fn ieq<K: ApproxHash>(a: K, b: K) -> bool {
    a.same_shape(&b) && a.floats() == b.floats()
}

/// Approximate hash map for composite values containing floating-point
/// bit patterns, keyed through a [`FloatPool`].
///
/// The inner collision lists are plain vectors (an inline-storage small
/// vector would change nothing observable), and the outer table is hashed
/// by the verified fold in [`HashState`] rather than a configurable hash
/// builder, so that the hash itself carries a contract.
pub struct ApproxHashMap<K, V> {
    pool: FloatPool,
    map: HashMap<u64, Vec<(K, V)>>,
    len: usize,
}

impl<K: ApproxHash, V> ApproxHashMap<K, V> {
    /// The interner's model: bucket identifier to canonical pattern.
    pub closed spec fn pool_model(self) -> Map<u64, u64> {
        self.pool.model()
    }

    /// The precision the map's pool was created with.
    pub closed spec fn spec_prec(self) -> Precision {
        self.pool.spec_prec()
    }

    /// The number of entries the map accounts for.
    pub closed spec fn spec_len(self) -> nat {
        self.len as nat
    }

    spec fn valid_pos(self, h: u64, i: int) -> bool {
        self.map@.contains_key(h) && 0 <= i < self.map@[h]@.len()
    }

    spec fn entry_at(self, h: u64, i: int) -> (K, V) {
        self.map@[h]@[i]
    }

    /// The pair `(k, v)` is stored in the map, bit-exactly.
    pub closed spec fn stored(self, k: K, v: V) -> bool {
        exists|h: u64, i: int|
            #![trigger self.entry_at(h, i)]
            self.valid_pos(h, i) && self.entry_at(h, i) == (k, v)
    }

    /// The stored key `k2` is what a lookup for `probe` resolves to: the
    /// probe's floats all have known buckets, and `k2` is the probe with
    /// each float replaced by its bucket's canonical value.
    pub open spec fn answers(self, probe: K, k2: K) -> bool {
        &&& try_seq_ok(self.pool_model(), self.spec_prec(), probe.floats())
        &&& k2.same_shape(&probe)
        &&& k2.floats() == try_seq_vals(self.pool_model(), self.spec_prec(), probe.floats())
    }

    /// Some stored entry's key has the shape of `probe`: the map holds an
    /// entry for a key structured like it (whatever its float patterns).
    pub open spec fn has_key_shaped(self, probe: K) -> bool {
        exists|k2: K, v2: V|
            #![trigger self.stored(k2, v2)]
            self.stored(k2, v2) && k2.same_shape(&probe)
    }

    /// The float patterns of `probe` after a mutating intern against this
    /// map's pool: each replaced by its bucket's canonical value, with the
    /// vacant buckets getting the probe's own patterns.
    pub open spec fn interned_floats(self, probe: K) -> Seq<u64> {
        intern_seq_vals(self.pool_model(), self.spec_prec(), probe.floats())
    }

    spec fn positions(self) -> Set<(u64, int)> {
        Set::new(|p: (u64, int)| self.valid_pos(p.0, p.1))
    }

    /// The map invariant: the pool is well-formed; no outer slot holds an
    /// empty list; every stored key hashes to its slot; no two stored
    /// entries are post-intern equal; the cached count equals the number
    /// of stored pairs.
    pub closed spec fn wf(self) -> bool {
        &&& self.pool.wf()
        &&& (forall|h: u64|
            self.map@.contains_key(h) ==> (#[trigger] self.map@[h])@.len() >= 1)
        &&& (forall|h: u64, i: int|
            #![trigger self.entry_at(h, i)]
            self.valid_pos(h, i) ==> key_hash(self.entry_at(h, i).0) == h)
        &&& (forall|h: u64, i: int, j: int|
            #![trigger self.entry_at(h, i), self.entry_at(h, j)]
            self.valid_pos(h, i) && self.valid_pos(h, j) && i != j ==> !ieq(
                self.entry_at(h, i).0,
                self.entry_at(h, j).0,
            ))
        &&& self.positions().finite()
        &&& self.len as int == self.positions().len()
    }

    /// Constructs an empty map with the given precision.
    pub fn new(prec: Precision) -> (r: ApproxHashMap<K, V>)
        ensures
            r.wf(),
            r.spec_prec() == prec,
            r.spec_len() == 0,
            r.pool_model() == Map::<u64, u64>::empty().insert(0, 0),
            forall|k: K, v: V| !r.stored(k, v),
    {
        let r = ApproxHashMap { pool: FloatPool::new(prec), map: HashMap::new(), len: 0 };
        proof {
            assert(r.positions() =~= Set::<(u64, int)>::empty());
        }
        r
    }

    /// Returns the number of entries in the map.
    pub fn len(&self) -> (r: usize)
        ensures
            r == self.spec_len(),
    {
        self.len
    }

    /// Returns whether the map is empty.
    pub fn is_empty(&self) -> (r: bool)
        ensures
            r == (self.spec_len() == 0),
    {
        self.len == 0
    }

    /// Clears the map, removing all entries but keeping the pool's
    /// accumulated canonical values, so previously learned
    /// canonicalizations persist.
    pub fn clear(&mut self)
        requires
            old(self).wf(),
        ensures
            final(self).wf(),
            final(self).spec_len() == 0,
            final(self).pool_model() == old(self).pool_model(),
            final(self).spec_prec() == old(self).spec_prec(),
            forall|k: K, v: V| !final(self).stored(k, v),
    {
        self.map.clear();
        self.len = 0;
        proof {
            assert(self.positions() =~= Set::<(u64, int)>::empty());
        }
    }

    /// Returns a reference to the map's float pool.
    pub fn float_pool(&self) -> (r: &FloatPool)
        ensures
            r.model() == self.pool_model(),
            r.spec_prec() == self.spec_prec(),
    {
        &self.pool
    }

    /// Returns the precision used to bucket floats.
    pub fn prec(&self) -> (r: Precision)
        ensures
            r == self.spec_prec(),
    {
        self.pool.prec()
    }

    /// Replaces all floats in `key` with interned ones, growing the pool
    /// for the vacant buckets, and returns the mutated copy.
    pub fn intern(&mut self, key: K) -> (r: K)
        requires
            old(self).wf(),
        ensures
            final(self).wf(),
            final(self).spec_prec() == old(self).spec_prec(),
            final(self).spec_len() == old(self).spec_len(),
            final(self).pool_model() == intern_seq_map(
                old(self).pool_model(),
                old(self).spec_prec(),
                key.floats(),
            ),
            r.floats() == intern_seq_vals(
                old(self).pool_model(),
                old(self).spec_prec(),
                key.floats(),
            ),
            r.same_shape(&key),
            forall|k: K, v: V| final(self).stored(k, v) == old(self).stored(k, v),
    {
        let ghost m0 = self.pool.model();
        let ghost prec = self.pool.spec_prec();
        let r = self.pool.intern(key);
        proof {
            self.lemma_wf_after_pool_growth(*old(self), m0, prec, key.floats());
        }
        r
    }

    /// Replaces all floats in `key` with interned ones, in place.
    pub fn intern_in_place(&mut self, key: &mut K)
        requires
            old(self).wf(),
        ensures
            final(self).wf(),
            final(self).spec_prec() == old(self).spec_prec(),
            final(self).spec_len() == old(self).spec_len(),
            final(self).pool_model() == intern_seq_map(
                old(self).pool_model(),
                old(self).spec_prec(),
                old(key).floats(),
            ),
            final(key).floats() == intern_seq_vals(
                old(self).pool_model(),
                old(self).spec_prec(),
                old(key).floats(),
            ),
            final(key).same_shape(old(key)),
            forall|k: K, v: V| final(self).stored(k, v) == old(self).stored(k, v),
    {
        let ghost m0 = self.pool.model();
        let ghost prec = self.pool.spec_prec();
        self.pool.intern_in_place(key);
        proof {
            self.lemma_wf_after_pool_growth(*old(self), m0, prec, old(key).floats());
        }
    }

    /// Replaces all floats in `key` with their existing canonical values
    /// without mutating anything, or returns nothing if any float's bucket
    /// has never been registered.
    pub fn try_intern(&self, key: K) -> (r: Option<K>)
        ensures
            match r {
                Some(out) => {
                    &&& try_seq_ok(self.pool_model(), self.spec_prec(), key.floats())
                    &&& out.floats() == try_seq_vals(
                        self.pool_model(),
                        self.spec_prec(),
                        key.floats(),
                    )
                    &&& out.same_shape(&key)
                },
                None => !try_seq_ok(self.pool_model(), self.spec_prec(), key.floats()),
            },
    {
        self.pool.try_intern(key)
    }

    /// After the pool grows by interning (which never disturbs an occupied
    /// bucket), every invariant of the table part still holds.
    proof fn lemma_wf_after_pool_growth(
        &self,
        prev: ApproxHashMap<K, V>,
        m0: Map<u64, u64>,
        prec: Precision,
        s: Seq<u64>,
    )
        requires
            prev.wf(),
            crate::pool::pool_wf_map(m0, prec),
            self.map@ == prev.map@,
            self.len == prev.len,
            m0 == prev.pool.model(),
            prec == prev.pool.spec_prec(),
            self.pool.model() == intern_seq_map(m0, prec, s),
            self.pool.spec_prec() == prec,
            self.pool.wf(),
        ensures
            self.wf(),
            forall|k: K, v: V| self.stored(k, v) == prev.stored(k, v),
    {
        assert forall|h: u64, i: int| self.valid_pos(h, i) implies key_hash(
            (#[trigger] self.entry_at(h, i)).0,
        ) == h by {
            assert(prev.valid_pos(h, i));
            assert(prev.entry_at(h, i) == self.entry_at(h, i));
        }
        assert forall|h: u64, i: int, j: int|
            self.valid_pos(h, i) && self.valid_pos(h, j) && i != j implies !ieq(
            (#[trigger] self.entry_at(h, i)).0,
            (#[trigger] self.entry_at(h, j)).0,
        ) by {
            assert(prev.valid_pos(h, i) && prev.valid_pos(h, j));
            assert(prev.entry_at(h, i) == self.entry_at(h, i));
            assert(prev.entry_at(h, j) == self.entry_at(h, j));
        }
        assert(self.positions() =~= prev.positions());
        assert forall|k: K, v: V| self.stored(k, v) == prev.stored(k, v) by {
            if self.stored(k, v) {
                let (h, i) = choose|h: u64, i: int|
                    #![trigger self.entry_at(h, i)]
                    self.valid_pos(h, i) && self.entry_at(h, i) == (k, v);
                assert(prev.valid_pos(h, i) && prev.entry_at(h, i) == (k, v));
            }
            if prev.stored(k, v) {
                let (h, i) = choose|h: u64, i: int|
                    #![trigger prev.entry_at(h, i)]
                    prev.valid_pos(h, i) && prev.entry_at(h, i) == (k, v);
                assert(self.valid_pos(h, i) && self.entry_at(h, i) == (k, v));
            }
        }
    }
}

/// Computes the exact post-intern hash of a key.
fn hash_key<K: ApproxHash>(k: &K) -> (r: u64)
    ensures
        r == key_hash(*k),
{
    let mut st = HashState::new();
    k.interned_hash(&mut st);
    st.finish()
}

/// Scans a slot's list for a key that is post-intern equal to `k`.
fn scan<K: ApproxHash, V>(list: &Vec<(K, V)>, k: &K) -> (r: Option<usize>)
    ensures
        match r {
            Some(i) => i < list@.len() && ieq(list@[i as int].0, *k),
            None => forall|j: int| 0 <= j < list@.len() ==> !ieq((#[trigger] list@[j]).0, *k),
        },
{
    let n: usize = list.len();
    let mut i: usize = 0;
    while i < n
        invariant
            n == list@.len(),
            i <= n,
            forall|j: int| 0 <= j < i ==> !ieq((#[trigger] list@[j]).0, *k),
        decreases n - i,
    {
        if list[i].0.interned_eq(k) {
            return Some(i);
        }
        i += 1;
    }
    None
}


impl<K: ApproxHash, V> ApproxHashMap<K, V> {
    /// No stored entry can answer a probe whose interned form `k2` is
    /// missing from slot `h`, when `h` is `k2`'s hash.
    proof fn lemma_no_answer(&self, probe: K, k2: K, h: u64)
        requires
            self.wf(),
            try_seq_ok(self.pool_model(), self.spec_prec(), probe.floats()),
            k2.same_shape(&probe),
            k2.floats() == try_seq_vals(self.pool_model(), self.spec_prec(), probe.floats()),
            h == key_hash(k2),
            self.map@.contains_key(h) ==> forall|j: int|
                0 <= j < self.map@[h]@.len() ==> !ieq((#[trigger] self.map@[h]@[j]).0, k2),
        ensures
            forall|k3: K, v3: V| self.stored(k3, v3) ==> !self.answers(probe, k3),
    {
        assert forall|k3: K, v3: V| self.stored(k3, v3) implies !self.answers(probe, k3) by {
            if self.answers(probe, k3) {
                let (h3, i3) = choose|h3: u64, i3: int|
                    #![trigger self.entry_at(h3, i3)]
                    self.valid_pos(h3, i3) && self.entry_at(h3, i3) == (k3, v3);
                k2.shape_sym(&probe);
                k3.shape_trans(&probe, &k2);
                k3.tokens_agree(&k2);
                assert(key_hash(k3) == h3);
                assert(h3 == h);
                assert(ieq(self.map@[h]@[i3].0, k2));
            }
        }
    }

    /// Returns the stored key-value pair that the given key resolves to,
    /// or nothing when it is not present.
    ///
    /// The lookup never mutates the pool: the key's floats are resolved
    /// against the buckets already registered, the interned form is hashed,
    /// and the slot's list is scanned with bit-exact equality.
    pub fn get_key_value(&self, key: K) -> (r: Option<(&K, &V)>)
        requires
            self.wf(),
        ensures
            match r {
                Some(p) => self.stored(*p.0, *p.1) && self.answers(key, *p.0),
                None => forall|k2: K, v2: V| self.stored(k2, v2) ==> !self.answers(key, k2),
            },
    {
        if self.len == 0 {
            proof {
                assert forall|k2: K, v2: V| self.stored(k2, v2) implies !self.answers(
                    key,
                    k2,
                ) by {
                    if self.stored(k2, v2) {
                        let (h, i) = choose|h: u64, i: int|
                            #![trigger self.entry_at(h, i)]
                            self.valid_pos(h, i) && self.entry_at(h, i) == (k2, v2);
                        assert(self.positions().contains((h, i)));
                        axiom_set_remove_len(self.positions(), (h, i));
                    }
                }
            }
            return None;
        }
        let k2 = match self.pool.try_intern(key) {
            Some(k2) => k2,
            None => {
                return None;
            },
        };
        let h: u64 = hash_key(&k2);
        match self.map.get(&h) {
            None => {
                proof {
                    self.lemma_no_answer(key, k2, h);
                }
                None
            },
            Some(list) => {
                match scan(list, &k2) {
                    Some(i) => {
                        let p: &(K, V) = &list[i];
                        proof {
                            assert(self.map@[h] == *list);
                            assert(self.valid_pos(h, i as int));
                            assert(self.entry_at(h, i as int) == (p.0, p.1));
                            p.0.shape_trans(&k2, &key);
                        }
                        Some((&p.0, &p.1))
                    },
                    None => {
                        proof {
                            assert(self.map@[h] == *list);
                            self.lemma_no_answer(key, k2, h);
                        }
                        None
                    },
                }
            },
        }
    }

    /// Returns the value associated to the given key (or to anything
    /// approximately equal to it), or nothing when it is not present.
    pub fn get(&self, key: K) -> (r: Option<&V>)
        requires
            self.wf(),
        ensures
            match r {
                Some(v) => exists|k2: K|
                    #![trigger self.answers(key, k2)]
                    self.stored(k2, *v) && self.answers(key, k2),
                None => forall|k2: K, v2: V| self.stored(k2, v2) ==> !self.answers(key, k2),
            },
    {
        match self.get_key_value(key) {
            Some(p) => Some(p.1),
            None => None,
        }
    }

    /// Returns whether the map contains the key (or anything approximately
    /// equal to it).
    pub fn contains_key(&self, key: K) -> (r: bool)
        requires
            self.wf(),
        ensures
            r == exists|k2: K, v2: V|
                #![trigger self.stored(k2, v2)]
                self.stored(k2, v2) && self.answers(key, k2),
    {
        match self.get_key_value(key) {
            Some(_) => true,
            None => false,
        }
    }
}


impl<K: ApproxHash, V> ApproxHashMap<K, V> {
    /// Inserts an entry and returns the value it replaced, if any.
    ///
    /// The key is interned first, which may grow the pool; the interned key
    /// is what the map stores.  When a stored entry is post-intern equal to
    /// the interned key, only its value is replaced; otherwise the new pair
    /// is appended to its hash slot's list and the count grows by one.
    #[verifier::rlimit(100)]
    pub fn insert(&mut self, key: K, value: V) -> (r: Option<V>)
        requires
            old(self).wf(),
            old(self).spec_len() < usize::MAX,
        ensures
            final(self).wf(),
            final(self).spec_prec() == old(self).spec_prec(),
            final(self).pool_model() == intern_seq_map(
                old(self).pool_model(),
                old(self).spec_prec(),
                key.floats(),
            ),
            r is Some ==> final(self).spec_len() == old(self).spec_len(),
            r is None ==> final(self).spec_len() == old(self).spec_len() + 1,
            (match r {
                Some(old_v) => exists|k2: K|
                    #![trigger k2.same_shape(&key)]
                    {
                        &&& old(self).stored(k2, old_v)
                        &&& k2.same_shape(&key)
                        &&& k2.floats() == old(self).interned_floats(key)
                        &&& forall|k3: K, v3: V|
                            final(self).stored(k3, v3) == ((old(self).stored(k3, v3) && !(k3 == k2
                                && v3 == old_v)) || (k3 == k2 && v3 == value))
                    },
                None => true,
            }),
            r is None ==> forall|k3: K, v3: V|
                old(self).stored(k3, v3) ==> !(k3.same_shape(&key) && k3.floats() == old(
                    self,
                ).interned_floats(key)),
            r is None ==> exists|k2: K|
                #![trigger k2.same_shape(&key)]
                {
                    &&& k2.same_shape(&key)
                    &&& k2.floats() == old(self).interned_floats(key)
                    &&& forall|k3: K, v3: V|
                        final(self).stored(k3, v3) == (old(self).stored(k3, v3) || (k3 == k2 && v3
                            == value))
                },
    {
        let ghost kf = intern_seq_vals(old(self).pool_model(), old(self).spec_prec(), key.floats());
        let mut k = key;
        self.pool.intern_in_place(&mut k);
        proof {
            self.lemma_wf_after_pool_growth(
                *old(self),
                old(self).pool_model(),
                old(self).spec_prec(),
                key.floats(),
            );
        }
        let ghost mid = *self;
        let h: u64 = hash_key(&k);
        let list_opt = self.map.remove(&h);
        match list_opt {
            Some(mut list) => {
                proof {
                    assert(mid.map@.contains_key(h) && mid.map@[h] == list);
                }
                match scan(&list, &k) {
                    Some(i) => {
                        let (k_old, v_old) = list.remove(i);
                        let ghost l0 = mid.map@[h]@;
                        list.insert(i, (k_old, value));
                        proof {
                            assert(list@ =~= l0.update(i as int, (l0[i as int].0, value)));
                        }
                        self.map.insert(h, list);
                        proof {
                            assert(self.map@.dom() =~= mid.map@.dom());
                            self.lemma_after_replace(mid, h, i as int, value);
                            assert(mid.entry_at(h, i as int) == (k_old, v_old));
                            assert(mid.stored(k_old, v_old));
                            assert(old(self).stored(k_old, v_old));
                            assert(ieq(k_old, k));
                            k_old.shape_trans(&k, &key);
                            assert(k_old.floats() == kf);
                            assert(self.spec_len() == old(self).spec_len());
                            assert forall|k3: K, v3: V| self.stored(k3, v3) == ((old(
                                self,
                            ).stored(k3, v3) && !(k3 == k_old && v3 == v_old)) || (k3 == k_old
                                && v3 == value)) by {
                                assert(mid.stored(k3, v3) == old(self).stored(k3, v3));
                            }
                        }
                        Some(v_old)
                    },
                    None => {
                        let ghost l0 = mid.map@[h]@;
                        list.push((k, value));
                        self.map.insert(h, list);
                        self.len = self.len + 1;
                        proof {
                            assert(self.map@.dom() =~= mid.map@.dom().insert(h));
                            self.lemma_after_push(mid, h, l0, k, value, key);
                            assert(k.floats() == kf);
                            assert(self.stored(k, value));
                            assert forall|k3: K, v3: V| self.stored(k3, v3) == (old(self).stored(
                                k3,
                                v3,
                            ) || (k3 == k && v3 == value)) by {
                                assert(mid.stored(k3, v3) == old(self).stored(k3, v3));
                            }
                            assert forall|k3: K, v3: V| old(self).stored(k3, v3) implies !(
                            k3.same_shape(&key) && k3.floats() == kf) by {
                                assert(mid.stored(k3, v3) == old(self).stored(k3, v3));
                            }
                        }
                        None
                    },
                }
            },
            None => {
                let mut list: Vec<(K, V)> = Vec::new();
                list.push((k, value));
                self.map.insert(h, list);
                self.len = self.len + 1;
                proof {
                    assert(self.map@.dom() =~= mid.map@.dom().insert(h));
                    assert(list@ =~= Seq::<(K, V)>::empty().push((k, value)));
                    self.lemma_after_push(mid, h, Seq::empty(), k, value, key);
                    assert(k.floats() == kf);
                    assert(self.stored(k, value));
                    assert forall|k3: K, v3: V| self.stored(k3, v3) == (old(self).stored(k3, v3)
                        || (k3 == k && v3 == value)) by {
                        assert(mid.stored(k3, v3) == old(self).stored(k3, v3));
                    }
                    assert forall|k3: K, v3: V| old(self).stored(k3, v3) implies !(k3.same_shape(
                        &key,
                    ) && k3.floats() == kf) by {
                        assert(mid.stored(k3, v3) == old(self).stored(k3, v3));
                    }
                }
                None
            },
        }
    }

    /// Replacing the value at one position keeps every invariant and
    /// rewrites the stored relation at exactly that entry.
    proof fn lemma_after_replace(&self, mid: ApproxHashMap<K, V>, h: u64, i: int, value: V)
        requires
            mid.wf(),
            mid.valid_pos(h, i),
            self.pool == mid.pool,
            self.len == mid.len,
            self.map@.dom() == mid.map@.dom(),
            self.map@.contains_key(h),
            self.map@[h]@ == mid.map@[h]@.update(i, (mid.map@[h]@[i].0, value)),
            forall|h3: u64|
                h3 != h && self.map@.contains_key(h3) ==> self.map@[h3] == mid.map@[h3],
        ensures
            self.wf(),
            self.spec_len() == mid.spec_len(),
            forall|k3: K, v3: V|
                self.stored(k3, v3) == ((mid.stored(k3, v3) && !(k3 == mid.entry_at(h, i).0 && v3
                    == mid.entry_at(h, i).1)) || (k3 == mid.entry_at(h, i).0 && v3 == value)),
            self.stored(mid.entry_at(h, i).0, value),
    {
        let k2 = mid.entry_at(h, i).0;
        let v2 = mid.entry_at(h, i).1;
        assert forall|h3: u64, i3: int| self.valid_pos(h3, i3) implies mid.valid_pos(h3, i3) && (
        (h3, i3) != (h, i) ==> #[trigger] self.entry_at(h3, i3) == mid.entry_at(h3, i3)) && ((h3,
        i3) == (h, i) ==> self.entry_at(h3, i3) == (k2, value)) by {}
        assert forall|h3: u64, i3: int| mid.valid_pos(h3, i3) implies self.valid_pos(h3, i3) by {}
        assert(self.positions() =~= mid.positions());
        assert(self.valid_pos(h, i) && self.entry_at(h, i) == (k2, value));
        assert forall|h3: u64, i3: int|
            #![trigger self.entry_at(h3, i3)]
            self.valid_pos(h3, i3) implies key_hash(self.entry_at(h3, i3).0) == h3 by {
            assert(mid.entry_at(h3, i3).0 == self.entry_at(h3, i3).0);
        }
        assert forall|h3: u64, i3: int, j3: int|
            #![trigger self.entry_at(h3, i3), self.entry_at(h3, j3)]
            self.valid_pos(h3, i3) && self.valid_pos(h3, j3) && i3 != j3 implies !ieq(
            self.entry_at(h3, i3).0,
            self.entry_at(h3, j3).0,
        ) by {
            assert(mid.entry_at(h3, i3).0 == self.entry_at(h3, i3).0);
            assert(mid.entry_at(h3, j3).0 == self.entry_at(h3, j3).0);
        }
        assert forall|k3: K, v3: V| #[trigger] self.stored(k3, v3) implies ((mid.stored(k3, v3)
            && !(k3 == k2 && v3 == v2)) || (k3 == k2 && v3 == value)) by {
            let (h3, i3) = choose|h3: u64, i3: int|
                #![trigger self.entry_at(h3, i3)]
                self.valid_pos(h3, i3) && self.entry_at(h3, i3) == (k3, v3);
            if (h3, i3) == (h, i) {
            } else {
                assert(mid.entry_at(h3, i3) == (k3, v3));
                if k3 == k2 && v3 == v2 {
                    k2.shape_refl();
                    assert(ieq(mid.entry_at(h3, i3).0, mid.entry_at(h, i).0));
                    if h3 == h {
                        assert(false);
                    } else {
                        assert(key_hash(mid.entry_at(h3, i3).0) == h3);
                        assert(key_hash(mid.entry_at(h, i).0) == h);
                        assert(false);
                    }
                }
            }
        }
        assert forall|k3: K, v3: V| ((mid.stored(k3, v3) && !(k3 == k2 && v3 == v2)) || (k3 == k2
            && v3 == value)) implies #[trigger] self.stored(k3, v3) by {
            if k3 == k2 && v3 == value {
                assert(self.entry_at(h, i) == (k3, v3));
            } else {
                let (h3, i3) = choose|h3: u64, i3: int|
                    #![trigger mid.entry_at(h3, i3)]
                    mid.valid_pos(h3, i3) && mid.entry_at(h3, i3) == (k3, v3);
                if (h3, i3) == (h, i) {
                    assert(false);
                } else {
                    assert(self.entry_at(h3, i3) == (k3, v3));
                }
            }
        }
    }

    /// Appending a fresh entry to a slot keeps every invariant, adds that
    /// entry to the stored relation, and grows the count by one.
    proof fn lemma_after_push(
        &self,
        mid: ApproxHashMap<K, V>,
        h: u64,
        l0: Seq<(K, V)>,
        k: K,
        value: V,
        probe: K,
    )
        requires
            mid.wf(),
            mid.map@.contains_key(h) ==> mid.map@[h]@ == l0,
            !mid.map@.contains_key(h) ==> l0 == Seq::<(K, V)>::empty(),
            self.pool == mid.pool,
            self.len == mid.len + 1,
            mid.len < usize::MAX,
            self.map@.dom() == mid.map@.dom().insert(h),
            self.map@.contains_key(h),
            self.map@[h]@ == l0.push((k, value)),
            forall|h3: u64|
                h3 != h && self.map@.contains_key(h3) ==> self.map@[h3] == mid.map@[h3],
            key_hash(k) == h,
            forall|j: int| 0 <= j < l0.len() ==> !ieq((#[trigger] l0[j]).0, k),
            k.same_shape(&probe),
        ensures
            self.wf(),
            self.spec_len() == mid.spec_len() + 1,
            forall|k3: K, v3: V|
                self.stored(k3, v3) == (mid.stored(k3, v3) || (k3 == k && v3 == value)),
            forall|k3: K, v3: V|
                mid.stored(k3, v3) ==> !(k3.same_shape(&probe) && k3.floats() == k.floats()),
            self.stored(k, value),
    {
        let n = l0.len() as int;
        assert forall|h3: u64, i3: int| self.valid_pos(h3, i3) implies ((h3, i3) == (h, n) && (
        #[trigger] self.entry_at(h3, i3)) == (k, value)) || (mid.valid_pos(h3, i3)
            && self.entry_at(h3, i3) == mid.entry_at(h3, i3)) by {}
        assert forall|h3: u64, i3: int| mid.valid_pos(h3, i3) implies self.valid_pos(h3, i3) by {}
        assert(self.valid_pos(h, n) && self.entry_at(h, n) == (k, value));
        assert(!mid.valid_pos(h, n));
        assert(self.positions() =~= mid.positions().insert((h, n)));
        axiom_set_insert_len(mid.positions(), (h, n));
        assert forall|h3: u64, i3: int|
            #![trigger self.entry_at(h3, i3)]
            self.valid_pos(h3, i3) implies key_hash(self.entry_at(h3, i3).0) == h3 by {
            if (h3, i3) != (h, n) {
                assert(mid.entry_at(h3, i3) == self.entry_at(h3, i3));
            }
        }
        assert forall|h3: u64, i3: int, j3: int|
            #![trigger self.entry_at(h3, i3), self.entry_at(h3, j3)]
            self.valid_pos(h3, i3) && self.valid_pos(h3, j3) && i3 != j3 implies !ieq(
            self.entry_at(h3, i3).0,
            self.entry_at(h3, j3).0,
        ) by {
            if (h3, i3) == (h, n) {
                assert(mid.valid_pos(h3, j3));
                let kj = mid.entry_at(h, j3).0;
                assert(!ieq(kj, k));
                if ieq(k, kj) {
                    k.shape_sym(&kj);
                    assert(false);
                }
            } else if (h3, j3) == (h, n) {
                assert(mid.valid_pos(h3, i3));
                assert(!ieq(mid.entry_at(h, i3).0, k));
            } else {
                assert(mid.entry_at(h3, i3).0 == self.entry_at(h3, i3).0);
                assert(mid.entry_at(h3, j3).0 == self.entry_at(h3, j3).0);
            }
        }
        assert forall|k3: K, v3: V| #[trigger] self.stored(k3, v3) implies (mid.stored(k3, v3) || (
        k3 == k && v3 == value)) by {
            let (h3, i3) = choose|h3: u64, i3: int|
                #![trigger self.entry_at(h3, i3)]
                self.valid_pos(h3, i3) && self.entry_at(h3, i3) == (k3, v3);
            if (h3, i3) != (h, n) {
                assert(mid.entry_at(h3, i3) == (k3, v3));
            }
        }
        assert forall|k3: K, v3: V| (mid.stored(k3, v3) || (k3 == k && v3 == value)) implies
            #[trigger] self.stored(k3, v3) by {
            if mid.stored(k3, v3) {
                let (h3, i3) = choose|h3: u64, i3: int|
                    #![trigger mid.entry_at(h3, i3)]
                    mid.valid_pos(h3, i3) && mid.entry_at(h3, i3) == (k3, v3);
                assert(self.entry_at(h3, i3) == (k3, v3));
            } else {
                assert(self.entry_at(h, n) == (k3, v3));
            }
        }
        assert forall|k3: K, v3: V| #[trigger] mid.stored(k3, v3) implies !(k3.same_shape(&probe)
            && k3.floats() == k.floats()) by {
            if k3.same_shape(&probe) && k3.floats() == k.floats() {
                let (h3, i3) = choose|h3: u64, i3: int|
                    #![trigger mid.entry_at(h3, i3)]
                    mid.valid_pos(h3, i3) && mid.entry_at(h3, i3) == (k3, v3);
                k.shape_sym(&probe);
                k3.shape_trans(&probe, &k);
                k3.tokens_agree(&k);
                assert(key_hash(k3) == key_hash(k));
                assert(h3 == h);
                assert(l0[i3] == mid.entry_at(h3, i3));
                assert(ieq(l0[i3].0, k));
                assert(false);
            }
        }
    }
}


impl<K: ApproxHash, V> ApproxHashMap<K, V> {
    /// Removes the entry the key resolves to and returns its key-value
    /// pair, or nothing when it is not present.
    ///
    /// The key is interned through the mutating path, so the pool may grow
    /// even when nothing is removed.  When the entry's slot held only that
    /// entry the whole slot is dropped; otherwise the entry is swap-removed
    /// from the slot's list.
    #[verifier::rlimit(100)]
    pub fn remove_entry(&mut self, key: K) -> (r: Option<(K, V)>)
        requires
            old(self).wf(),
        ensures
            final(self).wf(),
            final(self).spec_prec() == old(self).spec_prec(),
            final(self).pool_model() == intern_seq_map(
                old(self).pool_model(),
                old(self).spec_prec(),
                key.floats(),
            ),
            (match r {
                Some(p) => {
                    &&& final(self).spec_len() + 1 == old(self).spec_len()
                    &&& old(self).stored(p.0, p.1)
                    &&& p.0.same_shape(&key)
                    &&& p.0.floats() == old(self).interned_floats(key)
                    &&& forall|k3: K, v3: V|
                        final(self).stored(k3, v3) == (old(self).stored(k3, v3) && !(k3 == p.0
                            && v3 == p.1))
                },
                None => {
                    &&& final(self).spec_len() == old(self).spec_len()
                    &&& forall|k3: K, v3: V|
                        old(self).stored(k3, v3) ==> !(k3.same_shape(&key) && k3.floats() == old(
                            self,
                        ).interned_floats(key))
                    &&& forall|k3: K, v3: V|
                        final(self).stored(k3, v3) == old(self).stored(k3, v3)
                },
            }),
    {
        let mut k = key;
        self.pool.intern_in_place(&mut k);
        proof {
            self.lemma_wf_after_pool_growth(
                *old(self),
                old(self).pool_model(),
                old(self).spec_prec(),
                key.floats(),
            );
        }
        let ghost mid = *self;
        let h: u64 = hash_key(&k);
        let list_opt = self.map.remove(&h);
        match list_opt {
            None => {
                proof {
                    assert(self.map@ =~= mid.map@);
                    self.lemma_table_unchanged(mid);
                    self.lemma_none_found(mid, key, k, h);
                }
                None
            },
            Some(mut list) => {
                proof {
                    assert(mid.map@.contains_key(h) && mid.map@[h] == list);
                }
                match scan(&list, &k) {
                    None => {
                        self.map.insert(h, list);
                        proof {
                            assert(self.map@ =~= mid.map@);
                            self.lemma_table_unchanged(mid);
                            self.lemma_none_found(mid, key, k, h);
                        }
                        None
                    },
                    Some(i) => {
                        let ghost l0 = mid.map@[h]@;
                        proof {
                            assert(mid.valid_pos(h, i as int));
                            assert(mid.positions().contains((h, i as int)));
                            axiom_set_remove_len(mid.positions(), (h, i as int));
                        }
                        self.len = self.len - 1;
                        let p = if list.len() == 1 {
                            list.remove(i)
                        } else {
                            let q = list.swap_remove(i);
                            self.map.insert(h, list);
                            q
                        };
                        proof {
                            if l0.len() == 1 {
                                assert(self.map@.dom() =~= mid.map@.dom().remove(h));
                            } else {
                                assert(self.map@.dom() =~= mid.map@.dom());
                                assert(self.map@[h]@ == l0.update(i as int, l0.last()).drop_last());
                            }
                            self.lemma_after_remove(mid, h, i as int, l0);
                            assert(mid.entry_at(h, i as int) == p);
                            assert(mid.stored(p.0, p.1));
                            assert(old(self).stored(p.0, p.1));
                            assert(ieq(p.0, k));
                            p.0.shape_trans(&k, &key);
                            assert forall|k3: K, v3: V| self.stored(k3, v3) == (old(self).stored(
                                k3,
                                v3,
                            ) && !(k3 == p.0 && v3 == p.1)) by {
                                assert(mid.stored(k3, v3) == old(self).stored(k3, v3));
                            }
                        }
                        Some(p)
                    },
                }
            },
        }
    }

    /// Removes the entry the key resolves to and returns its value, or
    /// nothing when it is not present.
    pub fn remove(&mut self, key: K) -> (r: Option<V>)
        requires
            old(self).wf(),
        ensures
            final(self).wf(),
            final(self).spec_prec() == old(self).spec_prec(),
            final(self).pool_model() == intern_seq_map(
                old(self).pool_model(),
                old(self).spec_prec(),
                key.floats(),
            ),
            (match r {
                Some(v) => {
                    &&& final(self).spec_len() + 1 == old(self).spec_len()
                    &&& exists|k2: K|
                        #![trigger k2.same_shape(&key)]
                        {
                            &&& old(self).stored(k2, v)
                            &&& k2.same_shape(&key)
                            &&& k2.floats() == old(self).interned_floats(key)
                            &&& forall|k3: K, v3: V|
                                final(self).stored(k3, v3) == (old(self).stored(k3, v3) && !(k3
                                    == k2 && v3 == v))
                        }
                },
                None => {
                    &&& final(self).spec_len() == old(self).spec_len()
                    &&& forall|k3: K, v3: V|
                        old(self).stored(k3, v3) ==> !(k3.same_shape(&key) && k3.floats() == old(
                            self,
                        ).interned_floats(key))
                    &&& forall|k3: K, v3: V|
                        final(self).stored(k3, v3) == old(self).stored(k3, v3)
                },
            }),
    {
        match self.remove_entry(key) {
            Some(p) => Some(p.1),
            None => None,
        }
    }

    /// A table byte-for-byte equal to a well-formed one is well-formed and
    /// stores the same pairs.
    proof fn lemma_table_unchanged(&self, mid: ApproxHashMap<K, V>)
        requires
            mid.wf(),
            self.pool == mid.pool,
            self.len == mid.len,
            self.map@ == mid.map@,
        ensures
            self.wf(),
            forall|k3: K, v3: V| self.stored(k3, v3) == mid.stored(k3, v3),
    {
        assert forall|h: u64, i: int| #[trigger] self.valid_pos(h, i) implies mid.valid_pos(h, i)
            && self.entry_at(h, i) == mid.entry_at(h, i) by {}
        assert forall|h: u64, i: int| #[trigger] mid.valid_pos(h, i) implies self.valid_pos(h, i)
            && self.entry_at(h, i) == mid.entry_at(h, i) by {}
        assert(self.positions() =~= mid.positions());
        assert forall|h: u64, i: int|
            #![trigger self.entry_at(h, i)]
            self.valid_pos(h, i) implies key_hash(self.entry_at(h, i).0) == h by {
            assert(mid.entry_at(h, i) == self.entry_at(h, i));
        }
        assert forall|h: u64, i: int, j: int|
            #![trigger self.entry_at(h, i), self.entry_at(h, j)]
            self.valid_pos(h, i) && self.valid_pos(h, j) && i != j implies !ieq(
            self.entry_at(h, i).0,
            self.entry_at(h, j).0,
        ) by {
            assert(mid.entry_at(h, i) == self.entry_at(h, i));
            assert(mid.entry_at(h, j) == self.entry_at(h, j));
        }
        assert forall|k3: K, v3: V| self.stored(k3, v3) == mid.stored(k3, v3) by {
            if self.stored(k3, v3) {
                let (h, i) = choose|h: u64, i: int|
                    #![trigger self.entry_at(h, i)]
                    self.valid_pos(h, i) && self.entry_at(h, i) == (k3, v3);
                assert(mid.valid_pos(h, i) && mid.entry_at(h, i) == (k3, v3));
            }
            if mid.stored(k3, v3) {
                let (h, i) = choose|h: u64, i: int|
                    #![trigger mid.entry_at(h, i)]
                    mid.valid_pos(h, i) && mid.entry_at(h, i) == (k3, v3);
                assert(self.valid_pos(h, i) && self.entry_at(h, i) == (k3, v3));
            }
        }
    }

    /// When the interned probe is missing from its hash slot, no stored
    /// entry matches the probe.
    proof fn lemma_none_found(&self, mid: ApproxHashMap<K, V>, probe: K, k: K, h: u64)
        requires
            self.wf(),
            forall|k3: K, v3: V| self.stored(k3, v3) == mid.stored(k3, v3),
            mid.wf(),
            self.pool == mid.pool,
            k.same_shape(&probe),
            h == key_hash(k),
            mid.map@.contains_key(h) ==> forall|j: int|
                0 <= j < mid.map@[h]@.len() ==> !ieq((#[trigger] mid.map@[h]@[j]).0, k),
        ensures
            forall|k3: K, v3: V|
                mid.stored(k3, v3) ==> !(k3.same_shape(&probe) && k3.floats() == k.floats()),
    {
        assert forall|k3: K, v3: V| #[trigger] mid.stored(k3, v3) implies !(k3.same_shape(&probe)
            && k3.floats() == k.floats()) by {
            if k3.same_shape(&probe) && k3.floats() == k.floats() {
                let (h3, i3) = choose|h3: u64, i3: int|
                    #![trigger mid.entry_at(h3, i3)]
                    mid.valid_pos(h3, i3) && mid.entry_at(h3, i3) == (k3, v3);
                k.shape_sym(&probe);
                k3.shape_trans(&probe, &k);
                k3.tokens_agree(&k);
                assert(self.valid_pos(h3, i3) || true);
                assert(key_hash(k3) == key_hash(k));
                assert(mid.entry_at(h3, i3).0 == k3);
                assert(h3 == h);
                assert(ieq(mid.map@[h]@[i3].0, k));
                assert(false);
            }
        }
    }

    /// Removing one entry (dropping its slot when it was alone, otherwise
    /// swap-removing it) keeps every invariant, deletes exactly that entry
    /// from the stored relation, and shrinks the count by one.
    #[verifier::rlimit(100)]
    proof fn lemma_after_remove(&self, mid: ApproxHashMap<K, V>, h: u64, i: int, l0: Seq<(K, V)>)
        requires
            mid.wf(),
            mid.valid_pos(h, i),
            mid.map@[h]@ == l0,
            self.pool == mid.pool,
            self.len + 1 == mid.len,
            l0.len() == 1 ==> !self.map@.contains_key(h) && self.map@.dom() == mid.map@.dom().remove(
                h,
            ) && i == 0,
            l0.len() > 1 ==> self.map@.contains_key(h) && self.map@.dom() == mid.map@.dom()
                && self.map@[h]@ == l0.update(i, l0.last()).drop_last(),
            forall|h3: u64|
                h3 != h && self.map@.contains_key(h3) ==> self.map@[h3] == mid.map@[h3],
        ensures
            self.wf(),
            self.spec_len() + 1 == mid.spec_len(),
            forall|k3: K, v3: V|
                self.stored(k3, v3) == (mid.stored(k3, v3) && !(k3 == mid.entry_at(h, i).0 && v3
                    == mid.entry_at(h, i).1)),
    {
        let p = mid.entry_at(h, i);
        let last = l0.len() as int - 1;
        assert forall|h3: u64, i3: int| #[trigger] self.valid_pos(h3, i3) implies mid.valid_pos(
            h3,
            i3,
        ) && (h3 != h ==> self.entry_at(h3, i3) == mid.entry_at(h3, i3)) && (h3 == h ==> i3 < last
            && (i3 == i ==> self.entry_at(h3, i3) == mid.entry_at(h, last)) && (i3 != i
            ==> self.entry_at(h3, i3) == mid.entry_at(h3, i3))) by {}
        assert forall|h3: u64, i3: int| mid.valid_pos(h3, i3) && (h3, i3) != (h, last) implies
            self.valid_pos(h3, i3) by {}
        assert(self.positions() =~= mid.positions().remove((h, last)));
        assert(mid.positions().contains((h, last)));
        axiom_set_remove_len(mid.positions(), (h, last));
        assert forall|h3: u64, i3: int|
            #![trigger self.entry_at(h3, i3)]
            self.valid_pos(h3, i3) implies key_hash(self.entry_at(h3, i3).0) == h3 by {
            if h3 == h && i3 == i {
                assert(self.entry_at(h3, i3) == mid.entry_at(h, last));
            } else {
                assert(self.entry_at(h3, i3) == mid.entry_at(h3, i3));
            }
        }
        assert forall|h3: u64, i3: int, j3: int|
            #![trigger self.entry_at(h3, i3), self.entry_at(h3, j3)]
            self.valid_pos(h3, i3) && self.valid_pos(h3, j3) && i3 != j3 implies !ieq(
            self.entry_at(h3, i3).0,
            self.entry_at(h3, j3).0,
        ) by {
            if h3 == h {
                if i3 == i {
                    assert(self.entry_at(h3, i3) == mid.entry_at(h, last));
                    assert(self.entry_at(h3, j3) == mid.entry_at(h3, j3));
                    assert(j3 != last);
                } else if j3 == i {
                    assert(self.entry_at(h3, j3) == mid.entry_at(h, last));
                    assert(self.entry_at(h3, i3) == mid.entry_at(h3, i3));
                    assert(i3 != last);
                } else {
                    assert(self.entry_at(h3, i3) == mid.entry_at(h3, i3));
                    assert(self.entry_at(h3, j3) == mid.entry_at(h3, j3));
                }
            } else {
                assert(self.entry_at(h3, i3) == mid.entry_at(h3, i3));
                assert(self.entry_at(h3, j3) == mid.entry_at(h3, j3));
            }
        }
        assert forall|k3: K, v3: V| #[trigger] self.stored(k3, v3) implies (mid.stored(k3, v3)
            && !(k3 == p.0 && v3 == p.1)) by {
            let (h3, i3) = choose|h3: u64, i3: int|
                #![trigger self.entry_at(h3, i3)]
                self.valid_pos(h3, i3) && self.entry_at(h3, i3) == (k3, v3);
            let (hm, im) = if h3 == h && i3 == i {
                (h, last)
            } else {
                (h3, i3)
            };
            assert(mid.valid_pos(hm, im) && mid.entry_at(hm, im) == (k3, v3));
            if k3 == p.0 && v3 == p.1 {
                if (hm, im) == (h, i) {
                    assert(false);
                } else {
                    p.0.shape_refl();
                    assert(ieq(mid.entry_at(hm, im).0, mid.entry_at(h, i).0));
                    assert(key_hash(mid.entry_at(hm, im).0) == hm);
                    assert(key_hash(mid.entry_at(h, i).0) == h);
                    assert(hm == h);
                    assert(false);
                }
            }
        }
        assert forall|k3: K, v3: V| (mid.stored(k3, v3) && !(k3 == p.0 && v3 == p.1)) implies
            #[trigger] self.stored(k3, v3) by {
            let (h3, i3) = choose|h3: u64, i3: int|
                #![trigger mid.entry_at(h3, i3)]
                mid.valid_pos(h3, i3) && mid.entry_at(h3, i3) == (k3, v3);
            if (h3, i3) == (h, i) {
                assert(false);
            } else if (h3, i3) == (h, last) {
                assert(i != last);
                assert(self.valid_pos(h, i) && self.entry_at(h, i) == (k3, v3));
            } else {
                assert(self.valid_pos(h3, i3) && self.entry_at(h3, i3) == (k3, v3));
            }
        }
    }
}


impl<K: ApproxHash, V> ApproxHashMap<K, V> {
    /// At most one stored entry can answer a probe: approximately equal
    /// keys always land on the same stored entry.  Together with the
    /// contracts of `insert` and `get`, this pins a lookup that follows an
    /// insert down to the pair the insert stored.
    pub proof fn lemma_answers_unique(&self, probe: K, k1: K, v1: V, k2: K, v2: V)
        requires
            self.wf(),
            self.stored(k1, v1),
            self.stored(k2, v2),
            self.answers(probe, k1),
            self.answers(probe, k2),
        ensures
            k1 == k2,
            v1 == v2,
    {
        let (h1, i1) = choose|h1: u64, i1: int|
            #![trigger self.entry_at(h1, i1)]
            self.valid_pos(h1, i1) && self.entry_at(h1, i1) == (k1, v1);
        let (h2, i2) = choose|h2: u64, i2: int|
            #![trigger self.entry_at(h2, i2)]
            self.valid_pos(h2, i2) && self.entry_at(h2, i2) == (k2, v2);
        k1.shape_sym(&probe);
        k2.shape_trans(&probe, &k1);
        k2.tokens_agree(&k1);
        assert(key_hash(k1) == h1 && key_hash(k2) == h2);
        assert(h1 == h2);
        if i1 != i2 {
            assert(!ieq(self.entry_at(h1, i1).0, self.entry_at(h1, i2).0));
            k2.shape_sym(&k1);
            assert(false);
        }
    }
}




impl<K: ApproxHash, V> ApproxHashMap<K, V> {
    /// Ensures the key has an entry: when no stored entry is post-intern
    /// equal to the interned key, inserts the pair and reports `true`;
    /// otherwise leaves the map unchanged (beyond interning the key) and
    /// reports `false`.
    ///
    /// This is the handle-free shape of "insert if absent": the key is
    /// interned once, and the stored key is that interned form.
    #[verifier::rlimit(100)]
    pub fn insert_if_absent(&mut self, key: K, value: V) -> (inserted: bool)
        requires
            old(self).wf(),
            old(self).spec_len() < usize::MAX,
        ensures
            final(self).wf(),
            final(self).spec_prec() == old(self).spec_prec(),
            final(self).pool_model() == intern_seq_map(
                old(self).pool_model(),
                old(self).spec_prec(),
                key.floats(),
            ),
            !inserted ==> final(self).spec_len() == old(self).spec_len() && forall|k3: K, v3: V|
                final(self).stored(k3, v3) == old(self).stored(k3, v3),
            inserted ==> final(self).spec_len() == old(self).spec_len() + 1,
            inserted ==> exists|k2: K|
                #![trigger k2.same_shape(&key)]
                {
                    &&& k2.same_shape(&key)
                    &&& k2.floats() == old(self).interned_floats(key)
                    &&& forall|k3: K, v3: V|
                        final(self).stored(k3, v3) == (old(self).stored(k3, v3) || (k3 == k2 && v3
                            == value))
                },
            inserted == !(exists|k3: K, v3: V|
                #![trigger old(self).stored(k3, v3)]
                old(self).stored(k3, v3) && k3.same_shape(&key) && k3.floats() == old(
                    self,
                ).interned_floats(key)),
    {
        let ghost kf = intern_seq_vals(old(self).pool_model(), old(self).spec_prec(), key.floats());
        let mut k = key;
        self.pool.intern_in_place(&mut k);
        proof {
            self.lemma_wf_after_pool_growth(
                *old(self),
                old(self).pool_model(),
                old(self).spec_prec(),
                key.floats(),
            );
        }
        let ghost mid = *self;
        let h: u64 = hash_key(&k);
        let list_opt = self.map.remove(&h);
        match list_opt {
            Some(mut list) => {
                proof {
                    assert(mid.map@.contains_key(h) && mid.map@[h] == list);
                }
                match scan(&list, &k) {
                    Some(i) => {
                        let ghost k_old = mid.map@[h]@[i as int].0;
                        let ghost v_old = mid.map@[h]@[i as int].1;
                        self.map.insert(h, list);
                        proof {
                            assert(self.map@ =~= mid.map@);
                            self.lemma_table_unchanged(mid);
                            assert(mid.entry_at(h, i as int) == (k_old, v_old));
                            assert(mid.stored(k_old, v_old));
                            assert(old(self).stored(k_old, v_old));
                            assert(ieq(k_old, k));
                            k_old.shape_trans(&k, &key);
                            assert(k_old.floats() == kf);
                            assert forall|k3: K, v3: V| self.stored(k3, v3) == old(self).stored(
                                k3,
                                v3,
                            ) by {
                                assert(mid.stored(k3, v3) == old(self).stored(k3, v3));
                            }
                        }
                        false
                    },
                    None => {
                        let ghost l0 = mid.map@[h]@;
                        list.push((k, value));
                        self.map.insert(h, list);
                        self.len = self.len + 1;
                        proof {
                            assert(self.map@.dom() =~= mid.map@.dom().insert(h));
                            self.lemma_after_push(mid, h, l0, k, value, key);
                            assert(k.floats() == kf);
                            assert(self.stored(k, value));
                            assert forall|k3: K, v3: V| self.stored(k3, v3) == (old(self).stored(
                                k3,
                                v3,
                            ) || (k3 == k && v3 == value)) by {
                                assert(mid.stored(k3, v3) == old(self).stored(k3, v3));
                            }
                            assert forall|k3: K, v3: V| old(self).stored(k3, v3) implies !(
                            k3.same_shape(&key) && k3.floats() == kf) by {
                                assert(mid.stored(k3, v3) == old(self).stored(k3, v3));
                            }
                        }
                        true
                    },
                }
            },
            None => {
                let mut list: Vec<(K, V)> = Vec::new();
                list.push((k, value));
                self.map.insert(h, list);
                self.len = self.len + 1;
                proof {
                    assert(self.map@.dom() =~= mid.map@.dom().insert(h));
                    assert(list@ =~= Seq::<(K, V)>::empty().push((k, value)));
                    self.lemma_after_push(mid, h, Seq::empty(), k, value, key);
                    assert(k.floats() == kf);
                    assert(self.stored(k, value));
                    assert forall|k3: K, v3: V| self.stored(k3, v3) == (old(self).stored(k3, v3)
                        || (k3 == k && v3 == value)) by {
                        assert(mid.stored(k3, v3) == old(self).stored(k3, v3));
                    }
                    assert forall|k3: K, v3: V| old(self).stored(k3, v3) implies !(k3.same_shape(
                        &key,
                    ) && k3.floats() == kf) by {
                        assert(mid.stored(k3, v3) == old(self).stored(k3, v3));
                    }
                }
                true
            },
        }
    }

    /// Applies `f` to the value of the entry the key resolves to, in place,
    /// and reports whether such an entry existed.  The key is interned
    /// first, so the pool may grow either way; no entry is ever created.
    #[verifier::rlimit(100)]
    pub fn and_modify<F: FnOnce(V) -> V>(&mut self, key: K, f: F) -> (found: bool)
        requires
            old(self).wf(),
            forall|v: V| #[trigger] call_requires(f, (v,)),
        ensures
            final(self).wf(),
            final(self).spec_prec() == old(self).spec_prec(),
            final(self).spec_len() == old(self).spec_len(),
            final(self).pool_model() == intern_seq_map(
                old(self).pool_model(),
                old(self).spec_prec(),
                key.floats(),
            ),
            !found ==> forall|k3: K, v3: V|
                final(self).stored(k3, v3) == old(self).stored(k3, v3),
            found ==> exists|k2: K, v2: V, vn: V|
                #![trigger k2.same_shape(&key), call_ensures(f, (v2,), vn)]
                {
                    &&& old(self).stored(k2, v2)
                    &&& k2.same_shape(&key)
                    &&& k2.floats() == old(self).interned_floats(key)
                    &&& call_ensures(f, (v2,), vn)
                    &&& forall|k3: K, v3: V|
                        final(self).stored(k3, v3) == ((old(self).stored(k3, v3) && !(k3 == k2
                            && v3 == v2)) || (k3 == k2 && v3 == vn))
                },
            found == (exists|k3: K, v3: V|
                #![trigger old(self).stored(k3, v3)]
                old(self).stored(k3, v3) && k3.same_shape(&key) && k3.floats() == old(
                    self,
                ).interned_floats(key)),
    {
        let ghost kf = intern_seq_vals(old(self).pool_model(), old(self).spec_prec(), key.floats());
        let mut k = key;
        self.pool.intern_in_place(&mut k);
        proof {
            self.lemma_wf_after_pool_growth(
                *old(self),
                old(self).pool_model(),
                old(self).spec_prec(),
                key.floats(),
            );
        }
        let ghost mid = *self;
        let h: u64 = hash_key(&k);
        let list_opt = self.map.remove(&h);
        match list_opt {
            Some(mut list) => {
                proof {
                    assert(mid.map@.contains_key(h) && mid.map@[h] == list);
                }
                match scan(&list, &k) {
                    Some(i) => {
                        let (k_old, v_old) = list.remove(i);
                        let ghost l0 = mid.map@[h]@;
                        let ghost v_old_g = v_old;
                        let v_new = f(v_old);
                        list.insert(i, (k_old, v_new));
                        proof {
                            assert(list@ =~= l0.update(i as int, (l0[i as int].0, list@[i as int].1)));
                        }
                        self.map.insert(h, list);
                        proof {
                            assert(self.map@.dom() =~= mid.map@.dom());
                            self.lemma_after_replace(mid, h, i as int, self.map@[h]@[i as int].1);
                            assert(mid.entry_at(h, i as int) == (k_old, v_old_g));
                            assert(mid.stored(k_old, v_old_g));
                            assert(old(self).stored(k_old, v_old_g));
                            assert(ieq(k_old, k));
                            k_old.shape_trans(&k, &key);
                            assert(k_old.floats() == kf);
                            assert forall|k3: K, v3: V| self.stored(k3, v3) == ((old(
                                self,
                            ).stored(k3, v3) && !(k3 == k_old && v3 == v_old_g)) || (k3 == k_old
                                && v3 == self.map@[h]@[i as int].1)) by {
                                assert(mid.stored(k3, v3) == old(self).stored(k3, v3));
                            }
                        }
                        true
                    },
                    None => {
                        self.map.insert(h, list);
                        proof {
                            assert(self.map@ =~= mid.map@);
                            self.lemma_table_unchanged(mid);
                            self.lemma_none_found(mid, key, k, h);
                            assert forall|k3: K, v3: V| self.stored(k3, v3) == old(self).stored(
                                k3,
                                v3,
                            ) by {
                                assert(mid.stored(k3, v3) == old(self).stored(k3, v3));
                            }
                            assert forall|k3: K, v3: V| old(self).stored(k3, v3) implies !(
                            k3.same_shape(&key) && k3.floats() == kf) by {
                                assert(mid.stored(k3, v3) == old(self).stored(k3, v3));
                            }
                        }
                        false
                    },
                }
            },
            None => {
                proof {
                    assert(self.map@ =~= mid.map@);
                    self.lemma_table_unchanged(mid);
                    self.lemma_none_found(mid, key, k, h);
                    assert forall|k3: K, v3: V| self.stored(k3, v3) == old(self).stored(
                        k3,
                        v3,
                    ) by {
                        assert(mid.stored(k3, v3) == old(self).stored(k3, v3));
                    }
                    assert forall|k3: K, v3: V| old(self).stored(k3, v3) implies !(k3.same_shape(
                        &key,
                    ) && k3.floats() == kf) by {
                        assert(mid.stored(k3, v3) == old(self).stored(k3, v3));
                    }
                }
                false
            },
        }
    }
}


impl<K: ApproxHash, V> ApproxHashMap<K, V> {
    /// Ensures the key has an entry, computing the value from the interned
    /// key only when one must be inserted: when no stored entry is
    /// post-intern equal to the interned key, `default` is applied to a
    /// borrow of that key and the pair is inserted; otherwise nothing
    /// changes beyond interning the key.  Reports whether an insertion
    /// happened.
    #[verifier::rlimit(100)]
    pub fn or_insert_with_key<F: FnOnce(&K) -> V>(&mut self, key: K, default: F) -> (inserted:
        bool)
        requires
            old(self).wf(),
            old(self).spec_len() < usize::MAX,
            forall|a: &K| #[trigger] call_requires(default, (a,)),
        ensures
            final(self).wf(),
            final(self).spec_prec() == old(self).spec_prec(),
            final(self).pool_model() == intern_seq_map(
                old(self).pool_model(),
                old(self).spec_prec(),
                key.floats(),
            ),
            !inserted ==> final(self).spec_len() == old(self).spec_len() && forall|k3: K, v3: V|
                final(self).stored(k3, v3) == old(self).stored(k3, v3),
            inserted ==> final(self).spec_len() == old(self).spec_len() + 1,
            inserted ==> exists|k2: K, v: V|
                #![trigger k2.same_shape(&key), call_ensures(default, (&k2,), v)]
                {
                    &&& k2.same_shape(&key)
                    &&& k2.floats() == old(self).interned_floats(key)
                    &&& call_ensures(default, (&k2,), v)
                    &&& forall|k3: K, v3: V|
                        final(self).stored(k3, v3) == (old(self).stored(k3, v3) || (k3 == k2 && v3
                            == v))
                },
            inserted == !(exists|k3: K, v3: V|
                #![trigger old(self).stored(k3, v3)]
                old(self).stored(k3, v3) && k3.same_shape(&key) && k3.floats() == old(
                    self,
                ).interned_floats(key)),
    {
        let ghost kf = intern_seq_vals(old(self).pool_model(), old(self).spec_prec(), key.floats());
        let mut k = key;
        self.pool.intern_in_place(&mut k);
        proof {
            self.lemma_wf_after_pool_growth(
                *old(self),
                old(self).pool_model(),
                old(self).spec_prec(),
                key.floats(),
            );
        }
        let ghost mid = *self;
        let h: u64 = hash_key(&k);
        let list_opt = self.map.remove(&h);
        match list_opt {
            Some(mut list) => {
                proof {
                    assert(mid.map@.contains_key(h) && mid.map@[h] == list);
                }
                match scan(&list, &k) {
                    Some(i) => {
                        let ghost k_old = mid.map@[h]@[i as int].0;
                        let ghost v_old = mid.map@[h]@[i as int].1;
                        self.map.insert(h, list);
                        proof {
                            assert(self.map@ =~= mid.map@);
                            self.lemma_table_unchanged(mid);
                            assert(mid.entry_at(h, i as int) == (k_old, v_old));
                            assert(mid.stored(k_old, v_old));
                            assert(old(self).stored(k_old, v_old));
                            assert(ieq(k_old, k));
                            k_old.shape_trans(&k, &key);
                            assert(k_old.floats() == kf);
                            assert forall|k3: K, v3: V| self.stored(k3, v3) == old(self).stored(
                                k3,
                                v3,
                            ) by {
                                assert(mid.stored(k3, v3) == old(self).stored(k3, v3));
                            }
                        }
                        false
                    },
                    None => {
                        let value = default(&k);
                        let ghost l0 = mid.map@[h]@;
                        list.push((k, value));
                        self.map.insert(h, list);
                        self.len = self.len + 1;
                        proof {
                            assert(self.map@.dom() =~= mid.map@.dom().insert(h));
                            self.lemma_after_push(mid, h, l0, k, value, key);
                            assert(k.floats() == kf);
                            assert(self.stored(k, value));
                            assert forall|k3: K, v3: V| self.stored(k3, v3) == (old(self).stored(
                                k3,
                                v3,
                            ) || (k3 == k && v3 == value)) by {
                                assert(mid.stored(k3, v3) == old(self).stored(k3, v3));
                            }
                            assert forall|k3: K, v3: V| old(self).stored(k3, v3) implies !(
                            k3.same_shape(&key) && k3.floats() == kf) by {
                                assert(mid.stored(k3, v3) == old(self).stored(k3, v3));
                            }
                        }
                        true
                    },
                }
            },
            None => {
                let value = default(&k);
                let mut list: Vec<(K, V)> = Vec::new();
                list.push((k, value));
                self.map.insert(h, list);
                self.len = self.len + 1;
                proof {
                    assert(self.map@.dom() =~= mid.map@.dom().insert(h));
                    assert(list@ =~= Seq::<(K, V)>::empty().push((k, value)));
                    self.lemma_after_push(mid, h, Seq::empty(), k, value, key);
                    assert(k.floats() == kf);
                    assert(self.stored(k, value));
                    assert forall|k3: K, v3: V| self.stored(k3, v3) == (old(self).stored(k3, v3)
                        || (k3 == k && v3 == value)) by {
                        assert(mid.stored(k3, v3) == old(self).stored(k3, v3));
                    }
                    assert forall|k3: K, v3: V| old(self).stored(k3, v3) implies !(k3.same_shape(
                        &key,
                    ) && k3.floats() == kf) by {
                        assert(mid.stored(k3, v3) == old(self).stored(k3, v3));
                    }
                }
                true
            },
        }
    }
}

impl<K: ApproxHash + Clone, V> ApproxHashMap<K, V> {
    /// Inserts an entry, interning the caller's key in place, and returns
    /// the value it replaced, if any.  When the entry is fresh, the stored
    /// key is a clone of the interned key.
    ///
    /// The clone-agreement precondition asks that cloning a key yields an
    /// equal key; a generic clone is otherwise opaque to the verifier, and
    /// the stored entry could not be related to the caller's key without
    /// it.
    #[verifier::rlimit(100)]
    pub fn insert_with_mut_key(&mut self, key: &mut K, value: V) -> (r: Option<V>)
        requires
            old(self).wf(),
            old(self).spec_len() < usize::MAX,
            forall|a: K, b: K| #[trigger] vstd::pervasive::cloned::<K>(a, b) ==> b == a,
        ensures
            final(self).wf(),
            final(self).spec_prec() == old(self).spec_prec(),
            final(self).pool_model() == intern_seq_map(
                old(self).pool_model(),
                old(self).spec_prec(),
                old(key).floats(),
            ),
            final(key).floats() == intern_seq_vals(
                old(self).pool_model(),
                old(self).spec_prec(),
                old(key).floats(),
            ),
            final(key).same_shape(old(key)),
            r is Some ==> final(self).spec_len() == old(self).spec_len(),
            r is None ==> final(self).spec_len() == old(self).spec_len() + 1,
            (match r {
                Some(old_v) => exists|k2: K|
                    #![trigger k2.same_shape(old(key))]
                    {
                        &&& old(self).stored(k2, old_v)
                        &&& k2.same_shape(old(key))
                        &&& k2.floats() == final(key).floats()
                        &&& forall|k3: K, v3: V|
                            final(self).stored(k3, v3) == ((old(self).stored(k3, v3) && !(k3 == k2
                                && v3 == old_v)) || (k3 == k2 && v3 == value))
                    },
                None => forall|k3: K, v3: V|
                    final(self).stored(k3, v3) == (old(self).stored(k3, v3) || (k3 == *final(key)
                        && v3 == value)),
            }),
    {
        let ghost m0 = self.pool.model();
        let ghost prec = self.pool.spec_prec();
        self.pool.intern_in_place(key);
        proof {
            self.lemma_wf_after_pool_growth(*old(self), m0, prec, old(key).floats());
        }
        let ghost mid = *self;
        let h: u64 = hash_key(key);
        let list_opt = self.map.remove(&h);
        match list_opt {
            Some(mut list) => {
                proof {
                    assert(mid.map@.contains_key(h) && mid.map@[h] == list);
                }
                match scan(&list, key) {
                    Some(i) => {
                        let (k_old, v_old) = list.remove(i);
                        let ghost l0 = mid.map@[h]@;
                        list.insert(i, (k_old, value));
                        proof {
                            assert(list@ =~= l0.update(i as int, (l0[i as int].0, value)));
                        }
                        self.map.insert(h, list);
                        proof {
                            assert(self.map@.dom() =~= mid.map@.dom());
                            self.lemma_after_replace(mid, h, i as int, value);
                            assert(mid.entry_at(h, i as int) == (k_old, v_old));
                            assert(mid.stored(k_old, v_old));
                            assert(old(self).stored(k_old, v_old));
                            assert(ieq(k_old, *key));
                            k_old.shape_trans(key, old(key));
                            assert forall|k3: K, v3: V| self.stored(k3, v3) == ((old(
                                self,
                            ).stored(k3, v3) && !(k3 == k_old && v3 == v_old)) || (k3 == k_old
                                && v3 == value)) by {
                                assert(mid.stored(k3, v3) == old(self).stored(k3, v3));
                            }
                        }
                        Some(v_old)
                    },
                    None => {
                        let kc: K = key.clone();
                        proof {
                            assert(vstd::pervasive::cloned::<K>(*key, kc));
                            assert(kc == *key);
                        }
                        let ghost l0 = mid.map@[h]@;
                        list.push((kc, value));
                        self.map.insert(h, list);
                        self.len = self.len + 1;
                        proof {
                            assert(self.map@.dom() =~= mid.map@.dom().insert(h));
                            self.lemma_after_push(mid, h, l0, kc, value, *old(key));
                            assert forall|k3: K, v3: V| self.stored(k3, v3) == (old(self).stored(
                                k3,
                                v3,
                            ) || (k3 == *key && v3 == value)) by {
                                assert(mid.stored(k3, v3) == old(self).stored(k3, v3));
                            }
                        }
                        None
                    },
                }
            },
            None => {
                let kc: K = key.clone();
                proof {
                    assert(vstd::pervasive::cloned::<K>(*key, kc));
                    assert(kc == *key);
                }
                let mut list: Vec<(K, V)> = Vec::new();
                list.push((kc, value));
                self.map.insert(h, list);
                self.len = self.len + 1;
                proof {
                    assert(self.map@.dom() =~= mid.map@.dom().insert(h));
                    assert(list@ =~= Seq::<(K, V)>::empty().push((kc, value)));
                    self.lemma_after_push(mid, h, Seq::empty(), kc, value, *old(key));
                    assert forall|k3: K, v3: V| self.stored(k3, v3) == (old(self).stored(k3, v3)
                        || (k3 == *key && v3 == value)) by {
                        assert(mid.stored(k3, v3) == old(self).stored(k3, v3));
                    }
                }
                None
            },
        }
    }
}


impl<K: ApproxHash, V> ApproxHashMap<K, V> {
    /// Returns a mutable reference to the value of the entry the key
    /// resolves to, or nothing when it is not present.  The key is
    /// interned through the mutating path, so the pool may grow either
    /// way; writing through the returned reference replaces that entry's
    /// value and nothing else.
    #[verifier::rlimit(100)]
    pub fn get_mut(&mut self, key: K) -> (r: Option<&mut V>)
        requires
            old(self).wf(),
        ensures
            final(self).wf(),
            final(self).spec_prec() == old(self).spec_prec(),
            final(self).spec_len() == old(self).spec_len(),
            final(self).pool_model() == intern_seq_map(
                old(self).pool_model(),
                old(self).spec_prec(),
                key.floats(),
            ),
            r is None ==> forall|k3: K, v3: V|
                old(self).stored(k3, v3) ==> !(k3.same_shape(&key) && k3.floats() == old(
                    self,
                ).interned_floats(key)),
            r is None ==> forall|k3: K, v3: V|
                final(self).stored(k3, v3) == old(self).stored(k3, v3),
            (match r {
                Some(v) => exists|k2: K|
                    #![trigger k2.same_shape(&key)]
                    {
                        &&& old(self).stored(k2, *v)
                        &&& k2.same_shape(&key)
                        &&& k2.floats() == old(self).interned_floats(key)
                        &&& forall|k3: K, v3: V|
                            final(self).stored(k3, v3) == ((old(self).stored(k3, v3) && !(k3 == k2
                                && v3 == *v)) || (k3 == k2 && v3 == *final(v)))
                    },
                None => true,
            }),
    {
        let mut k = key;
        self.pool.intern_in_place(&mut k);
        proof {
            self.lemma_wf_after_pool_growth(
                *old(self),
                old(self).pool_model(),
                old(self).spec_prec(),
                key.floats(),
            );
        }
        let ghost mid = *self;
        let h: u64 = hash_key(&k);
        let idx: Option<usize> = match self.map.get(&h) {
            Some(list) => scan(list, &k),
            None => None,
        };
        match idx {
            None => {
                proof {
                    self.lemma_none_found(mid, key, k, h);
                    assert(k.floats() == old(self).interned_floats(key));
                    assert forall|k3: K, v3: V| self.stored(k3, v3) == old(self).stored(
                        k3,
                        v3,
                    ) by {
                        assert(mid.stored(k3, v3) == old(self).stored(k3, v3));
                    }
                    assert forall|k3: K, v3: V| old(self).stored(k3, v3) implies !(k3.same_shape(
                        &key,
                    ) && k3.floats() == old(self).interned_floats(key)) by {
                        assert(mid.stored(k3, v3) == old(self).stored(k3, v3));
                    }
                }
                None
            },
            Some(i) => {
                let ghost k2g = mid.map@[h]@[i as int].0;
                let ghost v2g = mid.map@[h]@[i as int].1;
                proof {
                    assert(mid.valid_pos(h, i as int));
                    assert(mid.entry_at(h, i as int) == (k2g, v2g));
                    assert(mid.stored(k2g, v2g));
                    assert(old(self).stored(k2g, v2g));
                    assert(ieq(k2g, k));
                    k2g.shape_trans(&k, &key);
                    assert forall|s: ApproxHashMap<K, V>, lv: Vec<(K, V)>, pv: (K, V)|
                        #![trigger s.map@, mid.map@.insert(h, lv), mid.map@[h]@.update(i as int, pv)]
                        {
                            &&& s.pool == mid.pool
                            &&& s.len == mid.len
                            &&& s.map@ == mid.map@.insert(h, lv)
                            &&& pv.0 == k2g
                            &&& lv@ == mid.map@[h]@.update(i as int, pv)
                        } implies s.wf() && s.spec_len() == mid.spec_len() && (exists|k2: K|
                        #![trigger k2.same_shape(&key)]
                        {
                            &&& old(self).stored(k2, v2g)
                            &&& k2.same_shape(&key)
                            &&& k2.floats() == old(self).interned_floats(key)
                            &&& forall|k3: K, v3: V|
                                s.stored(k3, v3) == ((old(self).stored(k3, v3) && !(k3 == k2 && v3
                                    == v2g)) || (k3 == k2 && v3 == pv.1))
                        }) by {
                        assert(s.map@.dom() =~= mid.map@.dom());
                        assert(s.map@.contains_key(h) && s.map@[h] == lv);
                        s.lemma_after_replace(mid, h, i as int, pv.1);
                        assert forall|k3: K, v3: V| s.stored(k3, v3) == ((old(self).stored(
                            k3,
                            v3,
                        ) && !(k3 == k2g && v3 == v2g)) || (k3 == k2g && v3 == pv.1)) by {
                            assert(mid.stored(k3, v3) == old(self).stored(k3, v3));
                        }
                        assert(k2g.same_shape(&key) && k2g.floats() == old(self).interned_floats(
                            key,
                        ) && old(self).stored(k2g, v2g));
                    }
                }
                let r = value_mut_at(&mut self.map, h, i);
                Some(r)
            },
        }
    }
}


/// Hands out a mutable borrow of the value stored at one position of the
/// outer table, pinning how the table looks after the borrow ends.
fn value_mut_at<K, V>(m: &mut HashMap<u64, Vec<(K, V)>>, h: u64, i: usize) -> (r: &mut V)
    requires
        old(m)@.contains_key(h),
        i < old(m)@[h]@.len(),
    ensures
        *r == old(m)@[h]@[i as int].1,
        exists|lv: Vec<(K, V)>|
            #![trigger old(m)@.insert(h, lv)]
            final(m)@ == old(m)@.insert(h, lv) && lv@ == old(m)@[h]@.update(
                i as int,
                (old(m)@[h]@[i as int].0, *final(r)),
            ),
{
    match m.entry(h) {
        std::collections::hash_map::Entry::Occupied(e) => {
            let list: &mut Vec<(K, V)> = e.into_mut();
            let p: &mut (K, V) = &mut list[i];
            &mut p.1
        },
        std::collections::hash_map::Entry::Vacant(_) => {
            proof {
                assert(false);
            }
            vstd::pervasive::unreached()
        },
    }
}


impl<K: ApproxHash, V> ApproxHashMap<K, V> {
    /// Constructs a map from a sequence of key-value pairs, inserting them
    /// in order.  When several pairs carry approximately equal keys, all
    /// but one of their values are dropped (the last one wins), so the map
    /// holds at most as many entries as pairs were given, and every given
    /// key has a stored entry of its shape.
    #[verifier::rlimit(100)]
    pub fn from_pairs(prec: Precision, pairs: Vec<(K, V)>) -> (r: ApproxHashMap<K, V>)
        ensures
            r.wf(),
            r.spec_prec() == prec,
            r.spec_len() <= pairs@.len(),
            pairs@.len() == 0 ==> r.spec_len() == 0,
            forall|j: int| 0 <= j < pairs@.len() ==> #[trigger] r.has_key_shaped(pairs@[j].0),
    {
        let ghost p0 = pairs@;
        let mut ps = pairs;
        let total: usize = ps.len();
        let mut m: ApproxHashMap<K, V> = ApproxHashMap::new(prec);
        let mut i: usize = 0;
        while ps.len() > 0
            invariant
                m.wf(),
                m.spec_prec() == prec,
                total == p0.len(),
                i + ps@.len() == p0.len(),
                ps@ == p0.skip(i as int),
                m.spec_len() <= i,
                forall|j: int| 0 <= j < i ==> #[trigger] m.has_key_shaped(p0[j].0),
            decreases ps@.len(),
        {
            let ghost mpre = m;
            let (k, v) = ps.remove(0);
            proof {
                assert(k == p0[i as int].0 && v == p0[i as int].1);
                assert(ps@ =~= p0.skip(i as int + 1));
            }
            let r0 = m.insert(k, v);
            proof {
                assert forall|j: int| 0 <= j < i + 1 implies #[trigger] m.has_key_shaped(
                    p0[j].0,
                ) by {
                    if j == i {
                        match r0 {
                            Some(ov) => {
                                let k2 = choose|k2: K|
                                    #![trigger k2.same_shape(&p0[i as int].0)]
                                    {
                                        &&& mpre.stored(k2, ov)
                                        &&& k2.same_shape(&p0[i as int].0)
                                        &&& k2.floats() == mpre.interned_floats(p0[i as int].0)
                                        &&& forall|k3: K, v3: V|
                                            m.stored(k3, v3) == ((mpre.stored(k3, v3) && !(k3
                                                == k2 && v3 == ov)) || (k3 == k2 && v3
                                                == p0[i as int].1))
                                    };
                                assert(m.stored(k2, p0[i as int].1));
                            },
                            None => {
                                let k2 = choose|k2: K|
                                    #![trigger k2.same_shape(&p0[i as int].0)]
                                    {
                                        &&& k2.same_shape(&p0[i as int].0)
                                        &&& k2.floats() == mpre.interned_floats(p0[i as int].0)
                                        &&& forall|k3: K, v3: V|
                                            m.stored(k3, v3) == (mpre.stored(k3, v3) || (k3 == k2
                                                && v3 == p0[i as int].1))
                                    };
                                assert(m.stored(k2, p0[i as int].1));
                            },
                        }
                    } else {
                        assert(mpre.has_key_shaped(p0[j].0));
                        let (k2, v2) = choose|k2: K, v2: V|
                            #![trigger mpre.stored(k2, v2)]
                            mpre.stored(k2, v2) && k2.same_shape(&p0[j].0);
                        match r0 {
                            Some(ov) => {
                                let kr = choose|kr: K|
                                    #![trigger kr.same_shape(&p0[i as int].0)]
                                    {
                                        &&& mpre.stored(kr, ov)
                                        &&& kr.same_shape(&p0[i as int].0)
                                        &&& kr.floats() == mpre.interned_floats(p0[i as int].0)
                                        &&& forall|k3: K, v3: V|
                                            m.stored(k3, v3) == ((mpre.stored(k3, v3) && !(k3
                                                == kr && v3 == ov)) || (k3 == kr && v3
                                                == p0[i as int].1))
                                    };
                                if k2 == kr && v2 == ov {
                                    assert(m.stored(kr, p0[i as int].1));
                                } else {
                                    assert(m.stored(k2, v2));
                                }
                            },
                            None => {
                                assert(m.stored(k2, v2));
                            },
                        }
                    }
                }
            }
            i = i + 1;
        }
        proof {
            assert(ps@.len() == 0 && i == p0.len());
            assert forall|j: int| 0 <= j < p0.len() implies #[trigger] m.has_key_shaped(
                pairs@[j].0,
            ) by {
                assert(p0[j] == pairs@[j]);
                assert(m.has_key_shaped(p0[j].0));
            }
        }
        m
    }
}



impl<K: ApproxHash, V> ApproxHashMap<K, V> {
    /// Returns borrows of all stored key-value pairs, in an unspecified
    /// order: every listed position is a stored pair, and everything the
    /// map stores appears at some position.
    #[verifier::rlimit(100)]
    pub fn to_pairs(&self) -> (r: Vec<(&K, &V)>)
        requires
            self.wf(),
        ensures
            forall|q: int|
                0 <= q < r@.len() ==> self.stored(*(#[trigger] r@[q]).0, *r@[q].1),
            forall|k: K, v: V|
                #[trigger] self.stored(k, v) ==> exists|q: int|
                    #![trigger r@[q]]
                    0 <= q < r@.len() && *r@[q].0 == k && *r@[q].1 == v,
    {
        let ghost mm = self.map@;
        let ghost sq = vstd::std_specs::hash::spec_hash_map_iter(&self.map).remaining();
        let ghost mut processed: int = 0;
        let ghost mut srcs: Seq<(u64, int)> = Seq::empty();
        let mut r: Vec<(&K, &V)> = Vec::new();
        for pair in it: self.map.iter()
            invariant
                mm == self.map@,
                it.seq() == sq,
                processed == it.index(),
                forall|j: int|
                    #![trigger sq[j]]
                    0 <= j < sq.len() ==> mm.contains_key(*sq[j].0) && mm[*sq[j].0] == *sq[j].1,
                forall|b: u64| #[trigger] mm.contains_key(b) ==> sq.contains((&b, &mm[b])),
                srcs.len() == r@.len(),
                forall|q: int|
                    #![trigger srcs[q]]
                    0 <= q < srcs.len() ==> self.valid_pos(srcs[q].0, srcs[q].1)
                        && self.entry_at(srcs[q].0, srcs[q].1).0 == *r@[q].0 && self.entry_at(
                        srcs[q].0,
                        srcs[q].1,
                    ).1 == *r@[q].1,
                forall|j: int, i2: int|
                    #![trigger sq[j], srcs.contains((*sq[j].0, i2))]
                    0 <= j < processed && 0 <= i2 < (*sq[j].1)@.len() ==> srcs.contains(
                        (*sq[j].0, i2),
                    ),
        {
            proof {
                assert(sq[processed] == pair);
            }
            let ghost h = *pair.0;
            let list: &Vec<(K, V)> = pair.1;
            let n: usize = list.len();
            let mut i: usize = 0;
            while i < n
                invariant
                    n == list@.len(),
                    i <= n,
                    mm.contains_key(h) && mm[h] == *list,
                    mm == self.map@,
                    srcs.len() == r@.len(),
                    forall|q: int|
                        #![trigger srcs[q]]
                        0 <= q < srcs.len() ==> self.valid_pos(srcs[q].0, srcs[q].1)
                            && self.entry_at(srcs[q].0, srcs[q].1).0 == *r@[q].0
                            && self.entry_at(srcs[q].0, srcs[q].1).1 == *r@[q].1,
                    forall|j: int, i2: int|
                        #![trigger sq[j], srcs.contains((*sq[j].0, i2))]
                        0 <= j < processed && 0 <= i2 < (*sq[j].1)@.len() ==> srcs.contains(
                            (*sq[j].0, i2),
                        ),
                    forall|i2: int|
                        0 <= i2 < i ==> #[trigger] srcs.contains((h, i2)),
                decreases n - i,
            {
                let ghost srcs_pre = srcs;
                let p: &(K, V) = &list[i];
                r.push((&p.0, &p.1));
                proof {
                    broadcast use vstd::seq_lib::group_seq_properties;

                    srcs = srcs.push((h, i as int));
                    assert(self.valid_pos(h, i as int));
                    assert(self.entry_at(h, i as int) == list@[i as int]);
                    assert(srcs[srcs.len() - 1] == (h, i as int));
                    assert forall|j: int, i2: int|
                        0 <= j < processed && 0 <= i2 < (*(#[trigger] sq[j]).1)@.len() implies
                        #[trigger] srcs.contains((*sq[j].0, i2)) by {
                        assert(srcs_pre.contains((*sq[j].0, i2)));
                    }
                    assert forall|i2: int| 0 <= i2 < i + 1 implies #[trigger] srcs.contains(
                        (h, i2),
                    ) by {
                        if i2 < i {
                            assert(srcs_pre.contains((h, i2)));
                        } else {
                            assert(srcs[srcs.len() - 1] == (h, i2));
                        }
                    }
                }
                i += 1;
            }
            proof {
                assert forall|j: int, i2: int|
                    0 <= j < processed + 1 && 0 <= i2 < (*(#[trigger] sq[j]).1)@.len() implies
                    #[trigger] srcs.contains((*sq[j].0, i2)) by {
                    if j == processed {
                        assert(*sq[j].0 == h && *sq[j].1 == *list);
                        assert(srcs.contains((h, i2)));
                    }
                }
                processed = processed + 1;
            }
        }
        proof {
            assert(processed == sq.len());
            assert forall|q: int| 0 <= q < r@.len() implies self.stored(
                *(#[trigger] r@[q]).0,
                *r@[q].1,
            ) by {
                let (h2, i2) = srcs[q];
                assert(self.valid_pos(h2, i2) && self.entry_at(h2, i2) == (*r@[q].0, *r@[q].1));
            }
            assert forall|k: K, v: V| #[trigger] self.stored(k, v) implies exists|q: int|
                #![trigger r@[q]]
                0 <= q < r@.len() && *r@[q].0 == k && *r@[q].1 == v by {
                let (h2, i2) = choose|h2: u64, i2: int|
                    #![trigger self.entry_at(h2, i2)]
                    self.valid_pos(h2, i2) && self.entry_at(h2, i2) == (k, v);
                assert(mm.contains_key(h2));
                assert(sq.contains((&h2, &mm[h2])));
                let j = choose|j: int| 0 <= j < sq.len() && #[trigger] sq[j] == (&h2, &mm[h2]);
                assert(srcs.contains((*sq[j].0, i2)));
                let q0 = choose|q0: int|
                    0 <= q0 < srcs.len() && #[trigger] srcs[q0] == (*sq[j].0, i2);
                assert(self.entry_at(h2, i2).0 == *r@[q0].0 && self.entry_at(h2, i2).1
                    == *r@[q0].1);
            }
        }
        r
    }
}

} // verus!
