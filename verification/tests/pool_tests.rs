use approx_collections::FloatPool;
use approx_collections::Precision;
use approx_collections::Scalar;

fn s(x: f64) -> Scalar {
    Scalar::from_bits(x.to_bits())
}

#[test]
fn test_float_interning() {
    let mut interner = FloatPool::new(Precision::absolute(3)); // bucket size = 0.125
    assert_eq!(s(1.0), interner.intern(s(1.0)));
    assert_eq!(s(1.0), interner.intern(s(1.1)));
    assert_eq!(s(2.1), interner.intern(s(2.1)));
    assert_eq!(s(2.1), interner.intern(s(1.9)));
    assert_eq!(s(0.73), interner.intern(s(0.73)));
    assert_eq!(s(0.73), interner.intern(s(0.8)));
    assert_eq!(s(0.49), interner.intern(s(0.49)));
}

#[test]
fn test_struct_float_interning() {
    let mut interner = FloatPool::new(Precision::absolute(3)); // bucket size = 0.125
    assert_eq!(
        vec![s(0.0), s(0.0), s(0.5)],
        interner.intern(vec![s(0.1), s(0.0), s(0.5)])
    );
    assert_eq!(
        vec![s(0.5), s(0.8), s(0.8)],
        interner.intern(vec![s(0.6), s(0.8), s(0.75)])
    );
}

#[test]
fn test_intern_idempotent() {
    // Interning what interning returned changes nothing: the canonical
    // value of an occupied bucket is canonical for its own bucket.
    let mut pool = FloatPool::new(Precision::absolute(3));
    for x in [1.0, 2.1, 0.73, -3.7, 0.001, 4.0 + 1e-10] {
        let once = pool.intern(s(x));
        let twice = pool.intern(once);
        assert_eq!(once, twice);
        let count = pool.bucket_count();
        let again = pool.intern(once);
        assert_eq!(once, again);
        // Re-interning an already canonical value grows nothing.
        assert_eq!(count, pool.bucket_count());
    }
}

#[test]
fn test_intern() {
    // Four distinct fresh floats, each claiming its own bucket and both
    // neighbours, on top of the seeded zero bucket: 1 + 4 * 3 = 13.
    let one = (s(16.0), 5u64);
    let two = (s(20.0), 10u64);
    let three: Option<Scalar> = None;
    let four = (55u64, s(62.0));
    let five = (s(222.0), 22u64);
    let mut pool = FloatPool::default();
    let _ = pool.intern(one);
    let _ = pool.intern(two);
    let _ = pool.intern(three);
    let _ = pool.intern(four);
    let _ = pool.intern(five);
    assert_eq!(pool.bucket_count(), 13);
}

#[test]
fn test_intern_history_dependence() {
    // Within the tolerance, both values collapse to whichever was first.
    let mut pool = FloatPool::new(Precision::absolute(3));
    assert_eq!(s(4.0), pool.intern(s(4.0)));
    assert_eq!(s(4.0), pool.intern(s(4.0 + 1e-10)));

    // Within one bucket the canonical value depends on insertion order.
    let mut first_low = FloatPool::new(Precision::absolute(3));
    assert_eq!(s(0.13), first_low.intern(s(0.13)));
    assert_eq!(s(0.13), first_low.intern(s(0.18)));

    let mut first_high = FloatPool::new(Precision::absolute(3));
    assert_eq!(s(0.18), first_high.intern(s(0.18)));
    assert_eq!(s(0.18), first_high.intern(s(0.13)));
}

#[test]
fn test_try_intern() {
    let mut pool = FloatPool::new(Precision::absolute(3));
    // Nothing near 7.0 has been interned: the non-mutating path fails and
    // the pool is left alone.
    assert_eq!(pool.try_intern(s(7.0)), None);
    assert_eq!(pool.bucket_count(), 1);
    let canon = pool.intern(s(7.0));
    assert_eq!(pool.try_intern(s(7.01)), Some(canon));
    // A partially resolvable composite is rejected whole.
    assert_eq!(pool.try_intern(vec![s(7.0), s(100.0)]), None);
}

#[test]
fn test_zero_seeded() {
    let mut pool = FloatPool::new(Precision::absolute(3));
    assert_eq!(pool.bucket_count(), 1);
    assert_eq!(s(0.0), pool.intern(s(0.0)));
    assert_eq!(pool.bucket_count(), 1);
    // A tiny value lands in the seeded zero band and interns to exact zero.
    assert_eq!(s(0.0), pool.intern(s(1e-12)));
    assert_eq!(pool.prec(), Precision::absolute(3));
}

#[test]
fn test_neighbor_overwrite() {
    // A fresh registration claims both neighbour buckets even when one is
    // occupied: 0.15 rebinds the seeded zero bucket, so values in the band
    // astride zero intern to 0.15 afterwards.
    let mut pool = FloatPool::new(Precision::absolute(3));
    assert_eq!(s(0.15), pool.intern(s(0.15)));
    assert_eq!(s(0.15), pool.intern(s(0.05)));

    let mut fresh = FloatPool::new(Precision::absolute(3));
    assert_eq!(s(0.0), fresh.intern(s(0.05)));
}

#[test]
fn test_canonical_values() {
    let mut pool = FloatPool::new(Precision::absolute(3));
    let mut vs = pool.canonical_values();
    assert_eq!(vs, vec![0u64]);
    assert_eq!(s(1.0), pool.intern(s(1.0)));
    assert_eq!(s(1.0), pool.intern(s(1.1)));
    vs = pool.canonical_values();
    // Two distinct canonical values, each listed once, in some order.
    assert_eq!(vs.len(), 2);
    assert!(vs.contains(&0u64));
    assert!(vs.contains(&1.0f64.to_bits()));
}
