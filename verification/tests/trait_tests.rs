use core::cmp::Ordering;
use approx_collections::ApproxCmpZero;
use approx_collections::ApproxEq;
use approx_collections::ApproxEqZero;
use approx_collections::ApproxHash;
use approx_collections::ApproxInternable;
use approx_collections::ApproxOrd;
use approx_collections::FloatPool;
use approx_collections::HashState;
use approx_collections::Precision;
use approx_collections::Scalar;

fn s(x: f64) -> Scalar {
    Scalar::from_bits(x.to_bits())
}

fn w(x: f32) -> Scalar {
    Scalar::from_bits((x as f64).to_bits())
}

#[test]
fn test_structural_equality() {
    let prec = Precision::default();
    let c1 = (s(5.0), s(4.0));
    let c2 = (s(4.0), s(5.0));
    assert!(c1.approx_eq(&c1, prec));
    assert!(!c1.approx_eq(&c2, prec));

    // Values with differing active variants are never equal, even when the
    // payloads match; unit-like values of the same kind always are.
    let some_five: Option<Scalar> = Some(s(5.0));
    let none: Option<Scalar> = None;
    assert!(!some_five.approx_eq(&none, prec));
    assert!(!none.approx_eq(&some_five, prec));
    assert!(none.approx_eq(&None, prec));
    assert!(some_five.approx_eq(&Some(s(5.0)), prec));
}

#[test]
fn test_scalar_tolerance() {
    let precise = Precision::default();
    let rough = Precision::new_simple(2);
    assert!(s(0.1 + 0.2).approx_eq(&s(0.3), precise));
    assert!(!s(5.0).approx_eq(&s(4.0), precise));
    assert!(!s(2.0).approx_eq(&s(2.001), precise));
    assert!(s(2.0).approx_eq(&s(2.001), rough));
    let nan = s(f64::NAN);
    assert!(!nan.approx_eq(&nan, precise));
}

#[test]
fn test_vector_equality() {
    let precise = Precision::default();
    let rough = Precision::new_simple(2);
    let v1 = vec![s(1.0), s(2.0), s(3.0)];
    let v2 = vec![s(1.0), s(2.001), s(3.0)];
    assert!(!v1.approx_eq(&v2, precise));
    assert!(v1.approx_eq(&v2, rough));
    // Different lengths never compare equal.
    assert!(!v1.approx_eq(&vec![s(1.0), s(2.0)], precise));
}

#[test]
fn test_approx_eq_zero() {
    let precise = Precision::default();
    let rough = Precision::new_simple(2);
    let w = vec![s(0.0), s(0.001), s(0.0)];
    assert!(!w.approx_eq_zero(precise));
    assert!(w.approx_eq_zero(rough));
    assert!(s(0.0).approx_eq_zero(precise));
    assert!(s(-0.0).approx_eq_zero(precise));
    assert!(!s(1.0).approx_eq_zero(precise));
    assert!((s(0.0), 0u64).approx_eq_zero(precise));
    assert!(!(s(0.0), 3u64).approx_eq_zero(precise));
}

#[test]
fn test_approx_cmp() {
    let prec = Precision::default();
    assert_eq!(s(3.0).approx_cmp(&s(4.0), prec), Ordering::Less);
    assert_eq!(s(4.0).approx_cmp(&s(3.0), prec), Ordering::Greater);
    assert_eq!(s(3.0).approx_cmp(&s(3.0), prec), Ordering::Equal);
    assert_eq!(s(-1.0).approx_cmp(&s(1.0), prec), Ordering::Less);
    // Within the tolerance the ordering reports equality.
    assert_eq!(s(2.0).approx_cmp(&s(2.0 + 1e-16), prec), Ordering::Equal);

    // Lexicographic on sequences; a prefix sorts first.
    let a = vec![s(1.0), s(5.0)];
    let b = vec![s(1.0)];
    assert_eq!(a.approx_cmp(&b, prec), Ordering::Greater);
    assert_eq!(b.approx_cmp(&a, prec), Ordering::Less);
    assert_eq!(
        vec![s(1.0), s(2.0)].approx_cmp(&vec![s(1.0), s(9.0)], prec),
        Ordering::Less
    );

    // An optional value with no contents sorts before one with contents.
    let none: Option<Scalar> = None;
    assert_eq!(none.approx_cmp(&Some(s(-100.0)), prec), Ordering::Less);
    assert_eq!(Some(s(-100.0)).approx_cmp(&none, prec), Ordering::Greater);
    assert_eq!(none.approx_cmp(&None, prec), Ordering::Equal);

    // Pairs decide on the first part that differs.
    let p1 = (s(1.0), s(9.0));
    let p2 = (s(2.0), s(0.0));
    assert_eq!(p1.approx_cmp(&p2, prec), Ordering::Less);
    assert_eq!((5u64, s(1.0)).approx_cmp(&(5u64, s(2.0)), prec), Ordering::Less);
}

#[test]
fn test_approx_cmp_zero() {
    let precise = Precision::default();
    let rough = Precision::new_simple(2);
    assert_eq!(s(3.0).approx_cmp_zero(precise), Ordering::Greater);
    assert_eq!(s(-3.0).approx_cmp_zero(precise), Ordering::Less);
    assert_eq!(s(0.0).approx_cmp_zero(precise), Ordering::Equal);
    assert_eq!(s(0.001).approx_cmp_zero(rough), Ordering::Equal);
    assert_eq!(s(0.001).approx_cmp_zero(precise), Ordering::Greater);
    assert_eq!(s(-0.001).approx_cmp_zero(precise), Ordering::Less);
    assert_eq!((s(0.0), s(-2.0)).approx_cmp_zero(precise), Ordering::Less);
    assert_eq!(0u64.approx_cmp_zero(precise), Ordering::Equal);
    assert_eq!(7u64.approx_cmp_zero(precise), Ordering::Greater);
}

#[test]
fn test_interned_eq_and_hash() {
    // Post-intern equality is bit-exact, so values must go through one pool
    // before being compared or hashed.
    let mut pool = FloatPool::new(Precision::absolute(3));
    let a = pool.intern(vec![s(1.0), s(2.1)]);
    let b = pool.intern(vec![s(1.05), s(2.0)]);
    assert!(a.interned_eq(&b));
    let c = pool.intern(vec![s(9.0), s(2.1)]);
    assert!(!a.interned_eq(&c));
    assert!(!a.interned_eq(&pool.intern(vec![s(1.0)])));

    let mut st1 = HashState::new();
    a.interned_hash(&mut st1);
    let mut st2 = HashState::new();
    b.interned_hash(&mut st2);
    assert_eq!(st1.finish(), st2.finish());

    let mut st3 = HashState::new();
    c.interned_hash(&mut st3);
    assert_ne!(st1.finish(), st3.finish());

    // The active variant is folded into the hash, so an absent value and a
    // value holding zero differ.
    let some_zero: Option<u64> = Some(0);
    let nothing: Option<u64> = None;
    let mut st4 = HashState::new();
    some_zero.interned_hash(&mut st4);
    let mut st5 = HashState::new();
    nothing.interned_hash(&mut st5);
    assert_ne!(st4.finish(), st5.finish());
    assert!(!some_zero.interned_eq(&nothing));
}

#[test]
fn test_intern_floats_on_composites() {
    let mut pool = FloatPool::new(Precision::absolute(3));
    let mut value = (s(0.1), (77u64, Some(s(0.5))));
    value.intern_floats(&mut pool);
    assert_eq!(value, (s(0.0), (77u64, Some(s(0.5)))));
    let mut probe = (s(0.12), (77u64, Some(s(0.6))));
    assert!(probe.try_intern_floats(&pool));
    assert_eq!(probe, (s(0.0), (77u64, Some(s(0.5)))));
}

#[test]
fn test_boxed_and_triple_composites() {
    let prec = Precision::default();
    let b1 = Box::new(s(5.0));
    let b2 = Box::new(s(5.0));
    let b3 = Box::new(s(4.0));
    assert!(b1.approx_eq(&b2, prec));
    assert!(!b1.approx_eq(&b3, prec));
    assert_eq!(b3.approx_cmp(&b1, prec), Ordering::Less);
    assert!(Box::new(s(0.0)).approx_eq_zero(prec));
    assert_eq!(Box::new(s(-2.0)).approx_cmp_zero(prec), Ordering::Less);

    let t1 = (s(1.0), 7u64, s(2.0));
    let t2 = (s(1.0), 7u64, s(9.0));
    assert!(t1.approx_eq(&t1, prec));
    assert!(!t1.approx_eq(&t2, prec));
    assert_eq!(t1.approx_cmp(&t2, prec), Ordering::Less);
    assert!((s(0.0), 0u64, s(0.0)).approx_eq_zero(prec));
    assert_eq!((s(0.0), 0u64, s(3.0)).approx_cmp_zero(prec), Ordering::Greater);

    let mut pool = FloatPool::new(Precision::absolute(3));
    let a = pool.intern(Box::new((s(1.0), 7u64, s(2.0))));
    let b = pool.intern(Box::new((s(1.05), 7u64, s(2.05))));
    assert!(a.interned_eq(&b));
    let c = pool.intern(Box::new((s(1.0), 8u64, s(2.0))));
    assert!(!a.interned_eq(&c));
    let mut st1 = HashState::new();
    a.interned_hash(&mut st1);
    let mut st2 = HashState::new();
    b.interned_hash(&mut st2);
    assert_eq!(st1.finish(), st2.finish());
}

#[test]
fn test_single_precision_via_widening() {
    // Single-precision values participate through their exact widening to
    // double precision; every contract applies to them verbatim.
    let rough = Precision::new_simple(2);
    let precise = Precision::default();
    assert!(w(5.0).approx_eq(&w(5.0), precise));
    assert!(!w(5.0).approx_eq(&w(4.0), precise));
    assert!(w(2.0).approx_eq(&w(2.001), rough));
    assert!(!w(2.0).approx_eq(&w(2.001), precise));
    assert_eq!(w(-0.5).approx_cmp_zero(precise), Ordering::Less);
    let mut pool = FloatPool::new(Precision::absolute(3));
    assert_eq!(pool.intern(w(1.0)), w(1.0));
    assert_eq!(pool.intern(w(1.1)), w(1.0));
}

#[test]
fn test_fixed_size_arrays() {
    let prec = Precision::default();
    let a1 = [s(1.0), s(2.0), s(3.0)];
    let a2 = [s(1.0), s(2.001), s(3.0)];
    assert!(!a1.approx_eq(&a2, prec));
    assert!(a1.approx_eq(&a2, Precision::new_simple(2)));
    assert_eq!(a1.approx_cmp(&a2, prec), Ordering::Less);
    assert!([s(0.0), s(0.0)].approx_eq_zero(prec));
    assert!(![s(0.0), s(1.0)].approx_eq_zero(prec));

    // The original's fixed-size interning scenario, on arrays.
    let mut interner = FloatPool::new(Precision::absolute(3));
    assert_eq!(
        [s(0.0), s(0.0), s(0.5)],
        interner.intern([s(0.1), s(0.0), s(0.5)])
    );
    assert_eq!(
        [s(0.5), s(0.8), s(0.8)],
        interner.intern([s(0.6), s(0.8), s(0.75)])
    );
}
