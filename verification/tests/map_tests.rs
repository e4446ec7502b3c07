use approx_collections::ApproxHashMap;
use approx_collections::Precision;
use approx_collections::Scalar;

fn s(x: f64) -> Scalar {
    Scalar::from_bits(x.to_bits())
}

fn key(a: f64, b: f64) -> Vec<Scalar> {
    vec![s(a), s(b)]
}

#[test]
fn test_float_hashmap() {
    let mut map: ApproxHashMap<Vec<Scalar>, char> = ApproxHashMap::new(Precision::absolute(3));
    map.insert(key(0.1, -3.0), 'a');
    map.insert(key(0.5, 5.0), 'b');
    map.insert(key(0.6, 0.2), 'c');
    map.insert(key(0.15, -3.0), 'd');

    assert_eq!(map.get(key(-5.12, -3.0)), None);
    assert_eq!(map.get(key(0.5, -3.0)), None);
    // 0.2's registration rebinds the zero bucket, so 0.12 and -0.12 (both
    // in the band astride zero) now resolve to 0.2, like 0.15 did: these
    // probes land on the entry stored last.
    assert_eq!(map.get(key(0.12, -3.0)), Some(&'d'));
    assert_eq!(map.get(key(-0.12, -2.9)), Some(&'d'));
    assert_eq!(map.get(key(-0.12, 2.9)), None);
    assert_eq!(map.get(key(0.44, 5.0)), Some(&'b'));
    assert_eq!(map.get(key(0.4, 0.3)), Some(&'c'));
}

#[test]
fn test_len_accounting() {
    let mut map: ApproxHashMap<Vec<Scalar>, u64> = ApproxHashMap::new(Precision::absolute(3));
    assert_eq!(map.len(), 0);
    assert!(map.is_empty());
    assert_eq!(map.insert(key(1.0, 2.0), 10), None);
    assert_eq!(map.insert(key(30.0, 4.0), 20), None);
    assert_eq!(map.insert(key(50.0, 60.0), 30), None);
    assert_eq!(map.len(), 3);
    assert!(!map.is_empty());
    assert_eq!(map.remove(key(30.0, 4.0)), Some(20));
    assert_eq!(map.len(), 2);
    assert_eq!(map.remove(key(30.0, 4.0)), None);
    assert_eq!(map.len(), 2);

    let buckets_before = map.float_pool().bucket_count();
    map.clear();
    assert_eq!(map.len(), 0);
    assert!(map.is_empty());
    // Clearing forgets the entries but keeps the learned canonical values.
    assert_eq!(map.float_pool().bucket_count(), buckets_before);
    assert_eq!(map.get(key(1.0, 2.0)), None);
}

#[test]
fn test_insert_replaces_value() {
    let mut map: ApproxHashMap<Scalar, char> = ApproxHashMap::new(Precision::absolute(3));
    assert_eq!(map.insert(s(1.0), 'x'), None);
    // 1.05 is within tolerance of 1.0, so it replaces the same entry.
    assert_eq!(map.insert(s(1.05), 'y'), Some('x'));
    assert_eq!(map.len(), 1);
    assert_eq!(map.get(s(1.0)), Some(&'y'));
}

#[test]
fn test_remove_entry() {
    let mut map: ApproxHashMap<Scalar, char> = ApproxHashMap::new(Precision::absolute(3));
    map.insert(s(2.0), 'p');
    map.insert(s(9.0), 'q');
    let removed = map.remove_entry(s(2.05));
    assert_eq!(removed, Some((s(2.0), 'p')));
    assert_eq!(map.len(), 1);
    assert_eq!(map.get(s(2.0)), None);
    assert_eq!(map.get(s(9.0)), Some(&'q'));
    assert_eq!(map.remove_entry(s(77.0)), None);
}

#[test]
fn test_get_key_value_and_contains() {
    let mut map: ApproxHashMap<Vec<Scalar>, char> = ApproxHashMap::new(Precision::absolute(3));
    map.insert(key(1.0, 2.0), 'z');
    assert!(map.contains_key(key(1.05, 2.05)));
    assert!(!map.contains_key(key(1.0, 9.0)));
    let kv = map.get_key_value(key(1.05, 2.05));
    assert_eq!(kv, Some((&key(1.0, 2.0), &'z')));
    // A probe with a different shape (length) never matches.
    assert_eq!(map.get(vec![s(1.0)]), None);
}

#[test]
fn test_map_interning() {
    let mut map: ApproxHashMap<Scalar, char> = ApproxHashMap::new(Precision::absolute(3));
    assert_eq!(map.try_intern(s(3.0)), None);
    let canon = map.intern(s(3.0));
    assert_eq!(canon, s(3.0));
    assert_eq!(map.try_intern(s(3.01)), Some(s(3.0)));
    let mut k = s(3.01);
    map.intern_in_place(&mut k);
    assert_eq!(k, s(3.0));
    assert_eq!(map.prec(), Precision::absolute(3));
    // Interning alone stores nothing.
    assert_eq!(map.len(), 0);
}

#[test]
fn test_insert_if_absent() {
    let mut map: ApproxHashMap<Scalar, char> = ApproxHashMap::new(Precision::absolute(3));
    assert!(map.insert_if_absent(s(1.0), 'x'));
    // 1.05 resolves to the stored 1.0: nothing is replaced.
    assert!(!map.insert_if_absent(s(1.05), 'y'));
    assert_eq!(map.len(), 1);
    assert_eq!(map.get(s(1.0)), Some(&'x'));
}

#[test]
fn test_and_modify() {
    let mut map: ApproxHashMap<Scalar, u64> = ApproxHashMap::new(Precision::absolute(3));
    map.insert(s(1.0), 10);
    assert!(map.and_modify(s(1.05), |v| v + 5));
    assert_eq!(map.get(s(1.0)), Some(&15));
    // No entry is created for an absent key.
    assert!(!map.and_modify(s(9.0), |v| v + 5));
    assert_eq!(map.len(), 1);
    assert_eq!(map.get(s(9.0)), None);
}

#[test]
fn test_or_insert_with_key() {
    let mut map: ApproxHashMap<Scalar, u64> = ApproxHashMap::new(Precision::absolute(3));
    // The default is computed from the interned key only when inserting.
    assert!(map.or_insert_with_key(s(1.0), |k| k.to_bits() & 1));
    assert_eq!(map.get(s(1.0)), Some(&0));
    assert!(!map.or_insert_with_key(s(1.05), |_k| 77));
    assert_eq!(map.get(s(1.0)), Some(&0));
    assert_eq!(map.len(), 1);
}

#[test]
fn test_insert_with_mut_key() {
    let mut map: ApproxHashMap<Scalar, char> = ApproxHashMap::new(Precision::absolute(3));
    let mut k1 = s(2.0);
    assert_eq!(map.insert_with_mut_key(&mut k1, 'p'), None);
    assert_eq!(k1, s(2.0));
    let mut k2 = s(2.05);
    // The caller's key is interned in place to the stored canonical form.
    assert_eq!(map.insert_with_mut_key(&mut k2, 'q'), Some('p'));
    assert_eq!(k2, s(2.0));
    assert_eq!(map.len(), 1);
    assert_eq!(map.get(s(2.0)), Some(&'q'));
}

#[test]
fn test_get_mut() {
    let mut map: ApproxHashMap<Scalar, u64> = ApproxHashMap::new(Precision::absolute(3));
    map.insert(s(3.0), 1);
    match map.get_mut(s(3.05)) {
        Some(v) => {
            *v = 9;
        },
        None => panic!(),
    }
    assert_eq!(map.get(s(3.0)), Some(&9));
    assert_eq!(map.get_mut(s(50.0)), None);
    assert_eq!(map.len(), 1);
}

#[test]
fn test_from_pairs() {
    let pairs = vec![
        (key(0.1, -3.0), 'a'),
        (key(0.5, 5.0), 'b'),
        (key(0.6, 0.2), 'c'),
        (key(0.15, -3.0), 'd'),
    ];
    let map = ApproxHashMap::from_pairs(Precision::absolute(3), pairs);
    assert_eq!(map.len(), 4);
    assert_eq!(map.get(key(0.12, -3.0)), Some(&'d'));
    assert_eq!(map.get(key(0.44, 5.0)), Some(&'b'));
    assert_eq!(map.get(key(0.4, 0.3)), Some(&'c'));
}

#[test]
fn test_array_keys() {
    // Fixed-size arrays work as keys just like vectors.
    let mut map: ApproxHashMap<[Scalar; 2], char> = ApproxHashMap::new(Precision::absolute(3));
    map.insert([s(0.1), s(-3.0)], 'a');
    map.insert([s(0.5), s(5.0)], 'b');
    assert_eq!(map.get([s(0.44), s(5.0)]), Some(&'b'));
    assert_eq!(map.get([s(0.5), s(-3.0)]), None);
    assert_eq!(map.len(), 2);
}

#[test]
fn test_to_pairs() {
    let mut map: ApproxHashMap<Scalar, char> = ApproxHashMap::new(Precision::absolute(3));
    map.insert(s(1.0), 'x');
    map.insert(s(9.0), 'y');
    let pairs = map.to_pairs();
    assert_eq!(pairs.len(), 2);
    assert!(pairs.contains(&(&s(1.0), &'x')));
    assert!(pairs.contains(&(&s(9.0), &'y')));
}
