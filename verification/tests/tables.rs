use quickphf::{PhfError, PhfMap, PhfSet, RawPhfMap};

fn assert_sync<T: Sync>() {}

#[test]
fn map_test_empty() {
    let empty_map: PhfMap<&str, i32> = PhfMap::build(&vec![], &vec![]).unwrap();

    assert_eq!(empty_map.get(&"Nosy"), None);
    assert_eq!(empty_map.get_key(&"Smithy"), None);
    assert_eq!(empty_map.get_key_value(&"Nighteyes"), None);

    assert!(empty_map.iter().next().is_none());
    assert!(empty_map.keys().next().is_none());
    assert!(empty_map.values().next().is_none());
}

#[test]
fn map_test_sync() {
    assert_sync::<PhfMap<u64, u64>>();
}

#[test]
#[should_panic]
fn test_get_from_empty() {
    let empty_raw_map: RawPhfMap<&str, i32> = RawPhfMap::new(0, vec![0], vec![], vec![0]);
    empty_raw_map.get(&"Lenar");
}

#[test]
fn raw_map_test_sync() {
    assert_sync::<RawPhfMap<u64, u64>>();
}

#[test]
fn set_test_empty() {
    let empty_set: PhfSet<u64> = PhfSet::build(&vec![]).unwrap();

    assert_eq!(empty_set.get(&17), None);
    assert!(!empty_set.contains(&620));
    assert!(empty_set.iter().next().is_none());
}

#[test]
fn set_test_sync() {
    assert_sync::<PhfSet<u64>>();
}

#[test]
fn empty_map_len() {
    let empty_map: PhfMap<&str, i32> = PhfMap::build(&vec![], &vec![]).unwrap();
    assert_eq!(empty_map.len(), 0);
    assert!(empty_map.is_empty());
}

#[test]
fn singleton_set() {
    let set = PhfSet::build(&vec![42i32]).unwrap();
    assert!(set.contains(&42));
    assert!(!set.contains(&41));
    assert_eq!(set.len(), 1);
}

#[test]
fn fourth_powers_map() {
    let keys = vec![1i32, 16, 81, 256, 625, 1296, 2401, 4096, 6561, 10000];
    let values = vec![1i32, 2, 3, 4, 5, 6, 7, 8, 9, 10];
    let map = PhfMap::build(&keys, &values).unwrap();

    assert_eq!(map.get(&4096), Some(&8));
    assert_eq!(map.get(&17), None);
    assert_eq!(map.len(), 10);
    assert_eq!(map.get_key_value(&81), Some((&81, &3)));
    assert_eq!(map.get_key_value(&8000), None);
    assert_eq!(map.get(&2401), Some(&7));
    assert_eq!(map.get(&1729), None);
    assert_eq!(map.get_key(&4096), Some(&4096));
    assert_eq!(map.get_key(&4830), None);
    assert!(map.contains_key(&10_000));
    assert!(!map.contains_key(&24));
}

#[test]
fn three_letter_months() {
    let months = vec![
        "jan", "feb", "mar", "apr", "may", "jun", "jul", "aug", "sep", "oct", "nov", "dec",
    ];
    let holidays = vec![2i32, 1, 0, 0, 0, 1, 1, 0, 1, 1, 2, 1];
    let table = RawPhfMap::build(&months, &holidays).unwrap();

    assert_eq!(*table.get(&"jul"), 1);
    assert_eq!(*table.get(&"jan"), 2);
    assert_eq!(table.len(), 12);

    let mut seen = Vec::new();
    let mut it = table.iter();
    while let Some(v) = it.next() {
        seen.push(*v);
    }
    seen.sort();
    assert_eq!(seen, vec![0, 0, 0, 0, 1, 1, 1, 1, 1, 1, 2, 2]);
}

#[test]
fn digit_set_algebra() {
    let even = PhfSet::build(&vec![0i32, 2, 4, 6, 8]).unwrap();
    let prime = PhfSet::build(&vec![2i32, 3, 5, 7]).unwrap();

    let mut intersection = even.intersection(&prime);
    intersection.sort();
    assert_eq!(intersection, vec![2]);

    let mut symmetric_difference = even.symmetric_difference(&prime);
    symmetric_difference.sort();
    assert_eq!(symmetric_difference, vec![0, 3, 4, 5, 6, 7, 8]);
}

#[test]
fn digit_set_union_difference() {
    let even = PhfSet::build(&vec![0i32, 2, 4, 6, 8]).unwrap();
    let prime = PhfSet::build(&vec![2i32, 3, 5, 7]).unwrap();
    let digits = PhfSet::build(&vec![0i32, 1, 2, 3, 4, 5, 6, 7, 8, 9]).unwrap();

    let mut union = prime.union(&even);
    union.sort();
    assert_eq!(union, vec![0, 2, 3, 4, 5, 6, 7, 8]);

    let mut difference = even.difference(&prime);
    difference.sort();
    assert_eq!(difference, vec![0, 4, 6, 8]);

    assert!(!even.is_disjoint(&prime));
    let odd = PhfSet::build(&vec![1i32, 3, 5, 7, 9]).unwrap();
    assert!(even.is_disjoint(&odd));
    assert!(even.is_subset(&digits));
    assert!(!digits.is_subset(&even));
    assert!(digits.is_superset(&even));
}

#[test]
fn duplicate_detection() {
    let result = PhfSet::build(&vec![1i32, 2, 3, 2]);
    match result {
        Err(PhfError::DuplicateKeys { first, second }) => {
            assert_eq!(first, 1);
            assert_eq!(second, 3);
        }
        _ => panic!("duplicate keys must be rejected"),
    }
}

#[test]
fn perfect_hashing_many_keys() {
    // Each key maps to its own payload; no two keys share a slot.
    let keys: Vec<u64> = (0..1000u64).map(|x| x * x + 7).collect();
    let values: Vec<u64> = (0..1000u64).collect();
    let map = PhfMap::build(&keys, &values).unwrap();
    assert_eq!(map.len(), 1000);
    for i in 0..keys.len() {
        assert_eq!(map.get(&keys[i]), Some(&values[i]));
    }
    assert_eq!(map.get(&3), None);
    assert_eq!(map.get(&1_000_000_007), None);
}

#[test]
fn round_trip_mixed_sizes() {
    for n in [0usize, 1, 2, 10, 100, 1000] {
        let keys: Vec<u64> = (0..n as u64).map(|x| x.wrapping_mul(0x9e3779b97f4a7c15)).collect();
        let values: Vec<usize> = (0..n).collect();
        let map = PhfMap::build(&keys, &values).unwrap();
        assert_eq!(map.len(), n);
        for i in 0..n {
            assert_eq!(map.get(&keys[i]), Some(&values[i]));
        }
    }
}

#[test]
fn iteration_is_stable() {
    let keys = vec![10u64, 20, 30, 40, 50, 60, 70];
    let set = PhfSet::build(&keys).unwrap();

    let mut first = Vec::new();
    let mut it = set.iter();
    while let Some(k) = it.next() {
        first.push(*k);
    }

    let mut second = Vec::new();
    let mut it2 = set.iter();
    while let Some(k) = it2.next() {
        second.push(*k);
    }

    assert_eq!(first, second);
    assert_eq!(first.len(), 7);
}

#[test]
fn map_iterators_agree() {
    let keys = vec![3u64, 1, 4, 1_5, 9, 2_6];
    let values = vec![30i64, 10, 40, 150, 90, 260];
    let map = PhfMap::build(&keys, &values).unwrap();

    let mut pairs = Vec::new();
    let mut it = map.iter();
    while let Some(kv) = it.next() {
        pairs.push(*kv);
    }

    let mut ks = Vec::new();
    let mut kit = map.keys();
    while let Some(k) = kit.next() {
        ks.push(*k);
    }

    let mut vs = Vec::new();
    let mut vit = map.values();
    while let Some(v) = vit.next() {
        vs.push(*v);
    }

    assert_eq!(pairs.len(), 6);
    for i in 0..pairs.len() {
        assert_eq!(pairs[i].0, ks[i]);
        assert_eq!(pairs[i].1, vs[i]);
    }
    pairs.sort();
    let mut expected: Vec<(u64, i64)> =
        keys.iter().copied().zip(values.iter().copied()).collect();
    expected.sort();
    assert_eq!(pairs, expected);
}

#[test]
fn set_get_returns_stored_copy() {
    let set = PhfSet::build(&vec!["alpha", "beta", "gamma"]).unwrap();
    assert_eq!(set.get(&"beta"), Some(&"beta"));
    assert_eq!(set.get(&"delta"), None);
}

#[test]
fn set_structural_equality() {
    let a = PhfSet::build(&vec![3u64, 1, 4]).unwrap();
    let b = PhfSet::build(&vec![4u64, 3, 1]).unwrap();
    let c = PhfSet::build(&vec![3u64, 1]).unwrap();
    assert!(a == b);
    assert!(a != c);
}

#[test]
fn map_structural_equality() {
    let a = PhfMap::build(&vec![1u64, 2, 3], &vec![10i32, 20, 30]).unwrap();
    let b = PhfMap::build(&vec![3u64, 1, 2], &vec![30i32, 10, 20]).unwrap();
    let c = PhfMap::build(&vec![1u64, 2, 3], &vec![10i32, 20, 31]).unwrap();
    let d = PhfMap::build(&vec![1u64, 2], &vec![10i32, 20]).unwrap();
    assert!(a == b);
    assert!(a != c);
    assert!(a != d);
}
