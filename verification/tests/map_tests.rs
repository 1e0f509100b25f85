use indexmap::map::{Entry, IndexMap};
use indexmap::{Bucket, HashValue};

#[test]
fn hash_value_get() {
    let h = HashValue(42);
    assert_eq!(h.get(), 42);
}

#[test]
fn bucket_accessors() {
    let mut b = Bucket { hash: HashValue(7), key: 7, value: 99i32 };
    assert_eq!(*b.key_ref(), 7);
    assert_eq!(*b.value_ref(), 99);
    *b.value_mut() = 100;
    assert_eq!(*b.value_ref(), 100);
    let (k, v) = b.refs();
    assert_eq!((*k, *v), (7, 100));
    let (k, v) = b.ref_mut();
    assert_eq!(*k, 7);
    *v = 101;
    assert_eq!(b.key_value(), (7, 101));
}

#[test]
fn insert_preserves_order() {
    let mut m: IndexMap<i32> = IndexMap::new();
    assert_eq!(m.insert(10, 1), None);
    assert_eq!(m.insert(20, 2), None);
    assert_eq!(m.insert(30, 3), None);
    assert_eq!(m.to_vec(), vec![(10, 1), (20, 2), (30, 3)]);
    assert_eq!(m.len(), 3);
    assert!(!m.is_empty());
}

#[test]
fn update_in_place_keeps_position() {
    let mut m: IndexMap<i32> = IndexMap::new();
    m.insert(1, 1);
    m.insert(2, 2);
    assert_eq!(m.insert(1, 3), Some(1));
    assert_eq!(m.to_vec(), vec![(1, 3), (2, 2)]);
    assert_eq!(m.get_index_of(1), Some(0));
}

#[test]
fn insert_full_reports_position() {
    let mut m: IndexMap<i32> = IndexMap::new();
    assert_eq!(m.insert_full(5, 50), (0, None));
    assert_eq!(m.insert_full(6, 60), (1, None));
    assert_eq!(m.insert_full(5, 51), (0, Some(50)));
    assert_eq!(m.len(), 2);
}

#[test]
fn lookup_reports_value_and_position() {
    let mut m: IndexMap<i32> = IndexMap::new();
    m.insert(100, 1);
    m.insert(200, 2);
    assert_eq!(m.get(100), Some(&1));
    assert_eq!(m.get(300), None);
    assert!(m.contains_key(200));
    assert!(!m.contains_key(300));
    assert_eq!(m.get_full(200), Some((1, 200, &2)));
    assert_eq!(m.get_full(300), None);
    assert_eq!(m.get_index(0), Some((100, &1)));
    assert_eq!(m.get_index(2), None);
}

#[test]
fn swap_remove_moves_last_into_gap() {
    let mut m: IndexMap<i32> = IndexMap::new();
    for (k, v) in [(1, 10), (2, 20), (3, 30), (4, 40)] {
        m.insert(k, v);
    }
    assert_eq!(m.swap_remove(1), Some(10));
    assert_eq!(m.to_vec(), vec![(4, 40), (2, 20), (3, 30)]);
}

#[test]
fn shift_remove_preserves_order() {
    let mut m: IndexMap<i32> = IndexMap::new();
    for (k, v) in [(1, 10), (2, 20), (3, 30), (4, 40)] {
        m.insert(k, v);
    }
    assert_eq!(m.shift_remove(1), Some(10));
    assert_eq!(m.to_vec(), vec![(2, 20), (3, 30), (4, 40)]);
}

#[test]
fn remove_absent_key_is_noop() {
    let mut m: IndexMap<i32> = IndexMap::new();
    m.insert(1, 10);
    m.insert(2, 20);
    assert_eq!(m.swap_remove(99), None);
    assert_eq!(m.shift_remove(99), None);
    assert_eq!(m.swap_remove_full(99), None);
    assert_eq!(m.shift_remove_full(99), None);
    assert_eq!(m.to_vec(), vec![(1, 10), (2, 20)]);
}

#[test]
fn remove_full_and_entry_variants() {
    let mut m: IndexMap<i32> = IndexMap::new();
    for (k, v) in [(1, 10), (2, 20), (3, 30)] {
        m.insert(k, v);
    }
    assert_eq!(m.swap_remove_full(2), Some((1, 2, 20)));
    assert_eq!(m.to_vec(), vec![(1, 10), (3, 30)]);
    assert_eq!(m.shift_remove_entry(1), Some((1, 10)));
    assert_eq!(m.to_vec(), vec![(3, 30)]);
    assert_eq!(m.swap_remove_entry(3), Some((3, 30)));
    assert!(m.is_empty());
}

#[test]
fn remove_by_index() {
    let mut m: IndexMap<i32> = IndexMap::new();
    for (k, v) in [(1, 10), (2, 20), (3, 30), (4, 40)] {
        m.insert(k, v);
    }
    assert_eq!(m.swap_remove_index(0), Some((1, 10)));
    assert_eq!(m.to_vec(), vec![(4, 40), (2, 20), (3, 30)]);
    assert_eq!(m.shift_remove_index(1), Some((2, 20)));
    assert_eq!(m.to_vec(), vec![(4, 40), (3, 30)]);
    assert_eq!(m.shift_remove_index(5), None);
}

#[test]
fn pop_truncate_clear() {
    let mut m: IndexMap<i32> = IndexMap::new();
    for (k, v) in [(1, 10), (2, 20), (3, 30), (4, 40)] {
        m.insert(k, v);
    }
    assert_eq!(m.pop(), Some((4, 40)));
    m.truncate(2);
    assert_eq!(m.to_vec(), vec![(1, 10), (2, 20)]);
    m.truncate(10);
    assert_eq!(m.len(), 2);
    m.clear();
    assert!(m.is_empty());
    assert_eq!(m.pop(), None);
}

#[test]
fn swap_indices_and_reverse() {
    let mut m: IndexMap<i32> = IndexMap::new();
    for (k, v) in [(1, 10), (2, 20), (3, 30), (4, 40)] {
        m.insert(k, v);
    }
    m.swap_indices(0, 3);
    assert_eq!(m.to_vec(), vec![(4, 40), (2, 20), (3, 30), (1, 10)]);
    assert_eq!(m.get_index_of(4), Some(0));
    assert_eq!(m.get_index_of(1), Some(3));
    m.reverse();
    assert_eq!(m.to_vec(), vec![(1, 10), (3, 30), (2, 20), (4, 40)]);
    assert_eq!(m.get_index_of(1), Some(0));
}

#[test]
fn split_off_partitions() {
    let mut m: IndexMap<i32> = IndexMap::new();
    for (k, v) in [(1, 10), (2, 20), (3, 30), (4, 40)] {
        m.insert(k, v);
    }
    let tail = m.split_off(2);
    assert_eq!(m.to_vec(), vec![(1, 10), (2, 20)]);
    assert_eq!(tail.to_vec(), vec![(3, 30), (4, 40)]);
    assert_eq!(m.get_index_of(2), Some(1));
    assert_eq!(tail.get_index_of(4), Some(1));
    assert_eq!(m.get(3), None);
}

#[test]
fn get_index_mut_updates_value() {
    let mut m: IndexMap<i32> = IndexMap::new();
    m.insert(1, 10);
    m.insert(2, 20);
    *m.get_index_mut(1) = 99;
    assert_eq!(m.get(2), Some(&99));
    assert_eq!(m.to_vec(), vec![(1, 10), (2, 99)]);
}

#[test]
fn entry_api_single_probe() {
    let mut m: IndexMap<i32> = IndexMap::new();
    m.insert(1, 10);
    let e = m.entry(1);
    assert!(matches!(e, Entry::Occupied { index: 0, key: 1 }));
    assert_eq!(m.entry_get(&e), Some(&10));
    assert_eq!(m.entry_insert(e, 11), (0, Some(10)));
    assert_eq!(m.get(1), Some(&11));

    let e = m.entry(2);
    assert!(matches!(e, Entry::Vacant { hash: HashValue(2), key: 2 }));
    assert_eq!(m.entry_get(&e), None);
    assert_eq!(m.entry_insert(e, 20), (1, None));
    assert_eq!(m.to_vec(), vec![(1, 11), (2, 20)]);

    let e = m.entry(1);
    assert_eq!(m.entry_swap_remove(e), Some((1, 11)));
    assert_eq!(m.to_vec(), vec![(2, 20)]);
    let e = m.entry(9);
    assert_eq!(m.entry_swap_remove(e), None);
    assert_eq!(m.len(), 1);
}

#[test]
fn map_round_trip() {
    let mut m: IndexMap<i32> = IndexMap::new();
    for (k, v) in [(7, 70), (3, 30), (11, 110), (5, 50)] {
        m.insert(k, v);
    }
    let collected = m.to_vec();
    let rebuilt = IndexMap::from_pairs(collected.clone());
    assert_eq!(rebuilt.to_vec(), collected);
}

#[test]
fn from_pairs_last_duplicate_wins() {
    let m = IndexMap::from_pairs(vec![(1, 10), (2, 20), (1, 11)]);
    assert_eq!(m.to_vec(), vec![(1, 11), (2, 20)]);
}

#[test]
fn keys_in_order() {
    let mut m: IndexMap<i32> = IndexMap::new();
    for (k, v) in [(9, 1), (4, 2), (6, 3)] {
        m.insert(k, v);
    }
    assert_eq!(m.keys(), vec![9, 4, 6]);
}

#[test]
fn with_capacity_starts_empty() {
    let m: IndexMap<i32> = IndexMap::with_capacity(16);
    assert_eq!(m.len(), 0);
    assert!(m.is_empty());
}

fn check_consistency(m: &IndexMap<u64>) {
    // core invariant: positional access and keyed lookup agree everywhere
    let pairs = m.to_vec();
    assert_eq!(pairs.len(), m.len());
    for (p, (k, v)) in pairs.iter().enumerate() {
        let (ik, iv) = m.get_index(p).unwrap();
        assert_eq!(ik, *k);
        assert_eq!(*iv, *v);
        assert_eq!(m.get_full(*k), Some((p, *k, v)));
        assert_eq!(m.get_index_of(*k), Some(p));
    }
}

#[test]
fn index_hash_consistency_under_random_ops() {
    let mut m: IndexMap<u64> = IndexMap::new();
    let mut state: u64 = 0x9e3779b97f4a7c15;
    for step in 0..400u64 {
        state = state.wrapping_mul(6364136223846793005).wrapping_add(1442695040888963407);
        let key = (state >> 33) % 32;
        let op = (state >> 29) % 8;
        match op {
            0 | 1 | 2 => {
                m.insert(key, step);
            }
            3 => {
                m.swap_remove(key);
            }
            4 => {
                m.shift_remove(key);
            }
            5 => {
                if m.len() >= 2 {
                    let a = (key as usize) % m.len();
                    let b = (step as usize) % m.len();
                    m.swap_indices(a, b);
                }
            }
            6 => {
                m.reverse();
            }
            _ => {
                m.pop();
            }
        }
        check_consistency(&m);
    }
    assert!(m.len() <= 32);
}

#[test]
fn sort_keys_orders_records() {
    let mut m: IndexMap<i32> = IndexMap::new();
    for (k, v) in [(5, 50), (1, 10), (4, 40), (2, 20)] {
        m.insert(k, v);
    }
    m.sort_keys();
    assert_eq!(m.to_vec(), vec![(1, 10), (2, 20), (4, 40), (5, 50)]);
    assert_eq!(m.get_index_of(4), Some(2));
    assert_eq!(m.get(5), Some(&50));
}

#[test]
fn bucket_muts_gives_both_fields() {
    let mut b = Bucket { hash: HashValue(3), key: 3, value: 30i32 };
    {
        let (k, v) = b.muts();
        assert_eq!((*k, *v), (3, 30));
        *v = 31;
    }
    assert_eq!(b.value_ref(), &31);
}

#[test]
fn retain_keeps_approved_records_in_order() {
    let mut m: IndexMap<i32> = IndexMap::new();
    for (k, v) in [(1, 10), (2, 20), (3, 30), (4, 40), (5, 50)] {
        m.insert(k, v);
    }
    m.retain(|k, _v| k % 2 == 1);
    assert_eq!(m.to_vec(), vec![(1, 10), (3, 30), (5, 50)]);
    assert_eq!(m.get_index_of(5), Some(2));
    m.retain(|_k, v| *v > 100);
    assert!(m.is_empty());
}

#[test]
fn shift_insert_places_record_at_position() {
    let mut m: IndexMap<i32> = IndexMap::new();
    for (k, v) in [(1, 10), (2, 20), (3, 30)] {
        m.insert(k, v);
    }
    assert_eq!(m.shift_insert(1, 9, 90), None);
    assert_eq!(m.to_vec(), vec![(1, 10), (9, 90), (2, 20), (3, 30)]);
    assert_eq!(m.get_index_of(2), Some(2));
    // an existing key moves to the requested position and takes the value
    assert_eq!(m.shift_insert(0, 3, 33), Some(30));
    assert_eq!(m.to_vec(), vec![(3, 33), (1, 10), (9, 90), (2, 20)]);
    assert_eq!(m.get_index_of(9), Some(2));
}

#[test]
fn entry_shift_remove_preserves_order() {
    let mut m: IndexMap<i32> = IndexMap::new();
    for (k, v) in [(1, 10), (2, 20), (3, 30)] {
        m.insert(k, v);
    }
    let e = m.entry(1);
    assert_eq!(m.entry_shift_remove(e), Some((1, 10)));
    assert_eq!(m.to_vec(), vec![(2, 20), (3, 30)]);
    let e = m.entry(7);
    assert_eq!(m.entry_shift_remove(e), None);
    assert_eq!(m.len(), 2);
}

#[test]
fn first_and_last_records() {
    let mut m: IndexMap<i32> = IndexMap::new();
    assert_eq!(m.first(), None);
    assert_eq!(m.last(), None);
    for (k, v) in [(5, 50), (6, 60), (7, 70)] {
        m.insert(k, v);
    }
    assert_eq!(m.first(), Some((5, &50)));
    assert_eq!(m.last(), Some((7, &70)));
}
