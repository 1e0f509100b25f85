use indexmap::set::IndexSet;

fn set_of(keys: &[u64]) -> IndexSet {
    let mut s = IndexSet::new();
    for k in keys {
        s.insert(*k);
    }
    s
}

fn drain_front<I: FnMut() -> Option<u64>>(mut next: I) -> Vec<u64> {
    let mut out = Vec::new();
    while let Some(k) = next() {
        out.push(k);
    }
    out
}

#[test]
fn set_insert_preserves_order() {
    let s = set_of(&[30, 10, 20]);
    assert_eq!(s.to_vec(), vec![30, 10, 20]);
    assert_eq!(s.len(), 3);
}

#[test]
fn set_reinsert_keeps_position() {
    let mut s = set_of(&[1, 2, 3]);
    assert!(!s.insert(2));
    assert_eq!(s.to_vec(), vec![1, 2, 3]);
    assert_eq!(s.get_index_of(2), Some(1));
}

#[test]
fn set_swap_and_shift_remove() {
    let mut a = set_of(&[1, 2, 3, 4]);
    assert!(a.swap_remove(1));
    assert_eq!(a.to_vec(), vec![4, 2, 3]);
    let mut b = set_of(&[1, 2, 3, 4]);
    assert!(b.shift_remove(1));
    assert_eq!(b.to_vec(), vec![2, 3, 4]);
}

#[test]
fn set_remove_absent_is_noop() {
    let mut s = set_of(&[5, 6]);
    assert!(!s.swap_remove(7));
    assert!(!s.shift_remove(8));
    assert_eq!(s.to_vec(), vec![5, 6]);
}

#[test]
fn set_membership_and_positions() {
    let s = set_of(&[10, 20, 30]);
    assert!(s.contains(20));
    assert!(!s.contains(40));
    assert_eq!(s.get_index_of(30), Some(2));
    assert_eq!(s.get_index_of(40), None);
    assert_eq!(s.get_index(0), Some(10));
    assert_eq!(s.get_index(3), None);
}

#[test]
fn set_positional_ops() {
    let mut s = set_of(&[1, 2, 3, 4, 5]);
    assert_eq!(s.swap_remove_index(0), Some(1));
    assert_eq!(s.to_vec(), vec![5, 2, 3, 4]);
    assert_eq!(s.shift_remove_index(1), Some(2));
    assert_eq!(s.to_vec(), vec![5, 3, 4]);
    assert_eq!(s.pop(), Some(4));
    s.swap_indices(0, 1);
    assert_eq!(s.to_vec(), vec![3, 5]);
    s.reverse();
    assert_eq!(s.to_vec(), vec![5, 3]);
    s.truncate(1);
    assert_eq!(s.to_vec(), vec![5]);
    s.clear();
    assert!(s.is_empty());
}

#[test]
fn set_split_off() {
    let mut s = set_of(&[1, 2, 3, 4]);
    let tail = s.split_off(1);
    assert_eq!(s.to_vec(), vec![1]);
    assert_eq!(tail.to_vec(), vec![2, 3, 4]);
    assert!(tail.contains(3));
    assert!(!s.contains(3));
}

#[test]
fn iter_is_double_ended_and_fused() {
    let s = set_of(&[1, 2, 3, 4]);
    let mut it = s.iter();
    assert_eq!(it.len(), 4);
    assert_eq!(it.next(), Some(1));
    assert_eq!(it.next_back(), Some(4));
    assert_eq!(it.as_slice(), vec![2, 3]);
    assert_eq!(it.next(), Some(2));
    assert_eq!(it.next(), Some(3));
    assert_eq!(it.next(), None);
    assert_eq!(it.next(), None);
    assert_eq!(it.next_back(), None);
    assert_eq!(it.len(), 0);
}

#[test]
fn set_algebra_example() {
    let a = set_of(&[1, 2, 3]);
    let b = set_of(&[2, 3, 4]);

    let mut d = a.difference(&b);
    assert_eq!(drain_front(|| d.next()), vec![1]);

    let mut i = a.intersection(&b);
    assert_eq!(drain_front(|| i.next()), vec![2, 3]);

    let mut u = a.union(&b);
    assert_eq!(drain_front(|| u.next()), vec![1, 2, 3, 4]);

    let mut sd = a.symmetric_difference(&b);
    assert_eq!(drain_front(|| sd.next()), vec![1, 4]);
}

#[test]
fn union_has_no_duplicates_and_counted_length() {
    let a = set_of(&[1, 2, 3, 7, 9]);
    let b = set_of(&[9, 2, 8, 10]);
    let mut u = a.union(&b);
    let got = drain_front(|| u.next());
    let mut seen = got.clone();
    seen.sort_unstable();
    seen.dedup();
    assert_eq!(seen.len(), got.len());
    let mut i = a.intersection(&b);
    let inter = drain_front(|| i.next());
    assert_eq!(got.len(), a.len() + b.len() - inter.len());
}

#[test]
fn set_algebra_partition_covers_union() {
    let a = set_of(&[1, 2, 3, 5]);
    let b = set_of(&[2, 4, 5, 6]);
    let mut dab = a.difference(&b);
    let mut i = a.intersection(&b);
    let mut dba = b.difference(&a);
    let mut parts = drain_front(|| dab.next());
    parts.extend(drain_front(|| i.next()));
    parts.extend(drain_front(|| dba.next()));
    let mut u = a.union(&b);
    let mut union_elems = drain_front(|| u.next());
    parts.sort_unstable();
    union_elems.sort_unstable();
    assert_eq!(parts, union_elems);
}

#[test]
fn difference_backward_iteration() {
    let a = set_of(&[1, 2, 3, 4, 5]);
    let b = set_of(&[2, 4]);
    let mut d = a.difference(&b);
    assert_eq!(d.next_back(), Some(5));
    assert_eq!(d.next_back(), Some(3));
    assert_eq!(d.next(), Some(1));
    assert_eq!(d.next_back(), None);
    assert_eq!(d.size_hint(), (0, Some(0)));
}

#[test]
fn union_backward_iteration() {
    let a = set_of(&[1, 2]);
    let b = set_of(&[2, 3]);
    let mut u = a.union(&b);
    assert_eq!(u.next_back(), Some(3));
    assert_eq!(u.next_back(), Some(2));
    assert_eq!(u.next_back(), Some(1));
    assert_eq!(u.next_back(), None);
    let mut sd = a.symmetric_difference(&b);
    assert_eq!(sd.next_back(), Some(3));
    assert_eq!(sd.next_back(), Some(1));
    assert_eq!(sd.next_back(), None);
}

#[test]
fn splice_replaces_range() {
    let mut s = set_of(&[1, 2, 3, 4, 5]);
    let mut sp = s.splice(1, 3, &vec![9, 3, 2]);
    assert_eq!(sp.len(), 2);
    assert_eq!(sp.next(), Some(2));
    assert_eq!(sp.next_back(), Some(3));
    assert_eq!(sp.next(), None);
    assert_eq!(s.to_vec(), vec![1, 9, 3, 2, 4, 5]);
}

#[test]
fn splice_keeps_elements_outside_range() {
    let mut s = set_of(&[1, 2, 3, 4]);
    let removed: Vec<u64> = {
        let mut sp = s.splice(1, 2, &vec![4, 5, 5]);
        drain_front(|| sp.next())
    };
    assert_eq!(removed, vec![2]);
    // 4 already sits after the range and keeps its place; 5 enters once
    assert_eq!(s.to_vec(), vec![1, 5, 3, 4]);
}

#[test]
fn splice_empty_range_inserts() {
    let mut s = set_of(&[1, 2]);
    let mut sp = s.splice(1, 1, &vec![7, 8]);
    assert_eq!(sp.next(), None);
    assert_eq!(s.to_vec(), vec![1, 7, 8, 2]);
}

#[test]
fn set_round_trip() {
    let s = set_of(&[42, 7, 19, 3]);
    let collected = s.to_vec();
    let rebuilt = IndexSet::from_keys(&collected);
    assert_eq!(rebuilt.to_vec(), collected);
}

#[test]
fn from_keys_folds_duplicates() {
    let s = IndexSet::from_keys(&vec![1, 2, 1, 3, 2]);
    assert_eq!(s.to_vec(), vec![1, 2, 3]);
}

#[test]
fn intersection_backward_and_size_hint() {
    let a = set_of(&[1, 2, 3, 4]);
    let b = set_of(&[4, 2]);
    let mut i = a.intersection(&b);
    assert_eq!(i.size_hint(), (0, Some(4)));
    assert_eq!(i.next_back(), Some(4));
    assert_eq!(i.next(), Some(2));
    assert_eq!(i.next(), None);
}

#[test]
fn set_sort_orders_elements() {
    let mut s = set_of(&[9, 1, 7, 3]);
    s.sort();
    assert_eq!(s.to_vec(), vec![1, 3, 7, 9]);
    assert_eq!(s.get_index_of(7), Some(2));
}

#[test]
fn adapters_are_cloneable_with_size_hints() {
    let a = set_of(&[1, 2, 3]);
    let b = set_of(&[3, 4]);
    let u = a.union(&b);
    let mut u2 = u.clone();
    assert_eq!(u2.size_hint(), (3, Some(5)));
    assert_eq!(u2.next(), Some(1));
    let sd = a.symmetric_difference(&b);
    let mut sd2 = sd.clone();
    assert_eq!(sd2.size_hint(), (0, Some(5)));
    assert_eq!(sd2.next(), Some(1));
    let mut it = indexmap::set::iter::Iter::default();
    assert_eq!(it.next(), None);
    assert_eq!(it.len(), 0);
}

#[test]
fn default_containers_are_empty() {
    let m: indexmap::map::IndexMap<i32> = Default::default();
    assert!(m.is_empty());
    let s: IndexSet = Default::default();
    assert!(s.is_empty());
}

#[test]
fn set_get_and_drain() {
    let mut s = set_of(&[1, 2, 3, 4, 5]);
    assert_eq!(s.get(3), Some(3));
    assert_eq!(s.get(9), None);
    let mut d = s.drain(1, 4);
    assert_eq!(d.len(), 3);
    assert_eq!(d.next(), Some(2));
    assert_eq!(d.next(), Some(3));
    assert_eq!(d.next(), Some(4));
    assert_eq!(d.next(), None);
    assert_eq!(s.to_vec(), vec![1, 5]);
    assert!(s.contains(5));
    assert!(!s.contains(3));
}
