use partial_set::{Partial, PartialSet, ToPartial};
use std::borrow::Borrow;
use std::collections::hash_map::DefaultHasher;
use std::hash::{BuildHasher, Hash, Hasher, RandomState};

#[derive(PartialEq, Debug)]
struct Test {
    key: i32,
    value: i32,
}

impl ToPartial<i32> for Test {
    fn partial(&self) -> i32 {
        self.key
    }

    fn to_partial(&self) -> &i32 {
        &self.key
    }
}

fn t(key: i32, value: i32) -> Test {
    Test { key, value }
}

fn drained(set: &mut PartialSet<Test, i32>) -> Vec<Test> {
    let mut out = Vec::new();
    let mut d = set.drain();
    while let Some(v) = d.next() {
        out.push(v);
    }
    out
}

#[test]
fn test_equality() {
    assert_eq!(*Test { key: 1, value: 2 }.to_partial(), 1i32);
}

#[test]
fn reference_projects_like_value() {
    let v = t(4, 9);
    let r = &v;
    assert_eq!(*ToPartial::<i32>::to_partial(&r), 4);
}

#[test]
fn insert_keeps_first_value() {
    let mut set = PartialSet::new();
    assert!(set.insert(t(7, 1)));
    assert!(!set.insert(t(7, 2)));
    assert_eq!(set.len(), 1);
    assert_eq!(set.get(&7), Some(&t(7, 1)));
}

#[test]
fn replace_keeps_last_value() {
    let mut set = PartialSet::new();
    assert!(set.insert(t(7, 1)));
    assert_eq!(set.replace(t(7, 2)), Some(t(7, 1)));
    assert_eq!(set.len(), 1);
    assert_eq!(set.get(&7), Some(&t(7, 2)));
}

#[test]
fn replace_new_key_adds() {
    let mut set = PartialSet::new();
    assert_eq!(set.replace(t(3, 1)), None);
    assert_eq!(set.len(), 1);
    assert!(set.contains(&3));
}

#[test]
fn remove_absent_key() {
    let mut set = PartialSet::new();
    set.insert(t(1, 1));
    assert!(!set.remove(&5));
    assert_eq!(set.get(&5), None);
    assert_eq!(set.len(), 1);
}

#[test]
fn remove_present_key() {
    let mut set = PartialSet::new();
    set.insert(t(1, 1));
    set.insert(t(2, 2));
    assert!(set.remove(&1));
    assert!(!set.contains(&1));
    assert!(set.contains(&2));
    assert_eq!(set.len(), 1);
}

#[test]
fn drain_yields_all_and_empties() {
    let mut set = PartialSet::new();
    for k in 1..=4 {
        set.insert(t(k, k * 10));
    }
    let mut out = drained(&mut set);
    assert_eq!(set.len(), 0);
    assert!(set.is_empty());
    out.sort_by_key(|v| v.key);
    assert_eq!(out, vec![t(1, 10), t(2, 20), t(3, 30), t(4, 40)]);
}

#[test]
fn drain_dropped_early_still_empties() {
    let mut set = PartialSet::new();
    set.insert(t(1, 1));
    set.insert(t(2, 2));
    {
        let mut d = set.drain();
        assert!(d.next().is_some());
    }
    assert!(set.is_empty());
}

#[test]
fn difference_yields_missing_keys() {
    let mut a = PartialSet::new();
    let mut b = PartialSet::new();
    for k in 1..=4 {
        a.insert(t(k, k));
    }
    b.insert(t(2, 100));
    b.insert(t(4, 100));
    b.insert(t(9, 100));
    let mut d = a.difference(&b);
    let mut out = Vec::new();
    while let Some(v) = d.next() {
        out.push(v.key);
    }
    out.sort();
    assert_eq!(out, vec![1, 3]);
}

#[test]
fn difference_of_subset_is_empty() {
    let mut a = PartialSet::new();
    let mut b = PartialSet::new();
    a.insert(t(1, 1));
    a.insert(t(2, 2));
    b.insert(t(1, 5));
    b.insert(t(2, 6));
    b.insert(t(3, 7));
    let mut d = a.difference(&b);
    assert!(d.next().is_none());
}

#[test]
fn insert_then_take_round_trip() {
    let mut set = PartialSet::new();
    set.insert(t(8, 80));
    assert!(set.insert(t(5, 50)));
    assert_eq!(set.take(t(5, 50).to_partial()), Some(t(5, 50)));
    assert!(!set.contains(&5));
    assert_eq!(set.take(&5), None);
    assert_eq!(set.len(), 1);
}

#[test]
fn keys_one_two_three_scenario() {
    let mut set = PartialSet::new();
    set.insert(t(1, 10));
    set.insert(t(2, 20));
    set.insert(t(3, 30));
    assert_eq!(set.len(), 3);
    assert!(!set.insert(t(2, 99)));
    assert_eq!(set.len(), 3);
    assert_eq!(set.get(&2), Some(&t(2, 20)));
    assert_eq!(set.replace(t(2, 77)), Some(t(2, 20)));
    assert_eq!(set.get(&2), Some(&t(2, 77)));
    assert_eq!(set.len(), 3);
}

#[test]
fn try_reserve_huge_fails() {
    let mut set = PartialSet::new();
    set.insert(t(1, 1));
    assert!(set.try_reserve(usize::MAX).is_err());
    assert_eq!(set.len(), 1);
    assert_eq!(set.get(&1), Some(&t(1, 1)));
}

#[test]
fn try_reserve_small_succeeds() {
    let mut set: PartialSet<Test, i32> = PartialSet::new();
    assert!(set.try_reserve(8).is_ok());
    assert!(set.capacity() >= 8);
}

#[test]
fn capacity_management_keeps_members() {
    let mut set = PartialSet::with_capacity(32);
    assert!(set.capacity() >= 32);
    set.insert(t(1, 1));
    set.insert(t(2, 2));
    set.reserve(100);
    assert!(set.capacity() >= 102);
    set.shrink_to(10);
    assert!(set.capacity() >= 10);
    assert!(set.capacity() < 102);
    set.shrink_to_fit();
    assert!(set.capacity() >= 2);
    assert_eq!(set.len(), 2);
    assert_eq!(set.get(&1), Some(&t(1, 1)));
    assert_eq!(set.get(&2), Some(&t(2, 2)));
}

#[test]
fn clear_empties() {
    let mut set = PartialSet::new();
    set.insert(t(1, 1));
    set.insert(t(2, 2));
    set.clear();
    assert!(set.is_empty());
    assert!(!set.contains(&1));
}

#[test]
fn retain_keeps_passing_members() {
    let mut set = PartialSet::new();
    for k in 1..=6 {
        set.insert(t(k, k * 3));
    }
    let mut calls = 0;
    set.retain(|v: &Test| {
        calls += 1;
        v.key % 2 == 0
    });
    assert_eq!(calls, 6);
    assert_eq!(set.len(), 3);
    for k in 1..=6 {
        assert_eq!(set.contains(&k), k % 2 == 0);
    }
    assert_eq!(set.get(&4), Some(&t(4, 12)));
}

#[test]
fn iter_visits_each_member_once() {
    let mut set = PartialSet::new();
    for k in [5, 3, 9] {
        set.insert(t(k, -k));
    }
    let mut keys = Vec::new();
    let mut it = set.iter();
    while let Some(v) = it.next() {
        assert_eq!(v.value, -v.key);
        keys.push(v.key);
    }
    keys.sort();
    assert_eq!(keys, vec![3, 5, 9]);
    let mut again = set.iter();
    let mut n = 0;
    while again.next().is_some() {
        n += 1;
    }
    assert_eq!(n, 3);
}

#[test]
fn into_iter_hands_out_members() {
    let mut set = PartialSet::new();
    set.insert(t(2, 4));
    set.insert(t(1, 2));
    let mut it = set.into_iter();
    let mut out = Vec::new();
    while let Some(v) = it.next() {
        out.push(v);
    }
    out.sort_by_key(|v| v.key);
    assert_eq!(out, vec![t(1, 2), t(2, 4)]);
}

#[test]
fn empty_set_edges() {
    let mut set: PartialSet<Test, i32> = PartialSet::new();
    assert!(set.is_empty());
    assert_eq!(set.len(), 0);
    assert!(!set.contains(&0));
    assert_eq!(set.take(&0), None);
    assert!(drained(&mut set).is_empty());
    let mut it = set.iter();
    assert!(it.next().is_none());
}

#[test]
fn extreme_keys() {
    let mut set = PartialSet::new();
    set.insert(t(i32::MIN, 1));
    set.insert(t(i32::MAX, 2));
    set.insert(t(0, 3));
    assert_eq!(set.len(), 3);
    assert_eq!(set.get(&i32::MIN), Some(&t(i32::MIN, 1)));
    assert_eq!(set.get(&i32::MAX), Some(&t(i32::MAX, 2)));
}

#[test]
fn custom_hasher_is_kept() {
    let h = RandomState::new();
    let probe = h.hash_one(42u64);
    let mut set: PartialSet<Test, i32, RandomState> = PartialSet::with_hasher(h);
    set.insert(t(1, 1));
    assert_eq!(set.hasher().hash_one(42u64), probe);
    let h2 = RandomState::new();
    let probe2 = h2.hash_one(7u64);
    let set2: PartialSet<Test, i32, RandomState> = PartialSet::with_capacity_and_hasher(5, h2);
    assert!(set2.capacity() >= 5);
    assert_eq!(set2.hasher().hash_one(7u64), probe2);
}

fn hash_of<T: Hash>(x: &T) -> u64 {
    let mut h = DefaultHasher::new();
    x.hash(&mut h);
    h.finish()
}

#[test]
fn entry_compares_and_hashes_by_key() {
    let a: Partial<Test, i32> = Partial::from(t(3, 1));
    let b: Partial<Test, i32> = Partial::new(t(3, 2));
    let c: Partial<Test, i32> = Partial::from(t(4, 1));
    assert!(a == b);
    assert!(a != c);
    assert!(a == 3);
    assert!(a != 4);
    assert_eq!(hash_of(&a), hash_of(&3i32));
    assert_eq!(hash_of(&a), hash_of(&b));
    let k: &i32 = a.borrow();
    assert_eq!(*k, 3);
    assert_eq!(*a.partial_key(), 3);
    assert_eq!(a.value(), &t(3, 1));
    assert_eq!(b.into_value(), t(3, 2));
}

#[test]
fn try_reserve_huge_on_empty_set_fails() {
    let mut set: PartialSet<Test, i32> = PartialSet::new();
    assert!(set.try_reserve(usize::MAX).is_err());
    assert!(set.is_empty());
}

struct Marker;

impl ToPartial<i32> for Marker {
    fn partial(&self) -> i32 {
        0
    }

    fn to_partial(&self) -> &i32 {
        &0
    }
}

#[test]
fn try_reserve_huge_fails_for_zero_sized_values() {
    let mut set: PartialSet<Marker, i32> = PartialSet::new();
    assert!(set.try_reserve(usize::MAX).is_err());
    assert!(set.try_reserve(isize::MAX as usize + 1).is_err());
    assert!(set.try_reserve(3).is_ok());
    assert!(set.insert(Marker));
    assert!(!set.insert(Marker));
    assert_eq!(set.len(), 1);
}

#[test]
fn from_then_into_value_round_trip() {
    let e: Partial<Test, i32> = Partial::from(t(6, 60));
    assert_eq!(*e.partial_key(), 6);
    assert_eq!(e.into_value(), t(6, 60));
}
