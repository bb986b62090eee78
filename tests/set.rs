use sprs::set::{Key, SparSet, MAX_K};

fn sorted(mut v: Vec<Key>) -> Vec<Key> {
    v.sort_unstable();
    v
}

#[test]
fn tests_regular_ops() {
    let mut set = SparSet::new(Key::MAX as usize);

    assert_eq!(set.as_slice(), &[]);
    assert_eq!(set.as_index_all(&[]).len(), 0);
    assert_eq!(set.as_index_all(&[1, 2, 3]).len(), 0);
    assert_eq!(set.len(), 0);

    assert!(set.insert_one(5));
    assert!(!set.insert_one(5));
    assert!(set.contains(5));
    assert_eq!(set.as_slice(), &[5]);
    assert_eq!(set.as_index_one(5), Some(0));
    assert_eq!(set.as_index_all(&[5]), vec![0]);
    assert_eq!(set.len(), 1);

    assert!(set.delete_one(5));
    assert!(!set.delete_one(5));
    assert!(!set.contains(5));
    assert_eq!(set.as_slice(), &[]);
    assert_eq!(set.as_index_one(5), None);
    assert_eq!(set.as_index_all(&[5]).len(), 0);
    assert_eq!(set.len(), 0);

    for (i, k) in (4..8).enumerate() {
        assert!(set.insert_one(k));
        assert_eq!(set.as_slice()[i], k);
        assert_eq!(set.as_index_one(k), Some(i as Key));
        assert_eq!(set.as_index_all(&[k]), vec![i as Key]);
        assert_eq!(set.len(), i as Key + 1);
    }
    assert!(set.as_index_one(3).is_none());
    assert!(set.as_index_one(8).is_none());
    assert!(set.delete_one(5));
    assert_eq!(set.as_slice(), &[4, 7, 6]);
    assert!(set.delete_one(6));
    assert_eq!(set.as_slice(), &[4, 7]);
    assert!(set.delete_one(4));
    assert_eq!(set.as_slice(), &[7]);
    assert!(set.delete_one(7));
    assert_eq!(set.as_slice(), &[]);
    assert_eq!(set.len(), 0);
}

#[test]
fn tests_compare_ops() {
    let mut a = SparSet::new(Key::MAX as usize);
    let mut b = SparSet::new(Key::MAX as usize);

    a.insert_all(&[5, 2]);
    b.insert_all(&[5, 3]);

    assert_eq!(vec![5], sorted(a.intersection(&b)));
    assert_eq!(vec![2, 3, 5], sorted(a.union(&b)));
    assert_eq!(vec![2], sorted(a.difference(&b)));
    assert_eq!(vec![3], sorted(b.difference(&a)));
    assert_eq!(vec![2, 3], sorted(a.symmetric_difference(&b)));
    assert_eq!(vec![2, 3], sorted(b.symmetric_difference(&a)));
}

#[test]
fn tests_batched_ops() {
    let mut set = SparSet::new(Key::MAX as usize);

    set.insert_all(&[4, 5, 6, 7]);
    assert_eq!(set.as_slice(), [4, 5, 6, 7]);
    set.insert_all(&[4, 5, 6, 7]);
    assert_eq!(set.as_slice(), [4, 5, 6, 7]);
    assert_eq!(set.as_index_one(6), Some(2));
    assert_eq!(set.as_index_all(&[5, 4, 7, 6]), vec![1, 0, 3, 2]);
    assert_eq!(set.len(), 4);

    set.delete_all(&[5, 5, 5, 4, 4, 4, 7, 2, 2, 2, 5, 5, 5]);
    assert_eq!(set.as_slice(), [6]);
    set.delete_all(&[5, 5, 5, 4, 4, 4, 7, 2, 2, 2, 5, 5, 5]);
    assert_eq!(set.as_slice(), [6]);
    assert_eq!(set.as_index_one(6), Some(0));
    let all = set.as_slice().to_vec();
    assert_eq!(set.as_index_all(&all), vec![0]);
    assert_eq!(set.len(), 1);
}

#[test]
fn tests_test_zero_capacities() {
    let s = SparSet::new(Key::MAX as usize);
    assert_eq!(s.len(), 0);

    let s = SparSet::default();
    assert_eq!(s.len(), 0);

    let mut s = SparSet::new(Key::MAX as usize);
    s.insert_one(1);
    s.insert_one(2);
    s.delete_one(1);
    s.delete_one(2);
    assert_eq!(s.len(), 0);
}

#[test]
fn tests_test_disjoint() {
    let mut xs = SparSet::new(Key::MAX as usize);
    let mut ys = SparSet::new(Key::MAX as usize);
    assert!(xs.is_disjoint(&ys));
    assert!(ys.is_disjoint(&xs));
    assert!(xs.insert_one(5));
    assert!(ys.insert_one(11));
    assert!(xs.is_disjoint(&ys));
    assert!(ys.is_disjoint(&xs));
    assert!(xs.insert_one(7));
    assert!(xs.insert_one(19));
    assert!(xs.insert_one(4));
    assert!(ys.insert_one(2));
    assert!(xs.is_disjoint(&ys));
    assert!(ys.is_disjoint(&xs));
    assert!(ys.insert_one(7));
    assert!(!xs.is_disjoint(&ys));
    assert!(!ys.is_disjoint(&xs));
}

#[test]
fn tests_test_subset_and_superset() {
    let mut a = SparSet::new(Key::MAX as usize);
    assert!(a.insert_one(0));
    assert!(a.insert_one(5));
    assert!(a.insert_one(11));
    assert!(a.insert_one(7));

    let mut b = SparSet::new(Key::MAX as usize);
    assert!(b.insert_one(0));
    assert!(b.insert_one(7));
    assert!(b.insert_one(19));
    assert!(b.insert_one(250));
    assert!(b.insert_one(11));
    assert!(b.insert_one(200));

    assert!(!a.is_subset(&b));
    assert!(!a.is_superset(&b));
    assert!(!b.is_subset(&a));
    assert!(!b.is_superset(&a));

    assert!(b.insert_one(5));

    assert!(a.is_subset(&b));
    assert!(!a.is_superset(&b));
    assert!(!b.is_subset(&a));
    assert!(b.is_superset(&a));
}

#[test]
fn tests_test_iterate() {
    let mut a = SparSet::new(Key::MAX as usize);
    for i in 0..32 {
        assert!(a.insert_one(i));
    }
    let mut observed: u32 = 0;
    for k in a.as_slice() {
        observed |= 1 << *k;
    }
    assert_eq!(observed, 0xFFFF_FFFF);
}

#[test]
fn tests_test_intersection() {
    let mut a = SparSet::new(Key::MAX as usize);
    let mut b = SparSet::new(Key::MAX as usize);

    assert!(a.insert_one(11));
    assert!(a.insert_one(1));
    assert!(a.insert_one(3));
    assert!(a.insert_one(77));
    assert!(a.insert_one(103));
    assert!(a.insert_one(5));

    assert!(b.insert_one(2));
    assert!(b.insert_one(11));
    assert!(b.insert_one(77));
    assert!(b.insert_one(5));
    assert!(b.insert_one(3));

    let mut i = 0;
    let expected = [3, 5, 11, 77];
    for x in a.intersection(&b) {
        assert!(expected.contains(&x));
        i += 1;
    }
    assert_eq!(i, expected.len());
}

#[test]
fn tests_test_difference() {
    let mut a = SparSet::new(Key::MAX as usize);
    let mut b = SparSet::new(Key::MAX as usize);

    assert!(a.insert_one(1));
    assert!(a.insert_one(3));
    assert!(a.insert_one(5));
    assert!(a.insert_one(9));
    assert!(a.insert_one(11));

    assert!(b.insert_one(3));
    assert!(b.insert_one(9));

    let mut i = 0;
    let expected = [1, 5, 11];
    for x in a.difference(&b) {
        assert!(expected.contains(&x));
        i += 1;
    }
    assert_eq!(i, expected.len());
}

#[test]
fn tests_test_symmetric_difference() {
    let mut a = SparSet::new(Key::MAX as usize);
    let mut b = SparSet::new(Key::MAX as usize);

    assert!(a.insert_one(1));
    assert!(a.insert_one(3));
    assert!(a.insert_one(5));
    assert!(a.insert_one(9));
    assert!(a.insert_one(11));

    assert!(b.insert_one(3));
    assert!(b.insert_one(9));
    assert!(b.insert_one(14));
    assert!(b.insert_one(22));

    let mut i = 0;
    let expected = [1, 5, 11, 14, 22];
    for x in a.symmetric_difference(&b) {
        assert!(expected.contains(&x));
        i += 1;
    }
    assert_eq!(i, expected.len());
}

#[test]
fn tests_test_union() {
    let mut a = SparSet::new(Key::MAX as usize);
    let mut b = SparSet::new(Key::MAX as usize);

    assert!(a.insert_one(1));
    assert!(a.insert_one(3));
    assert!(a.insert_one(5));
    assert!(a.insert_one(9));
    assert!(a.insert_one(11));
    assert!(a.insert_one(16));
    assert!(a.insert_one(19));
    assert!(a.insert_one(24));

    assert!(b.insert_one(1));
    assert!(b.insert_one(5));
    assert!(b.insert_one(9));
    assert!(b.insert_one(13));
    assert!(b.insert_one(19));

    let mut i = 0;
    let expected = [1, 3, 5, 9, 11, 13, 16, 19, 24];
    for x in a.union(&b) {
        assert!(expected.contains(&x));
        i += 1;
    }
    assert_eq!(i, expected.len());
}

#[test]
fn tests_test_from_iter() {
    let xs = [1, 2, 2, 3, 4, 5, 6, 7, 8, 9];

    let set = SparSet::from_slice(&xs);

    for &x in &xs {
        assert!(set.contains(x));
    }

    assert_eq!(set.as_slice().len(), xs.len() - 1);
}

#[test]
fn tests_test_move_iter() {
    let hs = {
        let mut hs = SparSet::new(Key::MAX as usize);

        hs.insert_one(1);
        hs.insert_one(2);

        hs
    };

    let v = hs.as_slice().to_vec();
    assert!(v == [1, 2] || v == [2, 1]);
}

#[test]
fn tests_test_eq() {
    let mut s1 = SparSet::new(Key::MAX as usize);

    s1.insert_one(1);
    s1.insert_one(2);
    s1.insert_one(3);

    let mut s2 = SparSet::new(Key::MAX as usize);

    s2.insert_one(1);
    s2.insert_one(2);

    assert!(!s1.eq(&s2));

    s2.insert_one(3);

    assert!(s1.eq(&s2));
}

#[test]
fn tests_test_extend_ref() {
    let mut a = SparSet::new(Key::MAX as usize);
    a.insert_one(1);

    a.insert_all(&[2, 3, 4]);

    assert_eq!(a.len(), 4);
    assert!(a.contains(1));
    assert!(a.contains(2));
    assert!(a.contains(3));
    assert!(a.contains(4));

    let mut b = SparSet::new(Key::MAX as usize);
    b.insert_one(5);
    b.insert_one(6);

    a.insert_all(b.as_slice());

    assert_eq!(a.len(), 6);
    assert!(a.contains(1));
    assert!(a.contains(2));
    assert!(a.contains(3));
    assert!(a.contains(4));
    assert!(a.contains(5));
    assert!(a.contains(6));
}

#[test]
fn tests_test_retain() {
    let xs = [1, 2, 3, 4, 5, 6];
    let mut set = SparSet::from_slice(&xs);
    set.retain(|k| k % 2 == 0);
    assert_eq!(set.len(), 3);
    assert!(set.contains(2));
    assert!(set.contains(4));
    assert!(set.contains(6));
}

#[test]
fn tests_test_recall() {
    let keys: Vec<Key> = (0..8).collect();
    {
        let mut set = SparSet::from_slice(&keys);
        let drained = set.recall(|k| k % 2 == 0);
        let out = sorted(drained);
        assert_eq!(vec![0, 2, 4, 6], out);
        assert_eq!([7, 1, 5, 3], set.as_slice());
        assert_eq!(set.len(), 4);
    }
    {
        let mut set = SparSet::from_slice(&keys);
        set.recall(|k| k % 2 == 0).into_iter().for_each(drop);
        assert_eq!(set.len(), 4, "Removes non-matching items on drop");
    }
}

#[test]
fn tests_rehash_in_place() {
    let mut set = SparSet::new(Key::MAX as usize);

    for i in 0..224 {
        set.insert_one(i);
    }

    assert_eq!(
        set.len(),
        224,
        "The set must be at or close to capacity to trigger a re hashing"
    );

    for i in 100..1400 {
        set.delete_one(i - 100);
        set.insert_one(i);
    }
}

#[test]
fn tests_collect() {
    let keys: Vec<Key> = (0..3).collect();
    let mut _set = SparSet::from_slice(&keys);
}

#[test]
fn tests_duplicate_insert_one() {
    let mut set = SparSet::new(Key::MAX as usize);
    set.insert_one(1);
    set.insert_one(1);
    assert!([1].iter().eq(set.as_slice().iter()));
}

#[test]
fn set_algebra_scenario() {
    let a = SparSet::from_slice(&[1, 2, 3]);
    let mut b = SparSet::new(5);
    b.insert_all(&[3, 4, 5]);
    assert_eq!(sorted(a.union(&b)), vec![1, 2, 3, 4, 5]);
    assert_eq!(sorted(a.intersection(&b)), vec![3]);
    assert_eq!(sorted(a.difference(&b)), vec![1, 2]);
    assert_eq!(sorted(a.symmetric_difference(&b)), vec![1, 2, 4, 5]);
}

#[test]
fn set_algebra_laws_on_values() {
    let mut a = SparSet::new(20);
    let mut b = SparSet::new(20);
    a.insert_all(&[0, 3, 5, 7, 11, 20]);
    b.insert_all(&[3, 4, 5, 19, 20]);
    assert_eq!(sorted(a.intersection(&b)), sorted(b.intersection(&a)));
    assert_eq!(sorted(a.union(&b)), sorted(b.union(&a)));
    assert_eq!(
        a.union(&b).len() + a.intersection(&b).len(),
        a.len() as usize + b.len() as usize
    );
    let d = SparSet::from_slice(&a.difference(&b));
    assert!(d.intersection(&b).is_empty());
    let mut both = a.difference(&b);
    both.extend(b.difference(&a));
    assert_eq!(sorted(a.symmetric_difference(&b)), sorted(both));
    let mut c = SparSet::new(20);
    c.insert_all(&[3, 5]);
    assert!(c.is_subset(&a));
    assert_eq!(sorted(c.intersection(&a)), vec![3, 5]);
    assert!(!a.is_subset(&b));
}

#[test]
fn set_insert_then_delete_keeps_members() {
    let mut s = SparSet::new(10);
    s.insert_all(&[1, 4, 9]);
    let before = s.as_slice().to_vec();
    assert!(s.insert_one(6));
    assert!(s.delete_one(6));
    assert_eq!(s.as_slice(), before.as_slice());
    assert_eq!(s.len(), 3);
}

#[test]
fn set_insert_delete_all_twice_empties() {
    let mut s = SparSet::new(10);
    s.insert_all(&[2, 7, 7, 3]);
    s.delete_all(&[2, 7, 7, 3]);
    s.delete_all(&[2, 7, 7, 3]);
    assert!(s.is_empty());
}

#[test]
fn set_retain_and_recall_extremes() {
    let mut s = SparSet::from_slice(&[3, 1, 4, 5]);
    s.retain(|_| true);
    assert_eq!(s.as_slice(), &[3, 1, 4, 5]);
    assert!(s.recall(|_| false).is_empty());
    assert_eq!(s.as_slice(), &[3, 1, 4, 5]);
    let all = s.recall(|_| true);
    assert_eq!(sorted(all), vec![1, 3, 4, 5]);
    assert!(s.is_empty());
    let mut t = SparSet::from_slice(&[3, 1]);
    t.retain(|_| false);
    assert!(t.is_empty());
}

#[test]
fn set_key_beyond_capacity_is_absent() {
    let s = SparSet::new(4);
    assert!(!s.contains(5));
    assert!(!s.contains(Key::MAX));
    assert_eq!(s.as_index_one(100), None);
    assert_eq!(MAX_K, 65535);
}

#[test]
fn set_assignment_operators() {
    let mut a = SparSet::from_slice(&[1, 2, 3, 9]);
    let b = SparSet::from_slice(&[3, 4, 5]);
    let mut u = a.clone();
    u.bitor_assign(&b);
    assert_eq!(sorted(u.as_slice().to_vec()), vec![1, 2, 3, 4, 5, 9]);
    let mut i = a.clone();
    i.bitand_assign(&b);
    assert_eq!(sorted(i.as_slice().to_vec()), vec![3]);
    let mut x = a.clone();
    x.bitxor_assign(&b);
    assert_eq!(sorted(x.as_slice().to_vec()), vec![1, 2, 4, 5, 9]);
    a.sub_assign(&b);
    assert_eq!(sorted(a.as_slice().to_vec()), vec![1, 2, 9]);
}
