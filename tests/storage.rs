use sprs::map::SparMap;
use sprs::set::SparSet;
use sprs::storage::{align_to_offsets, BufMut, Mode, ValMut};

#[test]
fn set_file_layout() {
    assert_eq!(SparSet::file_size(3), 18);
    let (len, sparse, dense) = SparSet::regions(3, Mode::Shared);
    assert_eq!(len.offset, 0);
    assert_eq!(len.len(), 2);
    assert_eq!((sparse.offset, sparse.len), (2, 8));
    assert_eq!((dense.offset, dense.len), (10, 8));
    assert_eq!(dense.elems(), 4);
    assert_eq!(dense.mode, Mode::Shared);
}

#[test]
fn map_file_layout_pads_to_value_size() {
    assert_eq!(SparMap::<u64>::file_size(3), 56);
    let vals = SparMap::<u64>::vals_region(3, Mode::Private);
    assert_eq!(vals.offset, 24);
    assert_eq!(vals.len, 32);
    assert_eq!(vals.elems(), 4);
    assert_eq!(vals.mode, Mode::Private);
}

#[test]
fn whole_values_in_units() {
    assert_eq!(align_to_offsets(10, 4, 2), 5);
    assert_eq!(align_to_offsets(7, 2, 1), 3);
    assert_eq!(align_to_offsets(9, 6, 4), 6);
    assert_eq!(BufMut::<u32>::new(Mode::Shared, 0, 10).elems(), 2);
    assert_eq!(ValMut::<u64>::new(Mode::Private, 4).len(), 8);
}

#[test]
fn raw_parts_round_trip() {
    let mut s = SparSet::new(5);
    s.insert_all(&[4, 1, 3]);
    let (len, sparse, dense) = s.raw_parts();
    let t = SparSet::from_raw(len, sparse.to_vec(), dense.to_vec()).unwrap();
    assert_eq!(t.as_slice(), &[4, 1, 3]);
    assert!(t.contains(1) && !t.contains(2));
}

#[test]
fn raw_parts_are_checked() {
    assert!(SparSet::from_raw(0, vec![7, 7], vec![9, 9]).is_some());
    assert!(SparSet::from_raw(1, vec![0, 0], vec![1, 0]).is_some());
    assert!(SparSet::from_raw(1, vec![0, 1], vec![1, 0]).is_none());
    assert!(SparSet::from_raw(1, vec![0, 0], vec![2, 0]).is_none());
    assert!(SparSet::from_raw(3, vec![0, 0], vec![0, 1]).is_none());
    assert!(SparSet::from_raw(0, vec![0], vec![0, 0]).is_none());
    assert!(SparSet::from_raw(0, vec![], vec![]).is_none());
    let s = SparSet::from_raw(2, vec![1, 0, 5], vec![1, 0, 9]).unwrap();
    assert_eq!(s.as_slice(), &[1, 0]);
}

#[test]
fn map_file_layout_without_padding_when_aligned() {
    assert_eq!(SparMap::<u16>::file_size(3), 26);
    let vals = SparMap::<u16>::vals_region(3, Mode::Shared);
    assert_eq!(vals.offset, 18);
    assert_eq!(vals.len, 8);
}

#[test]
fn map_raw_parts_round_trip() {
    let mut m = SparMap::new(6);
    m.insert_all(&[(5, 50u32), (2, 20), (6, 60)]);
    let (keys, vals) = m.raw_parts();
    let again = SparMap::from_raw(keys.clone(), vals.to_vec()).unwrap();
    assert_eq!(again.iter(), vec![(5, 50), (2, 20), (6, 60)]);
    assert!(SparMap::from_raw(keys.clone(), vec![1u32]).is_none());
}
