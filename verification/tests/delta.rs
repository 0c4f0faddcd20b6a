use delta_inc::diff::{Diff, TransformError, TryTransform, VecDelta};
use delta_inc::region::Region;
use delta_inc::vec::{insert, replace, Rewrite};

// ===============================================================
// Region
// ===============================================================

#[test]
fn test_region_01() {
    let r = Region::new(2, 4);
    assert_eq!(r.offset, 2);
    assert_eq!(r.length, 4);
    assert_eq!(r.as_range(), 2..6);
    assert_eq!(Region::from_range(2..6), r);
}

#[test]
fn test_region_order_01() {
    // Ordered: [0,2) lies before [3,4).
    assert!(Region::new(0, 2) < Region::new(3, 1));
    assert!(Region::new(3, 1) > Region::new(0, 2));
    // Touching regions are ordered too.
    assert!(Region::new(0, 2) < Region::new(2, 1));
    // Overlapping regions are incomparable.
    let a = Region::new(0, 2);
    let b = Region::new(1, 3);
    assert_eq!(a.partial_cmp(&b), None);
    assert!(!(a < b) && !(a > b) && a != b);
    // Equality is structural.
    assert_eq!(Region::new(1, 1), Region::new(1, 1));
}

// ===============================================================
// VecDelta
// ===============================================================

#[test]
fn test_vecdelta_get_01() {
    let mut vd = VecDelta::<u8>::new();
    assert!(vd.is_empty());
    vd.push_raw(1..3, &[7, 8, 9]);
    assert!(!vd.is_empty());
    let rw = vd.get(0).unwrap();
    assert_eq!(rw.region, Region::new(1, 2));
    assert_eq!(rw.data, &[7, 8, 9]);
    assert!(vd.get(1).is_none());
}

#[test]
fn test_vecdelta_order_01() {
    // Rewrites keep their order, disjoint with a gap of at least one.
    let mut vd = VecDelta::<u8>::new();
    vd.push_raw(0..2, &[1]);
    vd.push_raw(3..3, &[2]);
    vd.push_raw(5..6, &[3]);
    let r0 = vd.get(0).unwrap().region;
    let r1 = vd.get(1).unwrap().region;
    let r2 = vd.get(2).unwrap().region;
    assert!(r0.offset + r0.length < r1.offset);
    assert!(r1.offset + r1.length < r2.offset);
}

#[test]
fn test_vecdelta_arena_01() {
    // Payloads come back exactly as appended, in order: the payload
    // slices partition the arena contiguously.
    let mut vd = VecDelta::<u8>::new();
    vd.push_raw(0..1, &[1, 2]);
    vd.push_raw(2..4, &[]);
    vd.push_raw(6..7, &[3]);
    assert_eq!(vd.get(0).unwrap().data, &[1, 2]);
    assert_eq!(vd.get(1).unwrap().data, &[] as &[u8]);
    assert_eq!(vd.get(2).unwrap().data, &[3]);
}

#[test]
fn test_vecdelta_iter_01() {
    let mut vd = VecDelta::<u8>::new();
    vd.push_raw(0..1, &[1, 2]);
    vd.push_raw(2..4, &[3]);
    let mut it = vd.iter();
    let rw0 = it.next().unwrap();
    assert_eq!(rw0.region, Region::new(0, 1));
    assert_eq!(rw0.data, &[1, 2]);
    let rw1 = it.next().unwrap();
    assert_eq!(rw1.region, Region::new(2, 2));
    assert_eq!(rw1.data, &[3]);
    assert!(it.next().is_none());
    // Restartable: a fresh iterator starts over.
    let mut it2 = vd.iter();
    assert_eq!(it2.next().unwrap().region, Region::new(0, 1));
}

#[test]
fn test_vecdelta_malformed_01() {
    // A rewrite reaching past the end of the target fails, leaving the
    // earlier rewrites applied.
    let mut vd = VecDelta::<i32>::new();
    vd.push_raw(0..1, &[9]);
    vd.push_raw(5..7, &[1]);
    let mut v = vec![1, 2, 3];
    assert_eq!(vd.transform(&mut v), Err(TransformError::MalformedDelta));
    assert_eq!(v, vec![9, 2, 3]);
}

// ===============================================================
// Rewrite-list deltas
// ===============================================================

#[test]
fn test_try_transform_01() {
    let d = replace(5..7, vec![1]);
    let mut v = vec![1, 2, 3];
    assert_eq!(v.try_transform(&d), Err(TransformError::OutOfRange));
    assert_eq!(v, vec![1, 2, 3]);
    let d2 = replace(0..1, vec![4]);
    assert_eq!(v.try_transform(&d2), Ok(()));
    assert_eq!(v, vec![4, 2, 3]);
}

#[test]
fn test_rewrite_map_01() {
    let rw = Rewrite::new(Region::new(1, 2), vec![10, 20, 30]);
    let mapped = rw.map(|_x| false);
    assert_eq!(mapped.region, Region::new(1, 2));
    assert_eq!(mapped.data, vec![false, false, false]);
}

#[test]
fn test_delta_iter_01() {
    let mut d = insert(0, vec![1]);
    d.and_replace(2..3, vec![5]);
    let rws = d.iter();
    assert_eq!(rws.len(), 2);
    assert_eq!(rws[0].region, Region::new(0, 0));
    assert_eq!(rws[0].data, vec![1]);
    assert_eq!(rws[1].region, Region::new(2, 1));
    assert_eq!(rws[1].data, vec![5]);
}

// ===============================================================
// Diff edge cases
// ===============================================================

#[test]
fn test_diff_empty_01() {
    // Both sides empty: empty delta.
    let a: [u8; 0] = [];
    let d = a.diff(&&a[..]);
    assert_eq!(d.len(), 0);
}

#[test]
fn test_diff_empty_02() {
    // Empty to non-empty: one whole-sequence rewrite.
    let a: [u8; 0] = [];
    let b = [1u8, 2];
    let d = a[..].diff(&&b[..]);
    assert_eq!(d.len(), 1);
    let mut v: Vec<u8> = Vec::new();
    assert!(d.transform(&mut v).is_ok());
    assert_eq!(v, vec![1, 2]);
}

#[test]
fn test_diff_empty_03() {
    // Non-empty to empty: one whole-sequence removal.
    let a = [1u8, 2];
    let b: [u8; 0] = [];
    let d = a[..].diff(&&b[..]);
    assert_eq!(d.len(), 1);
    let mut v = vec![1u8, 2];
    assert!(d.transform(&mut v).is_ok());
    assert_eq!(v, Vec::<u8>::new());
}

#[test]
fn test_diff_overrun_01() {
    // A diff may extract rewrites whose target regions meet: here the
    // first spans the two dropped positions and reaches past the start
    // of the second.  Left-to-right application still lands exactly.
    let d = [1, 2, 3, 4][..].diff(&&[3, 5][..]);
    assert_eq!(d.len(), 2);
    assert_eq!(d.get(0).unwrap().region, Region::new(0, 2));
    assert_eq!(d.get(0).unwrap().data, &[] as &[i32]);
    assert_eq!(d.get(1).unwrap().region, Region::new(1, 1));
    assert_eq!(d.get(1).unwrap().data, &[5]);
    let mut v = vec![1, 2, 3, 4];
    assert!(d.transform(&mut v).is_ok());
    assert_eq!(v, vec![3, 5]);
}
