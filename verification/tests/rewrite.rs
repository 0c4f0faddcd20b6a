use delta_inc::diff::Rewrite;
use delta_inc::region::Region;

#[test]
fn rewrite_test_vec_01() {
    let items = vec![1, 2, 3];
    let rw: Rewrite<i32, Vec<i32>> = Rewrite::new(Region::new(0, 1), items);
    assert_eq!(rw.region.offset, 0);
}

#[test]
fn test_slice_01() {
    let items = vec![1, 2, 3];
    let rw: Rewrite<i32, &Vec<i32>> = Rewrite::new(Region::new(0, 1), &items);
    assert_eq!(rw.region.offset, 0);
}
