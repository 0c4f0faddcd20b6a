use delta_inc::diff::{longest_common_subsequence, Diff};
use std::fmt::Debug;

// Construct diff between `from` and `to`, which is expected to produce
// a delta with a given number of rewrites.  Check that applying this
// delta to `from` produces `to`.
fn check<T: Copy + Debug + PartialEq>(from: &[T], to: &[T], num: usize) {
    let mut vec = from.to_vec();
    // Generate diff between `from` and `to`.
    let delta = from.diff(&to);
    // Check number of rewrites matches expected
    assert_eq!(delta.len(), num);
    // Apply delta to original sequence
    let r = delta.transform(&mut vec);
    assert!(r.is_ok());
    // Check matches target sequence
    assert_eq!(&vec, to);
}

#[test]
fn test_01() {
    // Empty delta
    check(&[1, 2, 3], &[1, 2, 3], 0);
}

#[test]
fn test_02() {
    // Addition (1 rewrite)
    check(&[1, 2, 3], &[4, 1, 2, 3], 1);
}

#[test]
fn test_03() {
    // Addition (1 rewrite)
    check(&[1, 2, 3], &[1, 4, 2, 3], 1);
}

#[test]
fn test_04() {
    // Addition (1 rewrite)
    check(&[1, 2, 3], &[1, 2, 4, 3], 1);
}

#[test]
fn test_05() {
    // Addition (1 rewrite)
    check(&[1, 2, 3], &[1, 2, 3, 4], 1);
}

#[test]
fn test_06() {
    // Addition (1 rewrite)
    check(&[1, 2, 3], &[4, 5, 1, 2, 3], 1);
}

#[test]
fn test_07() {
    // Addition (1 rewrite)
    check(&[1, 2, 3], &[1, 4, 5, 2, 3], 1);
}

#[test]
fn test_08() {
    // Addition (1 rewrite)
    check(&[1, 2, 3], &[1, 2, 4, 5, 3], 1);
}

#[test]
fn test_09() {
    // Addition (1 rewrite)
    check(&[1, 2, 3], &[1, 2, 3, 4, 5], 1);
}

#[test]
fn test_10() {
    // Replace (1 rewrite)
    check(&[1, 2, 3], &[4, 2, 3], 1);
}

#[test]
fn test_11() {
    // Replace (1 rewrite)
    check(&[1, 2, 3], &[1, 4, 3], 1);
}

#[test]
fn test_12() {
    // Replace (1 rewrite)
    check(&[1, 2, 3], &[1, 2, 4], 1);
}

#[test]
fn test_13() {
    // Replace (1 rewrite)
    check(&[1, 2, 3], &[4, 5, 2, 3], 1);
}

#[test]
fn test_14() {
    // Replace (1 rewrite)
    check(&[1, 2, 3], &[1, 4, 5, 3], 1);
}

#[test]
fn test_15() {
    // Replace (1 rewrite)
    check(&[1, 2, 3], &[1, 2, 4, 5], 1);
}

#[test]
fn test_16() {
    // Removal (1 rewrite)
    check(&[1, 2, 3], &[2, 3], 1);
}

#[test]
fn test_17() {
    // Removal (1 rewrite)
    check(&[1, 2, 3], &[1, 3], 1);
}

#[test]
fn test_18() {
    // Removal (1 rewrite)
    check(&[1, 2, 3], &[1, 2], 1);
}

#[test]
fn test_19() {
    // Removal (1 rewrite)
    check(&[1, 2, 3], &[3], 1);
}

#[test]
fn test_20() {
    // Removal (1 rewrite)
    check(&[1, 2, 3], &[1], 1);
}

#[test]
fn test_21() {
    // Rewrite everything
    check(&[1, 2, 3], &[4, 5, 6], 1);
}

#[test]
fn test_22() {
    // Rewrite everything
    check(&[1, 2, 3], &[4, 5, 6, 7], 1);
}

#[test]
fn test_23() {
    // Rewrite everything
    check(&[1, 2, 3], &[4, 5], 1);
}

// Double rewrites

#[test]
fn test_40() {
    // Double rewrite
    check(&[1, 2, 3], &[4, 1, 2, 5, 6], 2);
}

#[test]
fn test_41() {
    // Double rewrite
    check(&[1, 2, 3], &[1, 4, 2, 5, 6, 3], 2);
}

// ===================================================================
// LCS Tests
// ===================================================================

#[test]
fn lcs_test_01() {
    let v = longest_common_subsequence::<usize>(&[], &[]);
    assert!(v.is_empty());
}

#[test]
fn lcs_test_02() {
    let v = longest_common_subsequence(&[0], &[]);
    assert_eq!(v, vec![None]);
}

#[test]
fn lcs_test_03() {
    let v = longest_common_subsequence(&[], &[0]);
    assert!(v.is_empty());
}

#[test]
fn lcs_test_04() {
    let v = longest_common_subsequence(&[0], &[0]);
    assert_eq!(v, vec![Some(0)]);
}

#[test]
fn lcs_test_05() {
    let v = longest_common_subsequence(&[0], &[1]);
    assert_eq!(v, vec![None]);
}

#[test]
fn lcs_test_06() {
    let v = longest_common_subsequence(&[0, 1], &[0]);
    assert_eq!(v, vec![Some(0), None]);
}

#[test]
fn lcs_test_07() {
    let v = longest_common_subsequence(&[1, 0], &[0]);
    assert_eq!(v, vec![None, Some(0)]);
}

#[test]
fn lcs_test_08() {
    let v = longest_common_subsequence(&[0, 0], &[0, 0]);
    assert_eq!(v, vec![Some(0), Some(1)]);
}

#[test]
fn lcs_test_09() {
    let v = longest_common_subsequence(&[0, 1], &[0, 0]);
    assert_eq!(v, vec![Some(0), None]);
}

#[test]
fn lcs_test_10() {
    let v = longest_common_subsequence(&[1, 0], &[0, 0]);
    assert_eq!(v, vec![None, Some(0)]);
}

#[test]
fn lcs_test_11() {
    let v = longest_common_subsequence(&[1, 1], &[0, 0]);
    assert_eq!(v, vec![None, None]);
}

#[test]
fn lcs_test_20() {
    let v = longest_common_subsequence(
        &['a', 'b', 'b', 'c', 'b', 'c', 'd'],
        &['b', 'b', 'e', 'c', 'd', 'e'],
    );
    assert_eq!(v, vec![None, Some(0), Some(1), Some(3), None, None, Some(4)]);
}
