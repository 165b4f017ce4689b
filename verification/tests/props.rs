// Concrete checks of the library's stated laws, the documented scenarios,
// and the boundary inputs: empty vectors, single elements, and vectors made
// entirely of duplicates.

use array_tool::string::ToGraphemeBytesIter;
use array_tool::vec::{Intersect, Join, Times, Union, Uniq};

#[test]
fn unique_is_idempotent_on_values() {
    let a = vec![1, 2, 1, 3, 2, 3, 4, 5, 6];
    assert_eq!(a.unique().unique(), a.unique());
    let b: Vec<i32> = vec![];
    assert_eq!(b.unique().unique(), b.unique());
    let c = vec![7, 7, 7, 7];
    assert_eq!(c.unique().unique(), c.unique());
}

#[test]
fn unique_output_is_unique_on_values() {
    assert!(vec![1, 2, 1, 3, 2, 3, 4, 5, 6].unique().is_unique());
    assert!(vec![7, 7, 7, 7].unique().is_unique());
    let b: Vec<i32> = vec![];
    assert!(b.unique().is_unique());
}

#[test]
fn unique_preserves_first_occurrence_order() {
    assert_eq!(vec![1, 2, 1, 3, 2, 3, 4, 5, 6].unique(), vec![1, 2, 3, 4, 5, 6]);
    assert_eq!(vec![5, 3, 5, 1, 3].unique(), vec![5, 3, 1]);
}

#[test]
fn uniques_partitions_the_symmetric_difference() {
    let a = vec![1, 2, 2, 9];
    let b = vec![2, 3, 9, 9, 4];
    let sides = array_tool::uniques(a.clone(), b.clone());
    // Values only in `a` land in the first side, values only in `b` in the
    // second, and shared values in neither.
    assert_eq!(sides[0], vec![1]);
    assert_eq!(sides[1], vec![3, 4]);
    for x in sides[0].iter() {
        assert!(a.unique().contains(x) && !b.contains(x));
    }
    for x in sides[1].iter() {
        assert!(b.unique().contains(x) && !a.contains(x));
    }
}

#[test]
fn sorted_uniq_agrees_with_unordered_uniq() {
    let a = vec![1, 2, 3, 4, 5, 6];
    let b = vec![1, 2, 5, 7, 9];
    let merged = array_tool::sorted_vec::SortedUniq::uniq_via(&a, b.clone(), |l: &i32, r: &i32| l == r, |l, r| l < r);
    let unordered = Uniq::uniq(&a, b);
    assert_eq!(merged, unordered);
    assert_eq!(merged, vec![3, 4, 6]);
}

#[test]
fn intersect_dedups_and_keeps_order() {
    let out = vec![3, 1, 1, 3, 5].intersect(vec![1, 2, 3]);
    assert_eq!(out, vec![3, 1]);
    assert!(out.is_unique());
}

#[test]
fn scenario_unique() {
    assert_eq!(vec![1, 2, 1, 3, 2, 3, 4, 5, 6].unique(), vec![1, 2, 3, 4, 5, 6]);
}

#[test]
fn scenario_uniq() {
    assert_eq!(vec![1, 2, 3, 4, 5, 6].uniq(vec![1, 2]), vec![3, 4, 5, 6]);
    let none: Vec<i32> = vec![];
    assert_eq!(vec![1, 2, 3].uniq(vec![1, 2, 3, 4, 5]), none);
}

#[test]
fn scenario_sorted_uniq_via_ascending() {
    assert_eq!(
        array_tool::sorted_vec::SortedUniq::uniq_via(
            &vec![1, 2, 3, 4, 5, 6],
            vec![1, 2, 5, 7, 9],
            |l: &i32, r: &i32| l == r,
            |l: &i32, r: &i32| l < r
        ),
        vec![3, 4, 6]
    );
}

#[test]
fn scenario_sorted_uniq_via_descending() {
    assert_eq!(
        array_tool::sorted_vec::SortedUniq::uniq_via(
            &vec![6, 5, 4, 3, 2, 1],
            vec![9, 7, 5, 3, 1],
            |l: &i32, r: &i32| l == r,
            |l: &i32, r: &i32| l > r
        ),
        vec![6, 4, 2]
    );
}

#[test]
fn scenario_times() {
    assert_eq!(vec![1, 2, 3].times(3), vec![1, 2, 3, 1, 2, 3, 1, 2, 3]);
    let empty: Vec<i32> = vec![];
    assert_eq!(empty.times(0), vec![]);
    assert_eq!(empty.times(7), vec![]);
    assert_eq!(vec![1, 2].times(0), vec![]);
}

#[test]
fn empty_and_singleton_vectors_are_fine() {
    let empty: Vec<i32> = vec![];
    assert_eq!(empty.unique(), vec![]);
    assert!(empty.is_unique());
    assert_eq!(empty.uniq(vec![1, 2]), vec![]);
    assert_eq!(vec![5].unique(), vec![5]);
    assert!(vec![5].is_unique());
    assert_eq!(empty.intersect(vec![1]), vec![]);
    assert_eq!(vec![1].intersect(vec![]), vec![]);
    assert_eq!(empty.union(vec![]), vec![]);
    assert_eq!(empty.union(vec![2, 2]), vec![2]);
}

#[test]
fn all_duplicates_collapse() {
    assert_eq!(vec![4, 4, 4, 4].unique(), vec![4]);
    assert_eq!(array_tool::sorted_vec::SortedUniq::unique(&vec![4, 4, 4, 4]), vec![4]);
    assert!(!array_tool::sorted_vec::SortedUniq::is_unique(&vec![4, 4]));
    assert_eq!(vec![4, 4, 4].intersect(vec![4, 4]), vec![4]);
}

#[test]
fn sorted_ops_handle_empty_sides() {
    let empty: Vec<i32> = vec![];
    assert_eq!(array_tool::sorted_vec::SortedUniq::uniq(&vec![1, 2, 3], vec![]), vec![1, 2, 3]);
    assert_eq!(array_tool::sorted_vec::SortedUniq::uniq(&empty, vec![1, 2]), vec![]);
    assert_eq!(array_tool::sorted_vec::SortedUniq::unique(&empty), vec![]);
    assert!(array_tool::sorted_vec::SortedUniq::is_unique(&empty));
    assert_eq!(array_tool::sorted_vec::SortedIntersect::intersect(&vec![1, 2], vec![]), vec![]);
    assert_eq!(array_tool::sorted_vec::SortedIntersect::intersect(&empty, vec![1, 2]), vec![]);
}

#[test]
fn join_with_one_and_no_elements() {
    let empty: Vec<i32> = vec![];
    assert_eq!(empty.join(","), "");
    assert_eq!(vec![7].join(","), "7");
    assert_eq!(vec!["x", "y"].join(" - "), "x - y");
}

#[test]
fn grapheme_iter_reports_length() {
    let giter = "a\u{e9}c".grapheme_bytes_iter();
    assert_eq!(giter.len(), 3);
}
