use rust_algorithm_club::searching::{
    binary_search, exponential_search, interpolation_search, linear_search,
};
use rust_algorithm_club::sorting::{
    binary_insertion_sort, bubble_sort, bubble_sort_optimized, heapsort, insertion_sort,
    mergesort, mergesort_bottom_up, mergesort_recursive, quicksort, quicksort_3way, quicksort_hoare, quicksort_lomuto,
    quicksort_manual_tco, quicksort_optimized, selection_sort, shellsort,
};

fn check_sort(sort: impl Fn(&mut Vec<i32>)) {
    let cases: [(&[i32], &[i32]); 8] = [
        (&[], &[]),
        (&[1], &[1]),
        (&[1, 2, 3, 4, 5], &[1, 2, 3, 4, 5]),
        (&[5, 4, 3, 2, 1], &[1, 2, 3, 4, 5]),
        (&[1, 1, 1, 1, 1], &[1, 1, 1, 1, 1]),
        (&[1, 5, 3, 3, 4, 1, 4], &[1, 1, 3, 3, 4, 4, 5]),
        (&[8, 7, 1, 2, 4, 6, 5, 3], &[1, 2, 3, 4, 5, 6, 7, 8]),
        (&[7, 1, 2, 4, 6, 5, 3], &[1, 2, 3, 4, 5, 6, 7]),
    ];
    for (arr, res) in cases {
        let mut v = arr.to_vec();
        sort(&mut v);
        assert_eq!(v, res.to_vec());
    }
}

#[test]
fn bubble_sort_cases() {
    check_sort(bubble_sort);
}

#[test]
fn bubble_sort_optimized_cases() {
    check_sort(bubble_sort_optimized);
}

#[test]
fn insertion_sort_cases() {
    check_sort(insertion_sort);
}

#[test]
fn binary_insertion_sort_cases() {
    check_sort(binary_insertion_sort);
}

#[test]
fn selection_sort_cases() {
    check_sort(selection_sort);
}

#[test]
fn shellsort_cases() {
    check_sort(shellsort);
}

#[test]
fn mergesort_cases() {
    check_sort(mergesort);
}

#[test]
fn mergesort_recursive_cases() {
    check_sort(mergesort_recursive);
}

#[test]
fn mergesort_bottom_up_cases() {
    check_sort(mergesort_bottom_up);
}

#[test]
fn quicksort_cases() {
    check_sort(quicksort);
}

#[test]
fn quicksort_optimized_cases() {
    check_sort(quicksort_optimized);
}

#[test]
fn quicksort_lomuto_cases() {
    check_sort(quicksort_lomuto);
}

#[test]
fn quicksort_manual_tco_cases() {
    check_sort(quicksort_manual_tco);
}

#[test]
fn quicksort_3way_cases() {
    check_sort(quicksort_3way);
}

#[test]
fn quicksort_hoare_cases() {
    check_sort(quicksort_hoare);
}

#[test]
fn heapsort_cases() {
    check_sort(heapsort);
}

#[test]
fn search() {
    // Empty array.
    let arr = [];
    assert_eq!(binary_search(&arr, &0), Err(0));
    let arr = [1];
    assert_eq!(binary_search(&arr, &1), Ok(0));
    let arr = [1, 2];
    assert_eq!(binary_search(&arr, &2), Ok(1));
    let arr = [1, 2];
    assert_eq!(binary_search(&arr, &3), Err(2));
    let arr = [1, 2, 3, 4];
    assert_eq!(binary_search(&arr, &4), Ok(3));
    let arr = [1, 2, 4, 5];
    assert_eq!(binary_search(&arr, &3), Err(2));
}

fn check_sorted_search(f: impl Fn(&[i32], &i32) -> Result<usize, usize>) {
    let arr = [1, 3, 5, 7, 9, 11];
    for (i, v) in arr.iter().enumerate() {
        assert_eq!(f(&arr, v), Ok(i));
    }
    assert_eq!(f(&arr, &0), Err(0));
    assert_eq!(f(&arr, &2), Err(1));
    assert_eq!(f(&arr, &10), Err(5));
    assert_eq!(f(&arr, &42), Err(6));
    assert_eq!(f(&[], &7), Err(0));
}

#[test]
fn binary_search_cases() {
    check_sorted_search(binary_search);
}

#[test]
fn exponential_search_cases() {
    check_sorted_search(exponential_search);
}

#[test]
fn interpolation_search_cases() {
    check_sorted_search(interpolation_search);
}

#[test]
fn linear_search_cases() {
    let arr = [4, 1, 9, 2, 1];
    assert_eq!(linear_search(&arr, &4), Some(0));
    assert_eq!(linear_search(&arr, &1), Some(1));
    assert_eq!(linear_search(&arr, &2), Some(3));
    assert_eq!(linear_search(&arr, &7), None);
    assert_eq!(linear_search(&[], &7), None);
}
