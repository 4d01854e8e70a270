use r_approx::median::{median, sorted_numbers};

#[test]
fn median_of_nothing_is_none() {
    assert_eq!(median(vec![]), None);
}

#[test]
fn median_of_an_odd_count_is_the_middle() {
    assert_eq!(median(vec![7]), Some(7));
    assert_eq!(median(vec![3, 1, 2]), Some(2));
    assert_eq!(median(vec![5, -1, 5, 0, 9]), Some(5));
}

#[test]
fn median_of_an_even_count_is_the_upper_middle() {
    assert_eq!(median(vec![4, 1, 3, 2]), Some(3));
    assert_eq!(median(vec![1, 2]), Some(2));
    assert_eq!(median(vec![i32::MAX, i32::MAX]), Some(i32::MAX));
    assert_eq!(median(vec![i32::MIN, i32::MAX]), Some(i32::MAX));
}

#[test]
fn numbers_are_sorted_in_ascending_order() {
    assert_eq!(sorted_numbers(&vec![3, -1, 3, 0, 2]), vec![-1, 0, 2, 3, 3]);
    assert_eq!(sorted_numbers(&vec![]), vec![]);
}
