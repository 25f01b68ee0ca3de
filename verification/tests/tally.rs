use iron_dice::tally::{sort_ascending, sum, sum_largest, sum_middle, sum_smallest};

#[test]
fn sum_adds_everything() {
    assert_eq!(sum(&vec![]), 0);
    assert_eq!(sum(&vec![3, -5, 10]), 8);
    assert_eq!(sum(&vec![i64::MAX, i64::MAX]), 2 * (i64::MAX as i128));
    assert_eq!(sum(&vec![i64::MIN, i64::MIN]), 2 * (i64::MIN as i128));
}

#[test]
fn sort_ascending_orders_and_keeps_duplicates() {
    assert_eq!(sort_ascending(&vec![3, 1, 2, 3, -1]), vec![-1, 1, 2, 3, 3]);
    assert_eq!(sort_ascending(&vec![]), Vec::<i64>::new());
    assert_eq!(sort_ascending(&vec![5]), vec![5]);
    assert_eq!(sort_ascending(&vec![2, 2, 2]), vec![2, 2, 2]);
    assert_eq!(sort_ascending(&vec![6, 5, 4, 3, 2, 1]), vec![1, 2, 3, 4, 5, 6]);
}

#[test]
fn sum_largest_takes_from_the_top() {
    let values = vec![4, 1, 6, 3, 6];
    assert_eq!(sum_largest(&values, 0), 0);
    assert_eq!(sum_largest(&values, 1), 6);
    assert_eq!(sum_largest(&values, 2), 12);
    assert_eq!(sum_largest(&values, 3), 16);
    assert_eq!(sum_largest(&values, 5), 20);
    assert_eq!(sum_largest(&values, 6), 20);
    assert_eq!(sum_largest(&values, u32::MAX), 20);
    assert_eq!(sum_largest(&vec![], 3), 0);
}

#[test]
fn sum_smallest_takes_from_the_bottom() {
    let values = vec![4, 1, 6, 3, 6];
    assert_eq!(sum_smallest(&values, 0), 0);
    assert_eq!(sum_smallest(&values, 1), 1);
    assert_eq!(sum_smallest(&values, 2), 4);
    assert_eq!(sum_smallest(&values, 5), 20);
    assert_eq!(sum_smallest(&values, 9), 20);
    assert_eq!(sum_smallest(&vec![-2, -7], 1), -7);
}

#[test]
fn sum_middle_passes_over_half_of_the_rest() {
    // ascending: 1 3 4 6 6
    let values = vec![4, 1, 6, 3, 6];
    assert_eq!(sum_middle(&values, 0), 0);
    assert_eq!(sum_middle(&values, 1), 4);
    assert_eq!(sum_middle(&values, 2), 7);
    assert_eq!(sum_middle(&values, 3), 13);
    assert_eq!(sum_middle(&values, 4), 14);
    assert_eq!(sum_middle(&values, 5), 20);
    assert_eq!(sum_middle(&values, 6), 20);
    assert_eq!(sum_middle(&vec![], 1), 0);
}
