use pair_sum::{add, two_sum};

#[test]
fn add_small_values() {
    assert_eq!(pair_sum::add(2, 3), 5);
    assert_eq!(add(-7, 7), 0);
    assert_eq!(add(-4, -6), -10);
}

#[test]
fn add_at_range_boundaries() {
    assert_eq!(add(i32::MAX, 0), i32::MAX);
    assert_eq!(add(i32::MIN, 0), i32::MIN);
    assert_eq!(add(i32::MAX, i32::MIN), -1);
}

#[test]
fn empty_input_gives_empty_result() {
    assert_eq!(two_sum(vec![], 0), vec![]);
    assert_eq!(two_sum(vec![], 42), vec![]);
    assert_eq!(two_sum(vec![], -42), vec![]);
}

#[test]
fn single_element_gives_empty_result() {
    assert_eq!(two_sum(vec![5], 10), vec![]);
    assert_eq!(two_sum(vec![0], 0), vec![]);
    assert_eq!(two_sum(vec![-3], -6), vec![]);
}

#[test]
fn distinct_values_two_matches() {
    // Values 1+4 and 2+3 both reach the target; both index pairs appear.
    let result = two_sum(vec![1, 2, 3, 4], 5);
    assert_eq!(result.len(), 2);
    assert!(result.contains(&(0, 3)));
    assert!(result.contains(&(1, 2)));
    assert_eq!(result, vec![(0, 3), (1, 2)]);
}

#[test]
fn duplicates_consumed_once_per_pair() {
    // Four equal elements: the sweep pairs the outermost and then the
    // innermost records, two pairs in all, not the six combinations.
    let result = two_sum(vec![5, 5, 5, 5], 10);
    assert_eq!(result.len(), 2);
    assert_eq!(result, vec![(0, 3), (1, 2)]);
    let values = [5, 5, 5, 5];
    for &(i, j) in &result {
        assert_ne!(i, j);
        assert_eq!(values[i as usize] + values[j as usize], 10);
    }
}

#[test]
fn negative_values_and_target() {
    let values = vec![0, -1, 2, -3, 1];
    let result = two_sum(values.clone(), -2);
    // The elements with values -3 (index 3) and 1 (index 4) must be paired.
    assert!(result.contains(&(3, 4)));
    for &(i, j) in &result {
        assert_ne!(i, j);
        assert_eq!(values[i as usize] + values[j as usize], -2);
    }
}

#[test]
fn no_matching_pair_gives_empty_result() {
    assert_eq!(two_sum(vec![1, 2, 3], 100), vec![]);
    assert_eq!(two_sum(vec![-1, -2, -3], 0), vec![]);
}

#[test]
fn equal_values_single_pair() {
    assert_eq!(two_sum(vec![3, 3, 4], 6), vec![(0, 1)]);
}

#[test]
fn extreme_values_do_not_overflow() {
    // Candidate sums are formed in 64-bit arithmetic, so the extremes of the
    // i32 range are handled without wrapping or panicking.
    assert_eq!(two_sum(vec![i32::MAX, i32::MAX], -2), vec![]);
    assert_eq!(two_sum(vec![i32::MIN, i32::MIN], 0), vec![]);
    assert_eq!(two_sum(vec![i32::MAX, i32::MIN], -1), vec![(1, 0)]);
}

#[test]
fn every_emitted_pair_is_valid() {
    let values = vec![4, -2, 9, 0, 7, -2, 3, 11, -5, 2];
    let target = 7;
    let result = two_sum(values.clone(), target);
    assert!(!result.is_empty());
    for &(i, j) in &result {
        assert_ne!(i, j);
        assert!((i as usize) < values.len());
        assert!((j as usize) < values.len());
        assert_eq!(values[i as usize] + values[j as usize], target);
    }
}

#[test]
fn repeated_calls_agree() {
    let values = vec![8, -1, 3, 6, 0, 5, 3, -1, 9];
    let target = 8;
    let first = two_sum(values.clone(), target);
    let second = two_sum(values.clone(), target);
    assert_eq!(first, second);
    let third = two_sum(values, target);
    assert_eq!(first, third);
}
