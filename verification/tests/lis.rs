use stage0::lis::{find_greatest_index_leq, longest_positive_increasing_subsequence};

#[test]
fn greatest_index_on_sorted_values() {
    let seq = [1isize, 3, 5, 7];
    assert_eq!(find_greatest_index_leq(&seq, 0), -1);
    assert_eq!(find_greatest_index_leq(&seq, 1), 0);
    assert_eq!(find_greatest_index_leq(&seq, 2), 0);
    assert_eq!(find_greatest_index_leq(&seq, 5), 2);
    assert_eq!(find_greatest_index_leq(&seq, 6), 2);
    assert_eq!(find_greatest_index_leq(&seq, 7), 3);
    assert_eq!(find_greatest_index_leq(&seq, 100), 3);
}

#[test]
fn greatest_index_on_nothing() {
    assert_eq!(find_greatest_index_leq(&[], 4), -1);
}

#[test]
fn greatest_index_among_equal_values() {
    assert_eq!(find_greatest_index_leq(&[2, 2, 2], 2), 2);
    assert_eq!(find_greatest_index_leq(&[2, 2, 2], 1), -1);
}

#[test]
fn longest_run_of_a_sorted_list_is_the_list() {
    assert_eq!(longest_positive_increasing_subsequence(&[0, 1, 2, 3], 0), vec![0, 1, 2, 3]);
}

#[test]
fn longest_run_of_a_reversed_list_is_one_element() {
    assert_eq!(longest_positive_increasing_subsequence(&[3, 2, 1, 0], 0), vec![3]);
}

#[test]
fn longest_run_passes_over_missing_positions() {
    assert_eq!(longest_positive_increasing_subsequence(&[-1, 4, -1, 5, 2, -1, 6], 0), vec![1, 3, 6]);
}

#[test]
fn longest_run_starts_at_new_start() {
    assert_eq!(longest_positive_increasing_subsequence(&[0, 1, 5, 3, 4], 2), vec![3, 4]);
    assert_eq!(longest_positive_increasing_subsequence(&[0, 1, 2], 3), Vec::<isize>::new());
    assert_eq!(longest_positive_increasing_subsequence(&[0, 1, 2], 7), Vec::<isize>::new());
}

#[test]
fn longest_run_of_nothing_is_empty() {
    assert_eq!(longest_positive_increasing_subsequence(&[], 0), Vec::<isize>::new());
    assert_eq!(longest_positive_increasing_subsequence(&[-1, -1], 0), Vec::<isize>::new());
}

#[test]
fn longest_run_is_strict_and_keeps_the_earlier_of_equals() {
    assert_eq!(longest_positive_increasing_subsequence(&[2, 2, 2], 0), vec![0]);
    assert_eq!(longest_positive_increasing_subsequence(&[1, 3, 3, 4], 0), vec![0, 1, 3]);
}

#[test]
fn longest_run_of_a_textbook_case() {
    let values = [10isize, 9, 2, 5, 3, 7, 101, 18];
    let run = longest_positive_increasing_subsequence(&values, 0);
    assert_eq!(run, vec![2, 4, 5, 7]);
}

#[test]
fn longest_run_is_as_long_as_the_best_found_by_search() {
    let values = [4isize, 0, 6, 1, 7, 2, 5, 3];
    let run = longest_positive_increasing_subsequence(&values, 0);
    let mut best = 0usize;
    for picked in 0u32..(1 << values.len()) {
        let chosen: Vec<isize> = (0..values.len()).filter(|i| picked & (1 << i) != 0).map(|i| values[i]).collect();
        if chosen.windows(2).all(|w| w[0] < w[1]) {
            best = best.max(chosen.len());
        }
    }
    assert_eq!(run.len(), best);
    assert!(run.windows(2).all(|w| w[0] < w[1] && values[w[0] as usize] < values[w[1] as usize]));
}

#[test]
fn longest_run_ends_on_the_lowest_values() {
    assert_eq!(longest_positive_increasing_subsequence(&[2, 1, 3], 0), vec![1, 2]);
    assert_eq!(longest_positive_increasing_subsequence(&[1, 5, 2, 6, 3], 0), vec![0, 2, 4]);
    assert_eq!(longest_positive_increasing_subsequence(&[5, 1, 5, 1, 6], 0), vec![1, 2, 4]);
}
