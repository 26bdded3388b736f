use hampel::filter::{filter_centre, hampel_filter_by};
use hampel::median::{median_by, sort_by_gt};
use hampel::window::{filter_applies, window_of, window_size};

const MAD_SCALE: f64 = 1.4826;

fn greater(a: f64, b: f64) -> bool {
    a > b
}

fn abs_diff(a: f64, b: f64) -> f64 {
    (a - b).abs()
}

fn hampel(data: &[f64], half_window: usize, n_sigma: f64) -> Vec<f64> {
    let exceeds = move |d: f64, mad: f64| d > n_sigma * MAD_SCALE * mad;
    hampel_filter_by(&data.to_vec(), half_window, &greater, &abs_diff, &exceeds)
}

fn median(values: &[f64]) -> f64 {
    median_by(&values.to_vec(), &greater)
}

#[test]
fn median_of_odd_length_is_middle() {
    assert_eq!(median(&[1.0, 3.0, 2.0, 5.0, 4.0]), 3.0);
}

#[test]
fn median_of_even_length_is_upper_middle() {
    assert_eq!(median(&[1.0, 2.0, 3.0, 4.0]), 3.0);
    assert_eq!(median(&[4.0, 1.0, 3.0, 2.0]), 3.0);
}

#[test]
fn median_of_single_sample() {
    assert_eq!(median(&[-7.5]), -7.5);
}

#[test]
fn median_is_one_of_the_samples() {
    let values = [0.25, -1.5, 9.0, 3.75, -0.5, 2.0];
    let m = median(&values);
    assert_eq!(m, 2.0);
    assert!(values.contains(&m));
}

#[test]
fn median_leaves_input_alone() {
    let values = vec![5.0, 1.0, 4.0];
    let m = median_by(&values, &greater);
    assert_eq!(m, 4.0);
    assert_eq!(values, vec![5.0, 1.0, 4.0]);
}

#[test]
fn sort_orders_samples() {
    let mut v = vec![3.0, -1.0, 2.5, 2.5, 0.0, 10.0, -4.0];
    sort_by_gt(&mut v, &greater);
    assert_eq!(v, vec![-4.0, -1.0, 0.0, 2.5, 2.5, 3.0, 10.0]);
}

#[test]
fn sort_handles_empty_and_single() {
    let mut e: Vec<f64> = Vec::new();
    sort_by_gt(&mut e, &greater);
    assert!(e.is_empty());
    let mut one = vec![1.0];
    sort_by_gt(&mut one, &greater);
    assert_eq!(one, vec![1.0]);
}

#[test]
fn spike_is_replaced_by_window_median() {
    let data = [1.0, 1.0, 1.0, 1.0, 100.0, 1.0, 1.0, 1.0, 1.0];
    assert_eq!(hampel(&data, 2, 3.0), vec![1.0; 9]);
}

#[test]
fn series_shorter_than_window_is_unchanged() {
    assert_eq!(hampel(&[5.0, 5.0], 1, 1.0), vec![5.0, 5.0]);
    assert_eq!(hampel(&[1.0, 100.0, 1.0, 1.0], 2, 0.0), vec![1.0, 100.0, 1.0, 1.0]);
}

#[test]
fn empty_series_gives_empty() {
    assert!(hampel(&[], 0, 3.0).is_empty());
    assert!(hampel(&[], 4, 0.0).is_empty());
    assert!(hampel(&[], usize::MAX, 1.0).is_empty());
}

#[test]
fn zero_half_window_is_unchanged() {
    let data = [1.0, 100.0, 1.0, -50.0, 1.0];
    assert_eq!(hampel(&data, 0, 0.0), data.to_vec());
}

#[test]
fn huge_half_window_is_unchanged() {
    let data = [1.0, 100.0, 1.0];
    assert_eq!(hampel(&data, usize::MAX, 1.0), data.to_vec());
    assert_eq!(hampel(&data, usize::MAX / 2, 1.0), data.to_vec());
}

#[test]
fn boundary_samples_are_kept() {
    let data = [100.0, -100.0, 1.0, 1.0, 1.0, 50.0, -50.0];
    let out = hampel(&data, 2, 3.0);
    assert_eq!(out.len(), data.len());
    assert_eq!(out[0], 100.0);
    assert_eq!(out[1], -100.0);
    assert_eq!(out[5], 50.0);
    assert_eq!(out[6], -50.0);
}

#[test]
fn clean_series_is_unchanged() {
    let data: Vec<f64> = (1..=10).map(|k| k as f64).collect();
    assert_eq!(hampel(&data, 2, 3.0), data);
}

#[test]
fn small_deviation_is_kept_at_usual_threshold() {
    let data = [1.0, 2.0, 1.5, 2.5, 1.0];
    assert_eq!(hampel(&data, 1, 3.0), data.to_vec());
}

#[test]
fn zero_sigma_replaces_any_deviation() {
    let data = [1.0, 2.0, 1.5, 2.5, 1.0];
    assert_eq!(hampel(&data, 1, 0.0), vec![1.0, 1.5, 2.0, 1.5, 1.0]);
}

#[test]
fn zero_sigma_keeps_sample_equal_to_median() {
    let data = [1.0, 1.0, 1.0, 1.0];
    assert_eq!(hampel(&data, 1, 0.0), data.to_vec());
}

#[test]
fn negative_sigma_replaces_every_interior_sample() {
    let data = [3.0, 1.0, 2.0, 5.0];
    assert_eq!(hampel(&data, 1, -1.0), vec![3.0, 2.0, 2.0, 5.0]);
}

#[test]
fn windows_are_read_from_the_input() {
    // The replacement at position 3 must not affect the window at position 4.
    let data = [0.0, 0.0, 0.0, 9.0, 9.0, 9.0, 9.0];
    assert_eq!(hampel(&data, 1, 0.0), vec![0.0, 0.0, 0.0, 9.0, 9.0, 9.0, 9.0]);
    let data = [0.0, 10.0, 0.0, 10.0, 0.0];
    assert_eq!(hampel(&data, 1, 0.0), vec![0.0, 0.0, 10.0, 0.0, 0.0]);
}

#[test]
fn length_is_preserved() {
    for n in 0..20usize {
        let data: Vec<f64> = (0..n).map(|k| ((k * 7) % 5) as f64 * 1.5).collect();
        for hw in 0..5usize {
            assert_eq!(hampel(&data, hw, 2.0).len(), n);
        }
    }
}

#[test]
fn not_a_number_does_not_stop_the_filter() {
    let data = [1.0, f64::NAN, 1.0, 1.0, 100.0, 1.0];
    let out = hampel(&data, 1, 3.0);
    assert_eq!(out.len(), data.len());
    assert_eq!(out[0], 1.0);
    assert_eq!(out[5], 1.0);
    assert_eq!(out[4], 1.0);
}

#[test]
fn window_size_saturates() {
    assert_eq!(window_size(0), 1);
    assert_eq!(window_size(3), 7);
    assert_eq!(window_size(usize::MAX / 2), usize::MAX);
    assert_eq!(window_size(usize::MAX), usize::MAX);
}

#[test]
fn filter_applies_needs_a_full_window() {
    assert!(!filter_applies(2, 1));
    assert!(filter_applies(3, 1));
    assert!(!filter_applies(5, 0));
    assert!(!filter_applies(0, 0));
    assert!(!filter_applies(100, usize::MAX));
}

#[test]
fn window_of_copies_the_neighbourhood() {
    let data = vec![0, 1, 2, 3, 4, 5, 6];
    assert_eq!(window_of(&data, 3, 2), vec![1, 2, 3, 4, 5]);
    assert_eq!(window_of(&data, 1, 1), vec![0, 1, 2]);
}

#[test]
fn filter_centre_replaces_outlying_centre() {
    let exceeds = |d: f64, mad: f64| d > 3.0 * MAD_SCALE * mad;
    let w = vec![1.0, 2.0, 40.0, 3.0, 2.5];
    assert_eq!(filter_centre(&w, &greater, &abs_diff, &exceeds), 2.5);
    let w = vec![1.0, 2.0, 2.2, 3.0, 2.5];
    assert_eq!(filter_centre(&w, &greater, &abs_diff, &exceeds), 2.2);
}

#[test]
fn integer_samples_are_filtered_too() {
    let data: Vec<i64> = vec![10, 11, 10, 500, 10, 12, 11];
    let gt = |a: i64, b: i64| a > b;
    let dev = |a: i64, b: i64| (a - b).abs();
    let exceeds = |d: i64, mad: i64| 10000 * d > 3 * 14826 * mad;
    assert_eq!(hampel_filter_by(&data, 1, &gt, &dev, &exceeds), vec![10, 10, 10, 10, 10, 12, 11]);
}

#[test]
fn same_input_gives_same_output() {
    let data = [3.0, 8.0, -2.0, 4.5, 4.5, 30.0, 1.0, 0.5, 2.0];
    let first = hampel(&data, 2, 1.5);
    let second = hampel(&data, 2, 1.5);
    assert_eq!(first, second);
    assert_eq!(first.len(), data.len());
}

#[test]
fn input_is_not_modified() {
    let data = vec![1.0, 1.0, 50.0, 1.0, 1.0];
    let exceeds = |d: f64, mad: f64| d > 3.0 * MAD_SCALE * mad;
    let out = hampel_filter_by(&data, 1, &greater, &abs_diff, &exceeds);
    assert_eq!(out, vec![1.0, 1.0, 1.0, 1.0, 1.0]);
    assert_eq!(data, vec![1.0, 1.0, 50.0, 1.0, 1.0]);
}
