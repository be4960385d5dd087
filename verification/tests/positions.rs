use crypto_proj1_rs::algo::frequency::{
    calculate_overall_difference, convert_to_frequency_distribution,
};
use crypto_proj1_rs::algo::to_position_list;
use crypto_proj1_rs::encryption::string_to_vec;

#[test]
fn position_lists_of_a_text() {
    let lists = to_position_list(&string_to_vec("aba c"));
    assert_eq!(lists.len(), 27);
    assert_eq!(lists[0], vec![0, 2]);
    assert_eq!(lists[1], vec![1]);
    assert_eq!(lists[2], vec![4]);
    assert_eq!(lists[26], vec![3]);
    assert!(lists[3].is_empty());
}

#[test]
fn position_lists_of_the_empty_text() {
    let lists = to_position_list(&[]);
    assert_eq!(lists.len(), 27);
    assert!(lists.iter().all(|list| list.is_empty()));
}

#[test]
fn position_lists_cover_every_index_once() {
    let text = string_to_vec("the quick brown fox");
    let lists = to_position_list(&text);
    let mut seen = vec![false; text.len()];
    for (symbol, list) in lists.iter().enumerate() {
        for window in list.windows(2) {
            assert!(window[0] < window[1]);
        }
        for &index in list {
            assert_eq!(text[index] as usize, symbol);
            assert!(!seen[index]);
            seen[index] = true;
        }
    }
    assert!(seen.iter().all(|&s| s));
}

#[test]
fn histogram_is_scaled_and_sorted() {
    // "aab" with two insertions expected: 'a' 27 * 2 + 2, 'b' 27 + 2, the
    // other 25 symbols 2 each.
    let lists = to_position_list(&string_to_vec("aab"));
    let histogram = convert_to_frequency_distribution(&lists, 2);
    let mut expected = vec![2u64; 25];
    expected.push(29);
    expected.push(56);
    assert_eq!(histogram, expected);
}

#[test]
fn histogram_without_noise() {
    let lists = to_position_list(&string_to_vec("zza"));
    let histogram = convert_to_frequency_distribution(&lists, 0);
    let mut expected = vec![0u64; 25];
    expected.push(27);
    expected.push(54);
    assert_eq!(histogram, expected);
}

#[test]
fn histogram_matches_the_frequencies() {
    // In units of 1 / (27 * (length + noise)): "aab" with noise 2, length 3.
    let lists = to_position_list(&string_to_vec("aab"));
    let histogram = convert_to_frequency_distribution(&lists, 2);
    let unit = 27.0 * (3.0 + 2.0);
    let frequency_a = (2.0 + 2.0 / 27.0) / (3.0 + 2.0);
    assert!((histogram[26] as f64 / unit - frequency_a).abs() < 1e-12);
}

#[test]
fn tie_break_prefers_the_equal_histogram() {
    // The histograms 0.1, 0.2, 0.7 and 0.0, 0.3, 0.7 in tenths: the scores
    // are 0 and 0.02, which is 2 in hundredths.
    let ciphertext = [1u64, 2, 7];
    let first = calculate_overall_difference(&[1, 2, 7], &ciphertext);
    let second = calculate_overall_difference(&[0, 3, 7], &ciphertext);
    assert_eq!(first, 0);
    assert_eq!(second, 2);
    assert!(first < second);
}

#[test]
fn difference_is_symmetric_and_stops_at_the_shorter() {
    assert_eq!(calculate_overall_difference(&[5, 1], &[2, 3]), 13);
    assert_eq!(calculate_overall_difference(&[2, 3], &[5, 1]), 13);
    assert_eq!(calculate_overall_difference(&[5, 1, 100], &[2, 3]), 13);
    assert_eq!(calculate_overall_difference(&[], &[2, 3]), 0);
}

#[test]
fn difference_of_extreme_values() {
    let gap = u64::MAX as u128;
    assert_eq!(calculate_overall_difference(&[u64::MAX], &[0]), gap * gap);
}
