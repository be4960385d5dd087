use crypto_proj1_rs::algo::{disprove_pair, test_alignment, test_direct_length};

#[test]
fn alignment_rejects_late_plaintext_occurrence() {
    // Plaintext "aba": 'a' at 0 and 2. The ciphertext symbol stands at 0 and 1.
    assert!(disprove_pair(&[0, 1], &[0, 2], 0));
    assert!(test_alignment(&[0, 1], &[0, 2], 0));
    assert!(!test_direct_length(2, 2, 0));
}

#[test]
fn population_rejects_surplus_occurrences() {
    // Plaintext "aab": 'a' twice. The ciphertext symbol occurs three times.
    assert!(disprove_pair(&[0, 1, 2], &[0, 1], 0));
    assert!(test_direct_length(3, 2, 0));
}

#[test]
fn population_rejects_missing_occurrences() {
    assert!(test_direct_length(1, 2, 5));
    assert!(disprove_pair(&[0], &[0, 1], 5));
}

#[test]
fn population_bounds_are_inclusive() {
    assert!(!test_direct_length(2, 2, 0));
    assert!(!test_direct_length(5, 2, 3));
    assert!(test_direct_length(6, 2, 3));
    assert!(!test_direct_length(0, 0, 0));
}

#[test]
fn population_survives_huge_noise() {
    assert!(!test_direct_length(usize::MAX, 1, usize::MAX));
    assert!(test_direct_length(usize::MAX, 0, usize::MAX - 1));
}

#[test]
fn alignment_accepts_identical_lists() {
    assert!(!test_alignment(&[0, 3, 7], &[0, 3, 7], 0));
    assert!(!disprove_pair(&[0, 3, 7], &[0, 3, 7], 0));
}

#[test]
fn alignment_accepts_shift_within_noise() {
    // One insertion before the first occurrence shifts both by one.
    assert!(!test_alignment(&[1, 4], &[0, 3], 1));
    // A shift of two is more than one insertion explains.
    assert!(test_alignment(&[2, 5], &[0, 3], 1));
}

#[test]
fn alignment_never_moves_back() {
    // The first occurrence is shifted by two, so the second cannot be
    // shifted by one only.
    assert!(test_alignment(&[2, 4], &[0, 3], 2));
    assert!(!test_alignment(&[2, 5], &[0, 3], 2));
}

#[test]
fn alignment_skips_occurrences_left_of_window() {
    // 0 is skipped for the plaintext occurrence at 1, which takes 2.
    assert!(!test_alignment(&[0, 2], &[1], 1));
    // Skipped occurrences are not offered again.
    assert!(test_alignment(&[0, 2], &[1, 0], 1));
}

#[test]
fn alignment_with_empty_lists() {
    assert!(!test_alignment(&[], &[], 0));
    assert!(!test_alignment(&[1, 2], &[], 0));
    assert!(test_alignment(&[], &[0], 3));
}

#[test]
fn alignment_near_largest_index() {
    assert!(!test_alignment(&[usize::MAX], &[usize::MAX - 1], usize::MAX));
    assert!(test_alignment(&[usize::MAX], &[0], usize::MAX - 1));
}
