use crypto_proj1_rs::algo::{apply_cryptanalysis, disprove_plaintext, to_position_list};
use crypto_proj1_rs::encryption::string_to_vec;

fn refutes(candidate: &str, ciphertext: &str) -> bool {
    let plain = to_position_list(&string_to_vec(candidate));
    let cipher = to_position_list(&string_to_vec(ciphertext));
    disprove_plaintext(&plain, &cipher, ciphertext.len() - candidate.len())
}

#[test]
fn substitution_only_scenario() {
    // "cat" under c -> x, a -> y, t -> z.
    assert!(!refutes("cat", "xyz"));
    assert_eq!(apply_cryptanalysis(&["cat", "dog"], "xyz"), Some(0));
}

#[test]
fn same_shape_is_not_told_apart() {
    // "dog" has three different symbols as "xyz" has, so it stays possible,
    // and the first possible candidate is chosen.
    assert!(!refutes("dog", "xyz"));
    assert_eq!(apply_cryptanalysis(&["dog", "cat"], "xyz"), Some(0));
}

#[test]
fn row_without_partner_refutes() {
    // 'x' occurs twice in "xxy"; no symbol of "abc" occurs twice, and no
    // symbol that is absent from it can stand behind an 'x'.
    assert!(refutes("abc", "xxy"));
}

#[test]
fn conflicting_forced_pairs_refute() {
    // 'a' and 'b' are each left with 'y' as the only symbol that can stand
    // for them.
    assert!(refutes("abab", "zyyyx"));
    assert!(refutes("bbaac", "zyyxzyx"));
    assert!(refutes("bcac", "xxyxyx"));
}

#[test]
fn two_cipher_symbols_forced_onto_one_plaintext_symbol_refute() {
    // 'w' and 'x' are each left with 'a' as the only symbol they can stand
    // for.
    assert!(refutes("cdcda", "wzxzwx"));
    assert!(refutes("dadac", "zwxwzx"));
}

#[test]
fn closest_histogram_wins() {
    // All three are possible; the third lies closest.
    assert_eq!(apply_cryptanalysis(&["aaa", "cba", "aba"], "xxzxyy"), Some(2));
    // The second is refuted; of the other two the third lies closer.
    assert!(refutes("ccaba", "xzzyxzz"));
    assert_eq!(apply_cryptanalysis(&["accba", "ccaba", "babaa"], "xzzyxzz"), Some(2));
    assert_eq!(apply_cryptanalysis(&["babcca", "accbac", "bcccbc"], "xyyzyzyzx"), Some(1));
}

#[test]
fn refutation_is_repeatable() {
    for _ in 0..3 {
        assert!(refutes("abab", "zyyyx"));
        assert!(!refutes("abc", "bqcd"));
    }
}

#[test]
fn repeated_symbol_tells_candidates_apart() {
    // "aab" -> "xxy": "abc" has no symbol that occurs twice.
    assert!(refutes("abc", "xxy"));
    assert!(!refutes("aab", "xxy"));
    assert_eq!(apply_cryptanalysis(&["abc", "aab"], "xxy"), Some(1));
}

#[test]
fn true_plaintext_survives_insertions() {
    // "hello world" under a shift by one, with 'q' inserted twice.
    assert!(!refutes("hello world", "ifqmmp axpsqme"));
    assert!(!refutes("abc", "bqcd"));
}

#[test]
fn empty_candidate_list_gives_no_decision() {
    assert_eq!(apply_cryptanalysis(&[], "abc"), None);
}

#[test]
fn mixed_lengths_give_no_decision() {
    assert_eq!(apply_cryptanalysis(&["cat", "horse"], "xyzzy"), None);
}

#[test]
fn foreign_characters_give_no_decision() {
    assert_eq!(apply_cryptanalysis(&["cat", "Dog"], "xyz"), None);
    assert_eq!(apply_cryptanalysis(&["cat", "dog"], "x-z"), None);
    assert_eq!(apply_cryptanalysis(&["cat", "d\u{e9}g"], "xyz"), None);
}

#[test]
fn short_ciphertext_gives_no_decision() {
    assert_eq!(apply_cryptanalysis(&["cat", "dog"], "xy"), None);
}

#[test]
fn all_refuted_gives_no_decision() {
    // Both candidates have three different symbols, the ciphertext one.
    assert_eq!(apply_cryptanalysis(&["cat", "dog"], "xxx"), None);
}

#[test]
fn equal_scores_go_to_the_first() {
    assert_eq!(apply_cryptanalysis(&["cat", "dog"], "xyz"), Some(0));
    assert_eq!(apply_cryptanalysis(&["ab", "ba", "cd"], "xy"), Some(0));
}

#[test]
fn empty_texts_choose_the_first() {
    assert_eq!(apply_cryptanalysis(&["", ""], ""), Some(0));
    assert_eq!(apply_cryptanalysis(&[""], ""), Some(0));
}
