use crypto_proj1_rs::algo::{apply_cryptanalysis, disprove_plaintext, to_position_list};
use crypto_proj1_rs::encryption::{
    char_to_u8, gen_challenge, gen_key, is_valid_text, mono_alpha_sub, slice_to_string,
    string_to_vec, u8_to_char,
};
use rand::rngs::StdRng;
use rand::{Rng, SeedableRng};

fn identity_key() -> [u8; 27] {
    let mut key = [0u8; 27];
    for (symbol, entry) in key.iter_mut().enumerate() {
        *entry = symbol as u8;
    }
    key
}

fn draw_insertions(rng: &mut StdRng, length: usize, one_in: u32) -> Vec<Vec<u8>> {
    let mut plan = Vec::new();
    for _ in 0..length {
        let mut noise = Vec::new();
        while rng.gen_ratio(1, one_in) {
            noise.push(rng.gen_range(0..27));
        }
        plan.push(noise);
    }
    plan
}

#[test]
fn symbols_and_characters() {
    assert_eq!(char_to_u8('a'), 0);
    assert_eq!(char_to_u8('z'), 25);
    assert_eq!(char_to_u8(' '), 26);
    assert_eq!(u8_to_char(0), 'a');
    assert_eq!(u8_to_char(25), 'z');
    assert_eq!(u8_to_char(26), ' ');
    for symbol in 0..27 {
        assert_eq!(char_to_u8(u8_to_char(symbol)), symbol);
    }
}

#[test]
fn texts_and_symbols() {
    assert_eq!(string_to_vec("az b"), vec![0, 25, 26, 1]);
    assert_eq!(string_to_vec(""), Vec::<u8>::new());
    assert_eq!(slice_to_string(&[0, 25, 26, 1]), "az b");
    assert_eq!(slice_to_string(&[]), "");
    assert_eq!(slice_to_string(&string_to_vec("hello world")), "hello world");
}

#[test]
fn alphabet_is_closed() {
    assert!(is_valid_text("abc xyz"));
    assert!(is_valid_text(""));
    assert!(!is_valid_text("Abc"));
    assert!(!is_valid_text("a-b"));
    assert!(!is_valid_text("a\nb"));
    assert!(!is_valid_text("`"));
    assert!(!is_valid_text("{"));
    assert!(!is_valid_text("caf\u{e9}"));
}

#[test]
fn substitution_without_noise() {
    // c -> x, a -> y, t -> z.
    let mut key = identity_key();
    key[2] = 23;
    key[23] = 2;
    key[0] = 24;
    key[24] = 0;
    key[19] = 25;
    key[25] = 19;
    let plan = vec![Vec::new(), Vec::new(), Vec::new()];
    let ciphertext = mono_alpha_sub(&string_to_vec("cat"), &key, &plan);
    assert_eq!(slice_to_string(&ciphertext), "xyz");
}

#[test]
fn substitution_with_insertions() {
    let key = identity_key();
    let plan = vec![vec![25, 25], Vec::new(), vec![26]];
    let ciphertext = mono_alpha_sub(&string_to_vec("abc"), &key, &plan);
    assert_eq!(slice_to_string(&ciphertext), "zzab c");
    assert!(mono_alpha_sub(&[], &key, &[]).is_empty());
}

#[test]
fn key_is_a_shuffled_alphabet() {
    let mut rng = StdRng::from_seed([42; 32]);
    let key = gen_key(&mut rng);
    let mut sorted = key.to_vec();
    sorted.sort();
    assert_eq!(sorted, identity_key().to_vec());
    assert_ne!(key, identity_key());
}

#[test]
fn true_plaintext_is_never_refuted() {
    let mut rng = StdRng::from_seed([7; 32]);
    let texts = ["the quick brown fox jumps", "aaaa bbbb cccc", "z", "", "banana bandana"];
    for round in 0..40 {
        let text = texts[round % texts.len()];
        let plaintext = string_to_vec(text);
        let key = gen_key(&mut rng);
        let plan = draw_insertions(&mut rng, plaintext.len(), 2 + (round as u32 % 5));
        let ciphertext = mono_alpha_sub(&plaintext, &key, &plan);
        let inserted: usize = plan.iter().map(|noise| noise.len()).sum();
        assert_eq!(ciphertext.len(), plaintext.len() + inserted);
        let refuted = disprove_plaintext(
            &to_position_list(&plaintext),
            &to_position_list(&ciphertext),
            ciphertext.len() - plaintext.len(),
        );
        assert!(!refuted);
    }
}

#[test]
fn challenge_comes_from_a_candidate() {
    let mut rng = StdRng::from_seed([3; 32]);
    let candidates = ["abcabcabc", "aaaaaaaab", "abcdefghi"];
    for _ in 0..10 {
        let plan = draw_insertions(&mut rng, 9, 4);
        let (plaintext, ciphertext) = gen_challenge(&candidates, &plan, &mut rng);
        assert!(candidates.contains(&plaintext.as_str()));
        let inserted: usize = plan.iter().map(|noise| noise.len()).sum();
        assert_eq!(ciphertext.len(), 9 + inserted);
        assert!(is_valid_text(&ciphertext));
        let decision = apply_cryptanalysis(&candidates, &ciphertext);
        assert!(decision.is_some());
    }
}

#[test]
fn challenge_without_candidates_is_empty() {
    let mut rng = StdRng::from_seed([3; 32]);
    let (plaintext, ciphertext) = gen_challenge(&[], &[], &mut rng);
    assert_eq!(plaintext, "");
    assert_eq!(ciphertext, "");
}
