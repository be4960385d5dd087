//! The alphabet of 27 symbols and the cipher itself.

use vstd::prelude::*;
use vstd::string::*;
use rand::rngs::StdRng;
use rand::seq::SliceRandom;
use crate::algo::is_symbol;

verus! {

/// The generator that keys and challenges are drawn with.
#[verifier::external_type_specification]
#[verifier::external_body]
pub struct ExStdRng(rand::rngs::StdRng);

/// Whether `c` belongs to the alphabet: a lower-case letter or the space.
pub open spec fn is_alphabet_char(c: char) -> bool {
    ('a' <= c && c <= 'z') || c == ' '
}

/// Whether every character of `text` belongs to the alphabet.
pub open spec fn is_alphabet_text(text: Seq<char>) -> bool {
    forall|i: int| 0 <= i < text.len() ==> is_alphabet_char(#[trigger] text[i])
}

/// The symbol of a character of the alphabet: 0 to 25 for the letters, 26 for
/// the space.
pub open spec fn symbol_of_char(c: char) -> u8 {
    if c == ' ' {
        26u8
    } else {
        (c as u32 - 'a' as u32) as u8
    }
}

/// The character of a symbol.
pub open spec fn char_of_symbol(s: u8) -> char {
    if s == 26 {
        ' '
    } else {
        (s + 97) as char
    }
}

/// The symbols of a text, character by character.
pub open spec fn symbols_of(text: Seq<char>) -> Seq<u8> {
    Seq::new(text.len(), |i: int| symbol_of_char(text[i]))
}

/// The symbol of a character of the alphabet.
pub fn char_to_u8(character: char) -> (symbol: u8)
    requires
        is_alphabet_char(character),
    ensures
        symbol == symbol_of_char(character),
        symbol < 27,
        char_of_symbol(symbol) == character,
{
    if character == ' ' {
        26
    } else {
        (character as u8) - 97
    }
}

/// The character of a symbol.
pub fn u8_to_char(num: u8) -> (character: char)
    requires
        num < 27,
    ensures
        character == char_of_symbol(num),
        is_alphabet_char(character),
        symbol_of_char(character) == num,
{
    if num == 26 {
        ' '
    } else {
        (num + 97) as char
    }
}

/// Whether every character of `text` belongs to the alphabet.
pub fn is_valid_text(text: &str) -> (valid: bool)
    ensures
        valid == is_alphabet_text(text@),
{
    if !text.is_ascii() {
        proof {
            let i = choose|i: int| 0 <= i < text@.len() && !('\0' <= #[trigger] text@[i] <= '\u{7f}');
            assert(!is_alphabet_char(text@[i]));
        }
        return false;
    }
    broadcast use is_ascii_spec_bytes;

    let bytes = text.as_bytes();
    let mut index: usize = 0;
    while index < bytes.len()
        invariant
            index <= bytes@.len(),
            bytes@.len() == text@.len(),
            is_ascii(text),
            forall|i: int| 0 <= i < text@.len() ==> #[trigger] bytes@[i] == text@[i] as u8,
            forall|i: int| 0 <= i < index ==> is_alphabet_char(#[trigger] text@[i]),
        decreases bytes@.len() - index,
    {
        let byte: u8 = bytes[index];
        proof {
            assert('\0' <= text@[index as int] <= '\u{7f}');
        }
        if !((97 <= byte && byte <= 122) || byte == 32) {
            proof {
                assert(!is_alphabet_char(text@[index as int]));
            }
            return false;
        }
        index += 1;
    }
    true
}

/// The symbols of a text of the alphabet.
pub fn string_to_vec(text: &str) -> (symbols: Vec<u8>)
    requires
        is_alphabet_text(text@),
    ensures
        symbols@ == symbols_of(text@),
        forall|i: int| 0 <= i < symbols@.len() ==> #[trigger] symbols@[i] < 27,
{
    broadcast use is_ascii_spec_bytes;

    proof {
        assert forall|i: int| 0 <= i < text@.len() implies '\0' <= #[trigger] text@[i]
            <= '\u{7f}' by {
            assert(is_alphabet_char(text@[i]));
        }
        assert(is_ascii(text));
    }
    let bytes = text.as_bytes();
    let mut symbols: Vec<u8> = Vec::with_capacity(bytes.len());
    let mut index: usize = 0;
    while index < bytes.len()
        invariant
            index <= bytes@.len(),
            bytes@.len() == text@.len(),
            is_alphabet_text(text@),
            forall|i: int| 0 <= i < text@.len() ==> #[trigger] bytes@[i] == text@[i] as u8,
            symbols@.len() == index,
            forall|i: int| 0 <= i < index ==> #[trigger] symbols@[i] == symbol_of_char(text@[i]),
            forall|i: int| 0 <= i < index ==> #[trigger] symbols@[i] < 27,
        decreases bytes@.len() - index,
    {
        let byte: u8 = bytes[index];
        proof {
            assert(is_alphabet_char(text@[index as int]));
        }
        let symbol: u8 = if byte == 32 {
            26
        } else {
            byte - 97
        };
        symbols.push(symbol);
        index += 1;
    }
    proof {
        assert(symbols@ =~= symbols_of(text@));
    }
    symbols
}

/// Whether every entry of `text` is a symbol.
pub open spec fn is_symbol_text(text: Seq<u8>) -> bool {
    forall|i: int| 0 <= i < text.len() ==> #[trigger] text[i] < 27
}

/// A key: every symbol has an image, no two symbols share one, and every
/// symbol is the image of one.
pub open spec fn is_key(key: Seq<u8>) -> bool {
    &&& key.len() == 27
    &&& forall|s: int| is_symbol(s) ==> #[trigger] key[s] < 27
    &&& forall|s: int, t: int|
        is_symbol(s) && is_symbol(t) && s != t ==> #[trigger] key[s] != #[trigger] key[t]
    &&& forall|c: int| #[trigger]
        is_symbol(c) ==> exists|s: int| is_symbol(s) && #[trigger] key[s] == c
}

/// The symbols that are inserted before each plaintext symbol, list by list.
pub open spec fn plan_view(insertions: Seq<Vec<u8>>) -> Seq<Seq<u8>> {
    Seq::new(insertions.len(), |i: int| insertions[i]@)
}

/// The ciphertext of `plaintext` under `key` where, before the image of the
/// plaintext symbol `i`, the symbols `insertions[i]` are inserted.
pub open spec fn noisy_encoding(
    plaintext: Seq<u8>,
    key: Seq<u8>,
    insertions: Seq<Seq<u8>>,
) -> Seq<u8>
    decreases plaintext.len(),
{
    if plaintext.len() == 0 {
        Seq::empty()
    } else {
        noisy_encoding(plaintext.drop_last(), key, insertions.drop_last()) + insertions.last()
            + seq![key[plaintext.last() as int]]
    }
}

/// The characters of a text of symbols.
pub open spec fn chars_of(symbols: Seq<u8>) -> Seq<char> {
    Seq::new(symbols.len(), |i: int| char_of_symbol(symbols[i]))
}

/// Appends one character with `String::push` of the standard library: the
/// text is afterwards what it was, followed by the character.
#[verifier::external_body]
fn push_char(text: &mut String, character: char)
    ensures
        final(text)@ == old(text)@.push(character),
{
    text.push(character);
}

/// The text of a sequence of symbols.
pub fn slice_to_string(vector: &[u8]) -> (text: String)
    requires
        is_symbol_text(vector@),
    ensures
        text@ == chars_of(vector@),
        is_alphabet_text(text@),
        symbols_of(text@) == vector@,
{
    let mut text = String::new();
    let mut index: usize = 0;
    while index < vector.len()
        invariant
            index <= vector@.len(),
            is_symbol_text(vector@),
            text@.len() == index,
            forall|i: int| 0 <= i < index ==> #[trigger] text@[i] == char_of_symbol(vector@[i]),
        decreases vector@.len() - index,
    {
        let character = u8_to_char(vector[index]);
        push_char(&mut text, character);
        index += 1;
    }
    proof {
        assert(text@ =~= chars_of(vector@));
        assert forall|i: int| 0 <= i < text@.len() implies is_alphabet_char(#[trigger] text@[i]) by {
            assert(vector@[i] < 27);
        }
        assert forall|i: int| 0 <= i < text@.len() implies symbol_of_char(text@[i])
            == #[trigger] vector@[i] by {
            assert(vector@[i] < 27);
        }
        assert(symbols_of(text@) =~= vector@);
    }
    text
}

/// Shuffles the 27 symbols in place with `SliceRandom::shuffle` of rand,
/// which only swaps entries: whatever the generator yields, the array holds
/// afterwards what it held before, each value as often as before.
#[verifier::external_body]
fn shuffle_symbols(symbols: &mut [u8; 27], rng: &mut StdRng)
    ensures
        final(symbols)@.to_multiset() == old(symbols)@.to_multiset(),
{
    symbols.shuffle(rng);
}

/// Picks one of the candidates with `SliceRandom::choose` of rand, which
/// returns nothing for an empty list and an entry of the list otherwise.
#[verifier::external_body]
fn choose_candidate<'a>(candidates: &[&'a str], rng: &mut StdRng) -> (chosen: Option<&'a str>)
    ensures
        chosen is None <==> candidates@.len() == 0,
        chosen is Some ==> exists|i: int|
            0 <= i < candidates@.len() && (#[trigger] candidates@[i])@ == chosen->0@,
{
    candidates.choose(rng).copied()
}

/// A key drawn at random: the symbols 0 to 26, shuffled.
pub fn gen_key(rng: &mut StdRng) -> (key: [u8; 27])
    ensures
        is_key(key@),
{
    let mut array = [0u8;27];
    let mut index: usize = 0;
    while index < 27
        invariant
            index <= 27,
            forall|i: int| 0 <= i < index ==> #[trigger] array@[i] == i,
        decreases 27 - index,
    {
        array[index] = index as u8;
        index += 1;
    }
    let ghost sorted = array@;
    shuffle_symbols(&mut array, rng);
    proof {
        broadcast use vstd::seq_lib::to_multiset_len;

        let key = array@;
        sorted.to_multiset_ensures();
        key.to_multiset_ensures();
        assert(sorted.no_duplicates());
        sorted.lemma_multiset_has_no_duplicates();
        key.lemma_multiset_has_no_duplicates_conv();
        assert(key.len() == 27);
        assert forall|s: int| is_symbol(s) implies #[trigger] key[s] < 27 by {
            assert(key.to_multiset().contains(key[s]));
            assert(sorted.contains(key[s]));
        }
        assert forall|c: int| #[trigger] is_symbol(c) implies exists|s: int|
            is_symbol(s) && #[trigger] key[s] == c by {
            assert(sorted[c] == c);
            assert(sorted.to_multiset().contains(c as u8));
            assert(key.contains(c as u8));
            let s = choose|s: int| 0 <= s < key.len() && key[s] == c as u8;
            assert(is_symbol(s) && key[s] == c);
        }
    }
    array
}

/// The ciphertext of `plaintext` under `key`, with the symbols of
/// `insertions[i]` inserted before the image of the plaintext symbol `i`.
pub fn mono_alpha_sub(
    plaintext: &[u8],
    key: &[u8; 27],
    insertions: &[Vec<u8>],
) -> (ciphertext: Vec<u8>)
    requires
        is_symbol_text(plaintext@),
        insertions@.len() == plaintext@.len(),
    ensures
        ciphertext@ == noisy_encoding(plaintext@, key@, plan_view(insertions@)),
{
    let ghost plan = plan_view(insertions@);
    let mut ciphertext: Vec<u8> = Vec::new();
    let mut index: usize = 0;
    while index < plaintext.len()
        invariant
            index <= plaintext@.len(),
            is_symbol_text(plaintext@),
            insertions@.len() == plaintext@.len(),
            plan == plan_view(insertions@),
            ciphertext@ == noisy_encoding(
                plaintext@.take(index as int),
                key@,
                plan.take(index as int),
            ),
        decreases plaintext@.len() - index,
    {
        let ghost before = ciphertext@;
        let noise = &insertions[index];
        let mut turn: usize = 0;
        while turn < noise.len()
            invariant
                turn <= noise@.len(),
                ciphertext@ == before + noise@.take(turn as int),
            decreases noise@.len() - turn,
        {
            ciphertext.push(noise[turn]);
            proof {
                assert(noise@.take(turn as int + 1) =~= noise@.take(turn as int).push(
                    noise@[turn as int],
                ));
            }
            turn += 1;
        }
        let plaintext_char: u8 = plaintext[index];
        let encrypted: u8 = key[plaintext_char as usize];
        ciphertext.push(encrypted);
        proof {
            let grown = plaintext@.take(index as int + 1);
            let grown_plan = plan.take(index as int + 1);
            assert(noise@.take(noise@.len() as int) =~= noise@);
            assert(grown.drop_last() =~= plaintext@.take(index as int));
            assert(grown_plan.drop_last() =~= plan.take(index as int));
            assert(grown_plan.last() == noise@);
            assert(ciphertext@ =~= before + noise@ + seq![key@[grown.last() as int]]);
        }
        index += 1;
    }
    proof {
        assert(plaintext@.take(index as int) =~= plaintext@);
        assert(plan.take(index as int) =~= plan);
    }
    ciphertext
}

/// A challenge: one of the candidates, picked at random, and its ciphertext
/// under a key drawn at random, with the symbols of `insertions` inserted.
/// Both texts are empty where there is no candidate.
pub fn gen_challenge(
    plaintext_candidates: &[&str],
    insertions: &[Vec<u8>],
    rng: &mut StdRng,
) -> (challenge: (String, String))
    requires
        forall|i: int|
            0 <= i < plaintext_candidates@.len() ==> is_alphabet_text(
                (#[trigger] plaintext_candidates@[i])@,
            ) && plaintext_candidates@[i]@.len() == insertions@.len(),
        forall|i: int| 0 <= i < insertions@.len() ==> is_symbol_text((#[trigger] insertions@[i])@),
    ensures
        plaintext_candidates@.len() == 0 ==> challenge.0@.len() == 0 && challenge.1@.len() == 0,
        plaintext_candidates@.len() > 0 ==> is_alphabet_text(challenge.1@) && exists|i: int, key: Seq<u8>|
            0 <= i < plaintext_candidates@.len() && (#[trigger] plaintext_candidates@[i])@
                == challenge.0@ && #[trigger] is_key(key) && symbols_of(challenge.1@)
                == noisy_encoding(symbols_of(challenge.0@), key, plan_view(insertions@)),
{
    let key = gen_key(rng);
    let chosen = match choose_candidate(plaintext_candidates, rng) {
        Some(chosen) => chosen,
        None => {
            return (String::new(), String::new());
        },
    };
    let ghost which = choose|i: int|
        0 <= i < plaintext_candidates@.len() && (#[trigger] plaintext_candidates@[i])@ == chosen@;
    let plaintext_vec = string_to_vec(chosen);
    let result = mono_alpha_sub(plaintext_vec.as_slice(), &key, insertions);
    proof {
        assert(is_alphabet_text(plaintext_candidates@[which]@));
        lemma_encoding_symbols(plaintext_vec@, key@, plan_view(insertions@));
    }
    let ciphertext = slice_to_string(result.as_slice());
    proof {
        assert(is_key(key@));
    }
    (chosen.to_owned(), ciphertext)
}

/// A ciphertext made of symbols only is made of symbols only.
pub proof fn lemma_encoding_symbols(plaintext: Seq<u8>, key: Seq<u8>, insertions: Seq<Seq<u8>>)
    requires
        is_key(key),
        is_symbol_text(plaintext),
        insertions.len() == plaintext.len(),
        forall|i: int| 0 <= i < insertions.len() ==> is_symbol_text(#[trigger] insertions[i]),
    ensures
        is_symbol_text(noisy_encoding(plaintext, key, insertions)),
    decreases plaintext.len(),
{
    if plaintext.len() > 0 {
        let shorter = insertions.drop_last();
        assert forall|i: int| 0 <= i < shorter.len() implies is_symbol_text(#[trigger] shorter[i]) by {
            assert(is_symbol_text(insertions[i]));
        }
        assert(is_symbol_text(plaintext.drop_last())) by {
            assert forall|i: int| 0 <= i < plaintext.drop_last().len() implies #[trigger] plaintext.drop_last()[i] < 27 by {
                assert(plaintext[i] < 27);
            }
        }
        lemma_encoding_symbols(plaintext.drop_last(), key, shorter);
        let before = noisy_encoding(plaintext.drop_last(), key, shorter);
        let noise = insertions.last();
        assert(is_symbol_text(noise));
        assert(plaintext.last() < 27);
        assert(is_symbol(plaintext.last() as int));
        let all = noisy_encoding(plaintext, key, insertions);
        assert forall|i: int| 0 <= i < all.len() implies #[trigger] all[i] < 27 by {
            if i < before.len() {
                assert(all[i] == before[i]);
            } else if i < before.len() + noise.len() {
                assert(all[i] == noise[i - before.len()]);
            } else {
                assert(all[i] == key[plaintext.last() as int]);
            }
        }
    }
}

} // verus!
