//! What the disproof engine guarantees: the tests never rule out the pair of
//! a symbol and its image under the key, and so never refute the plaintext
//! that the ciphertext was made from.

use vstd::prelude::*;
use crate::encryption::{
    is_alphabet_char, is_alphabet_text, is_key, is_symbol_text, noisy_encoding, symbols_of,
};
use crate::algo::{
    alignment_blocked, axioms_conflict, candidate_refuted, column_axiom, column_eliminated,
    disproof_matrix, is_axiom, is_symbol, lemma_matrix_cell, lemma_positions_count_bounded,
    made_from_candidate, pair_disproved, population_mismatch, position_lists, positions_of,
    refuted, row_axiom, row_eliminated, table_refuted,
};

verus! {

/// The entries of `s` grow from left to right.
pub open spec fn strictly_increasing(s: Seq<usize>) -> bool {
    forall|i: int, j: int| 0 <= i < j < s.len() ==> #[trigger] s[i] < #[trigger] s[j]
}

/// A way to place every occurrence of the plaintext symbol on an occurrence
/// of the ciphertext symbol: `places[j]` is the index, in the list of
/// ciphertext positions, that the plaintext occurrence `j` is placed on.
/// Later occurrences are placed further right, every occurrence is shifted
/// to the right by at most `noise`, and a later one by no less than an
/// earlier one.
pub open spec fn is_alignment(
    cipher_positions: Seq<usize>,
    plain_positions: Seq<usize>,
    noise: int,
    places: Seq<int>,
) -> bool {
    &&& places.len() == plain_positions.len()
    &&& forall|j: int| 0 <= j < places.len() ==> 0 <= #[trigger] places[j] < cipher_positions.len()
    &&& forall|i: int, j: int|
        0 <= i < j < places.len() ==> #[trigger] places[i] < #[trigger] places[j]
    &&& forall|j: int|
        0 <= j < places.len() ==> plain_positions[j] <= cipher_positions[#[trigger] places[j]]
            <= plain_positions[j] + noise
    &&& forall|i: int, j: int|
        0 <= i < j < places.len() ==> cipher_positions[#[trigger] places[i]] - plain_positions[i]
            <= cipher_positions[#[trigger] places[j]] - plain_positions[j]
}

/// `ciphertext` is `plaintext` under `key` with symbols inserted:
/// `places[i]` is where the image of the plaintext symbol `i` stands in the
/// ciphertext, and the images stand in the order of the plaintext. What
/// stands elsewhere in the ciphertext is noise, and may be any symbol.
pub open spec fn is_noisy_encoding(
    plaintext: Seq<u8>,
    ciphertext: Seq<u8>,
    key: Seq<u8>,
    places: Seq<int>,
) -> bool {
    &&& places.len() == plaintext.len()
    &&& forall|i: int| 0 <= i < places.len() ==> 0 <= #[trigger] places[i] < ciphertext.len()
    &&& forall|i: int, j: int|
        0 <= i < j < places.len() ==> #[trigger] places[i] < #[trigger] places[j]
    &&& forall|i: int|
        0 <= i < places.len() ==> ciphertext[#[trigger] places[i]] == key[plaintext[i] as int]
}

/// The population test rules a pair out whenever the ciphertext symbol
/// occurs less often than the plaintext symbol, or more often than the
/// plaintext symbol and the noise together.
pub proof fn lemma_population_mismatch_disproves(
    plaintext: Seq<u8>,
    ciphertext: Seq<u8>,
    plain_symbol: u8,
    cipher_symbol: u8,
    noise: int,
)
    requires
        positions_of(ciphertext, cipher_symbol).len() < positions_of(plaintext, plain_symbol).len()
            || positions_of(ciphertext, cipher_symbol).len() > positions_of(
            plaintext,
            plain_symbol,
        ).len() + noise,
    ensures
        pair_disproved(
            positions_of(ciphertext, cipher_symbol),
            positions_of(plaintext, plain_symbol),
            noise,
        ),
{
}

/// A candidate is refuted as soon as one ciphertext symbol can stand for no
/// plaintext symbol.
pub proof fn lemma_eliminated_row_refutes(
    plain_lists: Seq<Seq<usize>>,
    cipher_lists: Seq<Seq<usize>>,
    noise: int,
    c: int,
)
    requires
        is_symbol(c),
        forall|p: int|
            is_symbol(p) ==> pair_disproved(cipher_lists[c], #[trigger] plain_lists[p], noise),
    ensures
        refuted(plain_lists, cipher_lists, noise),
{
    let m = disproof_matrix(cipher_lists, plain_lists, noise);
    assert forall|p: int| is_symbol(p) implies #[trigger] m[c][p] by {
        lemma_matrix_cell(cipher_lists, plain_lists, noise, c, p);
        assert(pair_disproved(cipher_lists[c], plain_lists[p], noise));
    }
    assert(row_eliminated(m, c));
}

/// A candidate is refuted as soon as no ciphertext symbol can stand for one
/// plaintext symbol.
pub proof fn lemma_eliminated_column_refutes(
    plain_lists: Seq<Seq<usize>>,
    cipher_lists: Seq<Seq<usize>>,
    noise: int,
    p: int,
)
    requires
        is_symbol(p),
        forall|c: int|
            is_symbol(c) ==> pair_disproved(#[trigger] cipher_lists[c], plain_lists[p], noise),
    ensures
        refuted(plain_lists, cipher_lists, noise),
{
    let m = disproof_matrix(cipher_lists, plain_lists, noise);
    assert forall|c: int| is_symbol(c) implies #[trigger] m[c][p] by {
        lemma_matrix_cell(cipher_lists, plain_lists, noise, c, p);
        assert(pair_disproved(cipher_lists[c], plain_lists[p], noise));
    }
    assert(column_eliminated(m, p));
}

/// A candidate is refuted when two different ciphertext symbols are each
/// left with the same plaintext symbol `p` as their only possible partner.
pub proof fn lemma_shared_plaintext_symbol_refutes(
    plain_lists: Seq<Seq<usize>>,
    cipher_lists: Seq<Seq<usize>>,
    noise: int,
    ca: int,
    cb: int,
    p: int,
)
    requires
        is_symbol(ca),
        is_symbol(cb),
        is_symbol(p),
        ca != cb,
        forall|q: int|
            is_symbol(q) && q != p ==> pair_disproved(
                cipher_lists[ca],
                #[trigger] plain_lists[q],
                noise,
            ),
        forall|q: int|
            is_symbol(q) && q != p ==> pair_disproved(
                cipher_lists[cb],
                #[trigger] plain_lists[q],
                noise,
            ),
    ensures
        refuted(plain_lists, cipher_lists, noise),
{
    let m = disproof_matrix(cipher_lists, plain_lists, noise);
    assert forall|q: int| is_symbol(q) && q != p implies #[trigger] m[ca][q] by {
        lemma_matrix_cell(cipher_lists, plain_lists, noise, ca, q);
        assert(pair_disproved(cipher_lists[ca], plain_lists[q], noise));
    }
    assert forall|q: int| is_symbol(q) && q != p implies #[trigger] m[cb][q] by {
        lemma_matrix_cell(cipher_lists, plain_lists, noise, cb, q);
        assert(pair_disproved(cipher_lists[cb], plain_lists[q], noise));
    }
    if m[ca][p] {
        assert(row_eliminated(m, ca));
    } else if m[cb][p] {
        assert(row_eliminated(m, cb));
    } else {
        assert(row_axiom(m, ca, p));
        assert(row_axiom(m, cb, p));
        assert(is_axiom(m, ca, p) && is_axiom(m, cb, p));
        assert(axioms_conflict(m));
    }
}

/// A candidate is refuted when two different plaintext symbols are each
/// left with the same ciphertext symbol `c` as their only possible partner.
pub proof fn lemma_shared_ciphertext_symbol_refutes(
    plain_lists: Seq<Seq<usize>>,
    cipher_lists: Seq<Seq<usize>>,
    noise: int,
    pa: int,
    pb: int,
    c: int,
)
    requires
        is_symbol(pa),
        is_symbol(pb),
        is_symbol(c),
        pa != pb,
        forall|d: int|
            is_symbol(d) && d != c ==> pair_disproved(
                #[trigger] cipher_lists[d],
                plain_lists[pa],
                noise,
            ),
        forall|d: int|
            is_symbol(d) && d != c ==> pair_disproved(
                #[trigger] cipher_lists[d],
                plain_lists[pb],
                noise,
            ),
    ensures
        refuted(plain_lists, cipher_lists, noise),
{
    let m = disproof_matrix(cipher_lists, plain_lists, noise);
    assert forall|d: int| is_symbol(d) && d != c implies #[trigger] m[d][pa] by {
        lemma_matrix_cell(cipher_lists, plain_lists, noise, d, pa);
        assert(pair_disproved(cipher_lists[d], plain_lists[pa], noise));
    }
    assert forall|d: int| is_symbol(d) && d != c implies #[trigger] m[d][pb] by {
        lemma_matrix_cell(cipher_lists, plain_lists, noise, d, pb);
        assert(pair_disproved(cipher_lists[d], plain_lists[pb], noise));
    }
    if m[c][pa] {
        assert(column_eliminated(m, pa));
    } else if m[c][pb] {
        assert(column_eliminated(m, pb));
    } else {
        assert(column_axiom(m, c, pa));
        assert(column_axiom(m, c, pb));
        assert(is_axiom(m, c, pa) && is_axiom(m, c, pb));
        assert(axioms_conflict(m));
    }
}

/// A position list holds exactly the indices at which the symbol occurs,
/// from left to right.
pub proof fn lemma_positions_exact(text: Seq<u8>, symbol: u8)
    requires
        text.len() <= usize::MAX,
    ensures
        strictly_increasing(positions_of(text, symbol)),
        forall|j: int|
            0 <= j < positions_of(text, symbol).len() ==> (#[trigger] positions_of(text, symbol)[j])
                < text.len() && text[positions_of(text, symbol)[j] as int] == symbol,
        forall|i: int|
            0 <= i < text.len() && #[trigger] text[i] == symbol ==> positions_of(
                text,
                symbol,
            ).contains(i as usize),
    decreases text.len(),
{
    let all = positions_of(text, symbol);
    if text.len() > 0 {
        let shorter = text.drop_last();
        let before = positions_of(shorter, symbol);
        lemma_positions_exact(shorter, symbol);
        assert forall|i: int| 0 <= i < text.len() && #[trigger] text[i] == symbol implies all.contains(
            i as usize,
        ) by {
            if i < text.len() - 1 {
                assert(shorter[i] == symbol);
                assert(before.contains(i as usize));
                let j = choose|j: int| 0 <= j < before.len() && before[j] == i as usize;
                assert(all[j] == i as usize);
            } else {
                assert(all[all.len() - 1] == i as usize);
            }
        }
        assert forall|j: int| 0 <= j < all.len() implies (#[trigger] all[j]) < text.len()
            && text[all[j] as int] == symbol by {
            if j < before.len() {
                assert(before[j] < shorter.len());
                assert(shorter[before[j] as int] == symbol);
            }
        }
        assert forall|i: int, j: int| 0 <= i < j < all.len() implies #[trigger] all[i]
            < #[trigger] all[j] by {
            if j < before.len() {
                assert(before[i] < before[j]);
            } else {
                assert(before[i] < shorter.len());
            }
        }
    }
}

/// The alignment test finds a placement wherever there is one: from a state
/// that has used up no more than `places` has, it does not fail.
pub proof fn lemma_alignment_found(
    cipher_positions: Seq<usize>,
    plain_positions: Seq<usize>,
    noise: int,
    places: Seq<int>,
    cursor: int,
    matched: int,
    used: int,
)
    requires
        strictly_increasing(cipher_positions),
        is_alignment(cipher_positions, plain_positions, noise, places),
        0 <= cursor,
        0 <= matched <= plain_positions.len(),
        matched < plain_positions.len() ==> cursor <= places[matched] && plain_positions[matched]
            + used <= cipher_positions[places[matched]],
    ensures
        !alignment_blocked(cipher_positions, plain_positions, noise, cursor, matched, used),
    decreases plain_positions.len() - matched, cipher_positions.len() - cursor,
{
    if matched < plain_positions.len() {
        let place = places[matched];
        assert(0 <= place < cipher_positions.len());
        assert(cipher_positions[cursor] <= cipher_positions[place]) by {
            if cursor < place {
                assert(cipher_positions[cursor] < cipher_positions[place]);
            }
        }
        assert(cipher_positions[place] <= plain_positions[matched] + noise);
        if cipher_positions[cursor] < plain_positions[matched] + used {
            lemma_alignment_found(
                cipher_positions,
                plain_positions,
                noise,
                places,
                cursor + 1,
                matched,
                used,
            );
        } else {
            if matched + 1 < plain_positions.len() {
                let next = places[matched + 1];
                assert(place < next);
                assert(cipher_positions[place] - plain_positions[matched]
                    <= cipher_positions[next] - plain_positions[matched + 1]);
            }
            lemma_alignment_found(
                cipher_positions,
                plain_positions,
                noise,
                places,
                cursor + 1,
                matched + 1,
                cipher_positions[cursor] - plain_positions[matched],
            );
        }
    }
}

/// Entries that grow from left to right grow by at least one at each step.
pub proof fn lemma_places_spread(places: Seq<int>, i: int, j: int)
    requires
        forall|a: int, b: int|
            0 <= a < b < places.len() ==> #[trigger] places[a] < #[trigger] places[b],
        0 <= i <= j < places.len(),
    ensures
        places[j] - places[i] >= j - i,
    decreases j - i,
{
    if i < j {
        lemma_places_spread(places, i, j - 1);
        assert(places[j - 1] < places[j]);
    }
}

/// The image of a symbol occurs in the ciphertext at most as often as the
/// symbol in the plaintext, and the noise on top.
pub proof fn lemma_image_count_bounded(
    plaintext: Seq<u8>,
    ciphertext: Seq<u8>,
    key: Seq<u8>,
    places: Seq<int>,
    symbol: u8,
)
    requires
        is_key(key),
        is_symbol_text(plaintext),
        symbol < 27,
        is_noisy_encoding(plaintext, ciphertext, key, places),
    ensures
        positions_of(ciphertext, key[symbol as int]).len() <= positions_of(plaintext, symbol).len()
            + (ciphertext.len() - plaintext.len()),
    decreases ciphertext.len(),
{
    let image = key[symbol as int];
    let last = plaintext.len() - 1;
    if plaintext.len() == 0 {
        lemma_positions_count_bounded(ciphertext, image);
    } else if places[last] == ciphertext.len() - 1 {
        let shorter_plain = plaintext.drop_last();
        let shorter_cipher = ciphertext.drop_last();
        let shorter_places = places.drop_last();
        assert forall|i: int| 0 <= i < shorter_places.len() implies 0 <= #[trigger] shorter_places[i]
            < shorter_cipher.len() && shorter_cipher[shorter_places[i]] == key[shorter_plain[i] as int] by {
            assert(places[i] < places[last]);
        }
        assert forall|i: int, j: int| 0 <= i < j < shorter_places.len() implies #[trigger] shorter_places[i]
            < #[trigger] shorter_places[j] by {
            assert(places[i] < places[j]);
        }
        assert(is_symbol_text(shorter_plain)) by {
            assert forall|i: int| 0 <= i < shorter_plain.len() implies #[trigger] shorter_plain[i] < 27 by {
                assert(plaintext[i] < 27);
            }
        }
        lemma_image_count_bounded(shorter_plain, shorter_cipher, key, shorter_places, symbol);
        assert(ciphertext.last() == key[plaintext.last() as int]) by {
            assert(ciphertext[places[last]] == key[plaintext[last] as int]);
        }
        assert(plaintext[last] < 27);
        if plaintext.last() != symbol {
            assert(key[plaintext.last() as int] != key[symbol as int]);
        }
    } else {
        let shorter_cipher = ciphertext.drop_last();
        assert(places[last] < ciphertext.len());
        assert forall|i: int| 0 <= i < places.len() implies 0 <= #[trigger] places[i]
            < shorter_cipher.len() && shorter_cipher[places[i]] == key[plaintext[i] as int] by {
            if i < last {
                assert(places[i] < places[last]);
            }
        }
        lemma_image_count_bounded(plaintext, shorter_cipher, key, places, symbol);
    }
}

/// The pair of a symbol and its image under the key passes both tests.
pub proof fn lemma_true_pair_survives(
    plaintext: Seq<u8>,
    ciphertext: Seq<u8>,
    key: Seq<u8>,
    places: Seq<int>,
    symbol: u8,
)
    requires
        is_key(key),
        is_symbol_text(plaintext),
        symbol < 27,
        ciphertext.len() <= usize::MAX,
        is_noisy_encoding(plaintext, ciphertext, key, places),
    ensures
        !pair_disproved(
            positions_of(ciphertext, key[symbol as int]),
            positions_of(plaintext, symbol),
            ciphertext.len() - plaintext.len(),
        ),
{
    let image = key[symbol as int];
    let cpos = positions_of(ciphertext, image);
    let ppos = positions_of(plaintext, symbol);
    let noise = ciphertext.len() - plaintext.len();
    if plaintext.len() > 0 {
        lemma_places_spread(places, 0, plaintext.len() - 1);
    }
    lemma_positions_exact(ciphertext, image);
    lemma_positions_exact(plaintext, symbol);
    lemma_image_count_bounded(plaintext, ciphertext, key, places, symbol);
    // Each occurrence of the symbol is placed on the occurrence of its image.
    let found = Seq::new(
        ppos.len(),
        |j: int| choose|k: int| 0 <= k < cpos.len() && cpos[k] == places[ppos[j] as int],
    );
    assert forall|j: int| 0 <= j < ppos.len() implies 0 <= #[trigger] found[j] < cpos.len()
        && cpos[found[j]] == places[ppos[j] as int] && ppos[j] <= cpos[found[j]] <= ppos[j]
        + noise by {
        let i = ppos[j] as int;
        assert(0 <= i < plaintext.len() && plaintext[i] == symbol);
        assert(ciphertext[places[i]] == image);
        assert(cpos.contains(places[i] as usize));
        lemma_places_spread(places, 0, i);
        lemma_places_spread(places, i, plaintext.len() - 1);
    }
    assert forall|i: int, j: int| 0 <= i < j < found.len() implies #[trigger] found[i]
        < #[trigger] found[j] && cpos[found[i]] - ppos[i] <= cpos[found[j]] - ppos[j] by {
        assert(ppos[i] < ppos[j]);
        lemma_places_spread(places, ppos[i] as int, ppos[j] as int);
        assert(places[ppos[i] as int] < places[ppos[j] as int]);
        if found[i] > found[j] {
            assert(cpos[found[j]] < cpos[found[i]]);
        }
    }
    assert(is_alignment(cpos, ppos, noise, found));
    if ppos.len() > 0 {
        lemma_places_spread(found, 0, ppos.len() - 1);
    }
    assert(!population_mismatch(cpos.len() as int, ppos.len() as int, noise));
    lemma_alignment_found(cpos, ppos, noise, found, 0, 0, 0);
}

/// A matrix that rules out no pair of a symbol and its image under some key
/// is not refuted: no row and no column is eliminated, and every forced pair
/// belongs to the key, so that no two of them conflict.
pub proof fn lemma_key_keeps_table(m: Seq<Seq<bool>>, key: Seq<u8>)
    requires
        is_key(key),
        forall|s: int| is_symbol(s) ==> !m[#[trigger] key[s] as int][s],
    ensures
        !table_refuted(m),
{
    assert forall|c: int| is_symbol(c) implies !#[trigger] row_eliminated(m, c) by {
        let s = choose|s: int| is_symbol(s) && #[trigger] key[s] == c;
        assert(!m[key[s] as int][s]);
    }
    assert forall|p: int| is_symbol(p) implies !#[trigger] column_eliminated(m, p) by {
        assert(!m[key[p] as int][p]);
        assert(is_symbol(key[p] as int));
    }
    assert forall|c: int, p: int| #[trigger] is_axiom(m, c, p) implies key[p] == c by {
        if row_axiom(m, c, p) {
            let s = choose|s: int| is_symbol(s) && #[trigger] key[s] == c;
            assert(!m[key[s] as int][s]);
            if s != p {
                assert(m[c][s]);
            }
        } else {
            let d = key[p] as int;
            assert(!m[d][p]);
            if d != c {
                assert(m[d][p]);
            }
        }
    }
    assert forall|ca: int, pa: int, cb: int, pb: int|
        #![trigger is_axiom(m, ca, pa), is_axiom(m, cb, pb)]
        is_axiom(m, ca, pa) && is_axiom(m, cb, pb) && (ca == cb || pa == pb) implies ca == cb
        && pa == pb by {
        assert(key[pa] == ca && key[pb] == cb);
    }
}

/// The plaintext that a ciphertext was made from is never refuted, whatever
/// the key and wherever the noise was inserted.
pub proof fn lemma_true_plaintext_survives(
    plaintext: Seq<u8>,
    ciphertext: Seq<u8>,
    key: Seq<u8>,
    places: Seq<int>,
)
    requires
        is_key(key),
        is_symbol_text(plaintext),
        ciphertext.len() <= usize::MAX,
        is_noisy_encoding(plaintext, ciphertext, key, places),
    ensures
        !refuted(
            position_lists(plaintext),
            position_lists(ciphertext),
            ciphertext.len() - plaintext.len(),
        ),
{
    let noise = ciphertext.len() - plaintext.len();
    let m = disproof_matrix(position_lists(ciphertext), position_lists(plaintext), noise);
    assert forall|s: int| is_symbol(s) implies !m[#[trigger] key[s] as int][s] by {
        lemma_matrix_cell(
            position_lists(ciphertext),
            position_lists(plaintext),
            noise,
            key[s] as int,
            s,
        );
        lemma_true_pair_survives(plaintext, ciphertext, key, places, s as u8);
    }
    lemma_key_keeps_table(m, key);
}

/// The candidate that a ciphertext was made from is never refuted.
pub proof fn lemma_true_candidate_survives(
    candidate: Seq<char>,
    ciphertext: Seq<char>,
    key: Seq<u8>,
    places: Seq<int>,
)
    requires
        is_key(key),
        is_alphabet_text(candidate),
        ciphertext.len() <= usize::MAX,
        is_noisy_encoding(symbols_of(candidate), symbols_of(ciphertext), key, places),
    ensures
        !candidate_refuted(candidate, ciphertext),
{
    assert(is_symbol_text(symbols_of(candidate))) by {
        assert forall|i: int| 0 <= i < symbols_of(candidate).len() implies #[trigger] symbols_of(
            candidate,
        )[i] < 27 by {
            assert(is_alphabet_char(candidate[i]));
        }
    }
    lemma_true_plaintext_survives(symbols_of(candidate), symbols_of(ciphertext), key, places);
}

/// Where the images of the plaintext symbols stand in the ciphertext that
/// `noisy_encoding` makes: each at the end of its part.
pub open spec fn encoding_places(
    plaintext: Seq<u8>,
    key: Seq<u8>,
    insertions: Seq<Seq<u8>>,
) -> Seq<int>
    decreases plaintext.len(),
{
    if plaintext.len() == 0 {
        Seq::empty()
    } else {
        encoding_places(plaintext.drop_last(), key, insertions.drop_last()).push(
            noisy_encoding(plaintext, key, insertions).len() - 1,
        )
    }
}

/// The ciphertext that `noisy_encoding` makes is the plaintext under the key
/// with symbols inserted, and is longer than the plaintext by the number of
/// symbols that the ciphertext holds beyond the images.
pub proof fn lemma_encoding_places(plaintext: Seq<u8>, key: Seq<u8>, insertions: Seq<Seq<u8>>)
    requires
        insertions.len() == plaintext.len(),
    ensures
        is_noisy_encoding(
            plaintext,
            noisy_encoding(plaintext, key, insertions),
            key,
            encoding_places(plaintext, key, insertions),
        ),
        noisy_encoding(plaintext, key, insertions).len() >= plaintext.len(),
    decreases plaintext.len(),
{
    if plaintext.len() > 0 {
        let shorter = plaintext.drop_last();
        lemma_encoding_places(shorter, key, insertions.drop_last());
        let before = noisy_encoding(shorter, key, insertions.drop_last());
        let before_places = encoding_places(shorter, key, insertions.drop_last());
        let all = noisy_encoding(plaintext, key, insertions);
        let places = encoding_places(plaintext, key, insertions);
        assert(all.len() == before.len() + insertions.last().len() + 1);
        assert forall|i: int| 0 <= i < places.len() implies 0 <= #[trigger] places[i] < all.len()
            && all[places[i]] == key[plaintext[i] as int] by {
            if i < before_places.len() {
                assert(0 <= before_places[i] < before.len());
                assert(before[before_places[i]] == key[shorter[i] as int]);
                assert(all[before_places[i]] == before[before_places[i]]);
            }
        }
        assert forall|i: int, j: int| 0 <= i < j < places.len() implies #[trigger] places[i]
            < #[trigger] places[j] by {
            if j < before_places.len() {
                assert(before_places[i] < before_places[j]);
            } else {
                assert(0 <= before_places[i] < before.len());
            }
        }
    }
}

/// The cipher and the engine together: a plaintext is never refuted by a
/// ciphertext that `noisy_encoding` makes of it, whatever the key and
/// whatever is inserted.
pub proof fn lemma_encoding_survives(plaintext: Seq<u8>, key: Seq<u8>, insertions: Seq<Seq<u8>>)
    requires
        is_key(key),
        is_symbol_text(plaintext),
        insertions.len() == plaintext.len(),
        noisy_encoding(plaintext, key, insertions).len() <= usize::MAX,
    ensures
        !refuted(
            position_lists(plaintext),
            position_lists(noisy_encoding(plaintext, key, insertions)),
            noisy_encoding(plaintext, key, insertions).len() - plaintext.len(),
        ),
{
    lemma_encoding_places(plaintext, key, insertions);
    lemma_true_plaintext_survives(
        plaintext,
        noisy_encoding(plaintext, key, insertions),
        key,
        encoding_places(plaintext, key, insertions),
    );
}

/// A way to place the plaintext occurrences from `matched` on, on ciphertext
/// occurrences from `cursor` on, each shifted by at least `used`.
pub open spec fn is_alignment_from(
    cipher_positions: Seq<usize>,
    plain_positions: Seq<usize>,
    noise: int,
    places: Seq<int>,
    cursor: int,
    matched: int,
    used: int,
) -> bool {
    &&& places.len() == plain_positions.len() - matched
    &&& forall|j: int|
        0 <= j < places.len() ==> cursor <= #[trigger] places[j] < cipher_positions.len()
    &&& forall|i: int, j: int|
        0 <= i < j < places.len() ==> #[trigger] places[i] < #[trigger] places[j]
    &&& forall|j: int|
        0 <= j < places.len() ==> plain_positions[matched + j] + used
            <= cipher_positions[#[trigger] places[j]] <= plain_positions[matched + j] + noise
    &&& forall|i: int, j: int|
        0 <= i < j < places.len() ==> cipher_positions[#[trigger] places[i]]
            - plain_positions[matched + i] <= cipher_positions[#[trigger] places[j]]
            - plain_positions[matched + j]
}

/// Where the alignment test does not fail, what it has taken is a placement.
pub proof fn lemma_alignment_built(
    cipher_positions: Seq<usize>,
    plain_positions: Seq<usize>,
    noise: int,
    cursor: int,
    matched: int,
    used: int,
) -> (places: Seq<int>)
    requires
        0 <= cursor,
        0 <= matched <= plain_positions.len(),
        !alignment_blocked(cipher_positions, plain_positions, noise, cursor, matched, used),
    ensures
        is_alignment_from(cipher_positions, plain_positions, noise, places, cursor, matched, used),
    decreases plain_positions.len() - matched, cipher_positions.len() - cursor,
{
    if matched >= plain_positions.len() {
        Seq::empty()
    } else if cipher_positions[cursor] < plain_positions[matched] + used {
        lemma_alignment_built(
            cipher_positions,
            plain_positions,
            noise,
            cursor + 1,
            matched,
            used,
        )
    } else {
        let shift = cipher_positions[cursor] - plain_positions[matched];
        let rest = lemma_alignment_built(
            cipher_positions,
            plain_positions,
            noise,
            cursor + 1,
            matched + 1,
            shift,
        );
        let places = seq![cursor] + rest;
        assert forall|j: int| 0 <= j < places.len() implies cursor <= #[trigger] places[j]
            < cipher_positions.len() && plain_positions[matched + j] + used
            <= cipher_positions[places[j]] <= plain_positions[matched + j] + noise by {
            if j > 0 {
                assert(places[j] == rest[j - 1]);
                assert(cursor + 1 <= rest[j - 1]);
            }
        }
        assert forall|i: int, j: int| 0 <= i < j < places.len() implies #[trigger] places[i]
            < #[trigger] places[j] && cipher_positions[places[i]] - plain_positions[matched + i]
            <= cipher_positions[places[j]] - plain_positions[matched + j] by {
            assert(places[j] == rest[j - 1]);
            assert(cursor + 1 <= rest[j - 1]);
            if i > 0 {
                assert(places[i] == rest[i - 1]);
                assert(rest[i - 1] < rest[j - 1]);
            }
        }
        places
    }
}

/// On the position list of a ciphertext symbol, the alignment test fails
/// exactly where the plaintext occurrences cannot be placed.
pub proof fn lemma_alignment_test_exact(
    cipher_positions: Seq<usize>,
    plain_positions: Seq<usize>,
    noise: int,
)
    requires
        strictly_increasing(cipher_positions),
    ensures
        alignment_blocked(cipher_positions, plain_positions, noise, 0, 0, 0) <==> !exists|
            places: Seq<int>,
        | is_alignment(cipher_positions, plain_positions, noise, places),
{
    if alignment_blocked(cipher_positions, plain_positions, noise, 0, 0, 0) {
        assert forall|places: Seq<int>| !is_alignment(
            cipher_positions,
            plain_positions,
            noise,
            places,
        ) by {
            if is_alignment(cipher_positions, plain_positions, noise, places) {
                lemma_alignment_found(cipher_positions, plain_positions, noise, places, 0, 0, 0);
            }
        }
    } else {
        let places = lemma_alignment_built(cipher_positions, plain_positions, noise, 0, 0, 0);
        assert(is_alignment(cipher_positions, plain_positions, noise, places));
    }
}

/// A ciphertext that `noisy_encoding` makes of one of the candidates is made
/// from a candidate: where the input is valid, the choice among the
/// candidates then does not come out empty.
pub proof fn lemma_encoding_is_made_from_candidate(
    candidates: Seq<Seq<char>>,
    ciphertext: Seq<char>,
    which: int,
    key: Seq<u8>,
    insertions: Seq<Seq<u8>>,
)
    requires
        0 <= which < candidates.len(),
        is_key(key),
        insertions.len() == candidates[which].len(),
        symbols_of(ciphertext) == noisy_encoding(symbols_of(candidates[which]), key, insertions),
    ensures
        made_from_candidate(candidates, ciphertext),
{
    let plaintext = symbols_of(candidates[which]);
    lemma_encoding_places(plaintext, key, insertions);
    assert(is_noisy_encoding(
        symbols_of(candidates[which]),
        symbols_of(ciphertext),
        key,
        encoding_places(plaintext, key, insertions),
    ));
}

} // verus!
