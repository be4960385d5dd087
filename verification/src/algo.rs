//! The disproof engine: position lists, the pair test, the refutation of one
//! candidate and the choice among the candidates.

use vstd::prelude::*;
use crate::algo::claims::{
    claims_consistent, column_scan, lemma_column_claimed, lemma_column_conflict,
    lemma_column_known, lemma_column_skipped, lemma_no_conflict_left, lemma_row_claimed,
    lemma_row_conflict, lemma_row_skipped, line_scan,
};
use crate::algo::disproof_table::DisproofTable;
use crate::algo::frequency::{
    calculate_overall_difference, convert_to_frequency_distribution, lemma_histogram_bounded,
    lemma_squared_distance_bounded, sorted_histogram, squared_distance,
};
use crate::algo::soundness::{
    is_alignment, is_noisy_encoding, lemma_alignment_test_exact, lemma_true_candidate_survives,
    strictly_increasing,
};
use crate::encryption::{is_alphabet_text, is_key, is_valid_text, string_to_vec, symbols_of};

mod claims;
pub mod disproof_stats;
pub mod disproof_table;
pub mod frequency;
pub mod soundness;

verus! {

/// Whether `s` is one of the 27 symbols of the alphabet.
pub open spec fn is_symbol(s: int) -> bool {
    0 <= s < 27
}

/// The population test: a ciphertext symbol that occurs `cipher_count` times
/// cannot stand for a plaintext symbol that occurs `plain_count` times if it
/// occurs less often, or more often than `noise` insertions can explain.
pub open spec fn population_mismatch(cipher_count: int, plain_count: int, noise: int) -> bool {
    cipher_count < plain_count || cipher_count > plain_count + noise
}

/// The alignment test, from the state in which the occurrences of the
/// ciphertext symbol before `cursor` are used up, the first `matched`
/// occurrences of the plaintext symbol have found their place, and the last
/// of them lies `used` positions to the right of where it stood in the
/// plaintext.
///
/// The next plaintext occurrence, at index `i`, must be met by a ciphertext
/// occurrence in the window from `i + used` to `i + noise`. Occurrences to the
/// left of the window are skipped; the first one that is not decides: inside
/// the window it is taken, beyond it the test fails, as it does when no
/// occurrence is left.
pub open spec fn alignment_blocked(
    cipher_positions: Seq<usize>,
    plain_positions: Seq<usize>,
    noise: int,
    cursor: int,
    matched: int,
    used: int,
) -> bool
    decreases plain_positions.len() - matched, cipher_positions.len() - cursor,
{
    if matched < 0 || cursor < 0 || matched >= plain_positions.len() {
        false
    } else if cursor >= cipher_positions.len() {
        true
    } else if cipher_positions[cursor] < plain_positions[matched] + used {
        alignment_blocked(cipher_positions, plain_positions, noise, cursor + 1, matched, used)
    } else if cipher_positions[cursor] <= plain_positions[matched] + noise {
        alignment_blocked(
            cipher_positions,
            plain_positions,
            noise,
            cursor + 1,
            matched + 1,
            cipher_positions[cursor] - plain_positions[matched],
        )
    } else {
        true
    }
}

/// Whether the pair of a ciphertext symbol and a plaintext symbol with these
/// position lists is ruled out: by the population test or by the alignment
/// test.
pub open spec fn pair_disproved(
    cipher_positions: Seq<usize>,
    plain_positions: Seq<usize>,
    noise: int,
) -> bool {
    population_mismatch(cipher_positions.len() as int, plain_positions.len() as int, noise)
        || alignment_blocked(cipher_positions, plain_positions, noise, 0, 0, 0)
}

/// The population test on the two counts.
pub fn test_direct_length(
    ciphertext_pop: usize,
    plaintext_pop: usize,
    noise: usize,
) -> (mismatch: bool)
    ensures
        mismatch == population_mismatch(ciphertext_pop as int, plaintext_pop as int, noise as int),
{
    ciphertext_pop < plaintext_pop || ciphertext_pop - plaintext_pop > noise
}

/// The alignment test on the two position lists: true if some plaintext
/// occurrence finds no ciphertext occurrence in its window. On the position
/// list of a ciphertext symbol, which grows from left to right, that is the
/// case exactly if the plaintext occurrences cannot be placed on ciphertext
/// occurrences at all.
pub fn test_alignment(
    ciphertext_symbol_positions: &[usize],
    plaintext_symbol_positions: &[usize],
    total_noise: usize,
) -> (blocked: bool)
    ensures
        blocked == alignment_blocked(
            ciphertext_symbol_positions@,
            plaintext_symbol_positions@,
            total_noise as int,
            0,
            0,
            0,
        ),
        strictly_increasing(ciphertext_symbol_positions@) ==> blocked == !exists|places: Seq<int>|
            is_alignment(
                ciphertext_symbol_positions@,
                plaintext_symbol_positions@,
                total_noise as int,
                places,
            ),
{
    proof {
        if strictly_increasing(ciphertext_symbol_positions@) {
            lemma_alignment_test_exact(
                ciphertext_symbol_positions@,
                plaintext_symbol_positions@,
                total_noise as int,
            );
        }
    }
    let mut noise_used: usize = 0;
    let mut cursor: usize = 0;
    let mut matched: usize = 0;
    while matched < plaintext_symbol_positions.len()
        invariant
            cursor <= ciphertext_symbol_positions@.len(),
            matched <= plaintext_symbol_positions@.len(),
            strictly_increasing(ciphertext_symbol_positions@) ==> alignment_blocked(
                ciphertext_symbol_positions@,
                plaintext_symbol_positions@,
                total_noise as int,
                0,
                0,
                0,
            ) == !exists|places: Seq<int>|
                is_alignment(
                    ciphertext_symbol_positions@,
                    plaintext_symbol_positions@,
                    total_noise as int,
                    places,
                ),
            alignment_blocked(
                ciphertext_symbol_positions@,
                plaintext_symbol_positions@,
                total_noise as int,
                0,
                0,
                0,
            ) == alignment_blocked(
                ciphertext_symbol_positions@,
                plaintext_symbol_positions@,
                total_noise as int,
                cursor as int,
                matched as int,
                noise_used as int,
            ),
        decreases
                plaintext_symbol_positions@.len() - matched,
                ciphertext_symbol_positions@.len() - cursor,
    {
        if cursor >= ciphertext_symbol_positions.len() {
            return true;
        }
        let cipher_pos: usize = ciphertext_symbol_positions[cursor];
        let plaintext_index: usize = plaintext_symbol_positions[matched];
        cursor += 1;
        if cipher_pos < plaintext_index || cipher_pos - plaintext_index < noise_used {
            // Left of the window: skip this occurrence for good.
        } else if cipher_pos - plaintext_index <= total_noise {
            noise_used = cipher_pos - plaintext_index;
            matched += 1;
        } else {
            return true;
        }
    }
    false
}

/// Whether the ciphertext symbol with the first position list cannot stand
/// for the plaintext symbol with the second one, given that the ciphertext
/// holds `noise` inserted symbols.
///
/// On the position list of a ciphertext symbol, which grows from left to
/// right, the pair is ruled out exactly if the counts do not fit or the
/// plaintext occurrences cannot be placed on ciphertext occurrences.
pub fn disprove_pair(
    ciphertext_positions: &[usize],
    plaintext_positions: &[usize],
    noise: usize,
) -> (disproven: bool)
    ensures
        disproven == pair_disproved(ciphertext_positions@, plaintext_positions@, noise as int),
        population_mismatch(
            ciphertext_positions@.len() as int,
            plaintext_positions@.len() as int,
            noise as int,
        ) ==> disproven,
        strictly_increasing(ciphertext_positions@) ==> disproven == (population_mismatch(
            ciphertext_positions@.len() as int,
            plaintext_positions@.len() as int,
            noise as int,
        ) || !exists|places: Seq<int>|
            is_alignment(ciphertext_positions@, plaintext_positions@, noise as int, places)),
{
    proof {
        if strictly_increasing(ciphertext_positions@) {
            lemma_alignment_test_exact(ciphertext_positions@, plaintext_positions@, noise as int);
        }
    }
    let ciphertext_pop = ciphertext_positions.len();
    let plaintext_pop = plaintext_positions.len();
    if test_direct_length(ciphertext_pop, plaintext_pop, noise) {
        return true;
    }
    test_alignment(ciphertext_positions, plaintext_positions, noise)
}

/// The 27 position lists of a text, each taken by its view.
pub open spec fn lists_view(lists: Seq<Vec<usize>>) -> Seq<Seq<usize>> {
    Seq::new(lists.len(), |s: int| lists[s]@)
}

/// The matrix that the pair test gives for a candidate and a ciphertext: row
/// `c`, column `p` says whether ciphertext symbol `c` cannot stand for
/// plaintext symbol `p`.
pub open spec fn disproof_matrix(
    cipher_lists: Seq<Seq<usize>>,
    plain_lists: Seq<Seq<usize>>,
    noise: int,
) -> Seq<Seq<bool>> {
    Seq::new(
        27,
        |c: int| Seq::new(27, |p: int| pair_disproved(cipher_lists[c], plain_lists[p], noise)),
    )
}

/// Every cell of row `c` is set: the ciphertext symbol stands for nothing.
pub open spec fn row_eliminated(m: Seq<Seq<bool>>, c: int) -> bool {
    forall|p: int| is_symbol(p) ==> #[trigger] m[c][p]
}

/// Every cell of column `p` is set: nothing stands for the plaintext symbol.
pub open spec fn column_eliminated(m: Seq<Seq<bool>>, p: int) -> bool {
    forall|c: int| is_symbol(c) ==> #[trigger] m[c][p]
}

/// The cell `(c, p)` is the only one of row `c` that is not set.
pub open spec fn row_axiom(m: Seq<Seq<bool>>, c: int, p: int) -> bool {
    &&& is_symbol(c)
    &&& is_symbol(p)
    &&& !m[c][p]
    &&& forall|q: int| is_symbol(q) && q != p ==> #[trigger] m[c][q]
}

/// The cell `(c, p)` is the only one of column `p` that is not set.
pub open spec fn column_axiom(m: Seq<Seq<bool>>, c: int, p: int) -> bool {
    &&& is_symbol(c)
    &&& is_symbol(p)
    &&& !m[c][p]
    &&& forall|d: int| is_symbol(d) && d != c ==> #[trigger] m[d][p]
}

/// The pair `(c, p)` is forced: it is the only one left in its row or in its
/// column.
pub open spec fn is_axiom(m: Seq<Seq<bool>>, c: int, p: int) -> bool {
    row_axiom(m, c, p) || column_axiom(m, c, p)
}

/// Two different forced pairs share their ciphertext symbol or their
/// plaintext symbol, which no key allows.
pub open spec fn axioms_conflict(m: Seq<Seq<bool>>) -> bool {
    exists|ca: int, pa: int, cb: int, pb: int|
        #![trigger is_axiom(m, ca, pa), is_axiom(m, cb, pb)]
        is_axiom(m, ca, pa) && is_axiom(m, cb, pb) && (ca != cb || pa != pb) && (ca == cb || pa
            == pb)
}

/// The candidate behind the matrix is refuted: a row or a column is
/// eliminated, or two forced pairs conflict.
pub open spec fn table_refuted(m: Seq<Seq<bool>>) -> bool {
    ||| exists|c: int| is_symbol(c) && #[trigger] row_eliminated(m, c)
    ||| exists|p: int| is_symbol(p) && #[trigger] column_eliminated(m, p)
    ||| axioms_conflict(m)
}

/// Whether a candidate with position lists `plain_lists` is refuted by a
/// ciphertext with position lists `cipher_lists` that holds `noise` inserted
/// symbols.
pub open spec fn refuted(
    plain_lists: Seq<Seq<usize>>,
    cipher_lists: Seq<Seq<usize>>,
    noise: int,
) -> bool {
    table_refuted(disproof_matrix(cipher_lists, plain_lists, noise))
}

/// Claims `ciphertext_symbol` and `plaintext_symbol` for a forced pair found
/// in a row. Reports a conflict, and claims nothing, if either is taken.
pub fn is_conflict_or_insert_skip(
    ciphertext_symbol: u8,
    plaintext_symbol: u8,
    occupied_ciphertext_symbols: &mut [bool; 27],
    occupied_plaintext_symbols: &mut [bool; 27],
) -> (conflict: bool)
    requires
        ciphertext_symbol < 27,
        plaintext_symbol < 27,
    ensures
        conflict == (old(occupied_ciphertext_symbols)@[ciphertext_symbol as int] || old(
            occupied_plaintext_symbols,
        )@[plaintext_symbol as int]),
        conflict ==> final(occupied_ciphertext_symbols)@ == old(occupied_ciphertext_symbols)@
            && final(occupied_plaintext_symbols)@ == old(occupied_plaintext_symbols)@,
        !conflict ==> final(occupied_ciphertext_symbols)@ == old(
            occupied_ciphertext_symbols,
        )@.update(ciphertext_symbol as int, true) && final(occupied_plaintext_symbols)@ == old(
            occupied_plaintext_symbols,
        )@.update(plaintext_symbol as int, true),
{
    let condition1 = occupied_ciphertext_symbols[ciphertext_symbol as usize];
    let condition2 = occupied_plaintext_symbols[plaintext_symbol as usize];
    if condition1 || condition2 {
        return true;
    }
    occupied_ciphertext_symbols[ciphertext_symbol as usize] = true;
    occupied_plaintext_symbols[plaintext_symbol as usize] = true;
    false
}

/// Claims `ciphertext_symbol` and `plaintext_symbol` for a forced pair found
/// in a column. Where both are taken the pair is one that a row has claimed
/// already; where exactly one is taken it reports a conflict.
pub fn is_conflict_or_insert(
    ciphertext_symbol: u8,
    plaintext_symbol: u8,
    occupied_ciphertext_symbols: &mut [bool; 27],
    occupied_plaintext_symbols: &mut [bool; 27],
) -> (conflict: bool)
    requires
        ciphertext_symbol < 27,
        plaintext_symbol < 27,
    ensures
        conflict == (old(occupied_ciphertext_symbols)@[ciphertext_symbol as int] != old(
            occupied_plaintext_symbols,
        )@[plaintext_symbol as int]),
        (old(occupied_ciphertext_symbols)@[ciphertext_symbol as int] || old(
            occupied_plaintext_symbols,
        )@[plaintext_symbol as int]) ==> final(occupied_ciphertext_symbols)@ == old(
            occupied_ciphertext_symbols,
        )@ && final(occupied_plaintext_symbols)@ == old(occupied_plaintext_symbols)@,
        !(old(occupied_ciphertext_symbols)@[ciphertext_symbol as int] || old(
            occupied_plaintext_symbols,
        )@[plaintext_symbol as int]) ==> final(occupied_ciphertext_symbols)@ == old(
            occupied_ciphertext_symbols,
        )@.update(ciphertext_symbol as int, true) && final(occupied_plaintext_symbols)@ == old(
            occupied_plaintext_symbols,
        )@.update(plaintext_symbol as int, true),
{
    let condition1 = occupied_ciphertext_symbols[ciphertext_symbol as usize];
    let condition2 = occupied_plaintext_symbols[plaintext_symbol as usize];
    if condition1 && condition2 {
        return false;
    }
    if condition1 || condition2 {
        return true;
    }
    occupied_ciphertext_symbols[ciphertext_symbol as usize] = true;
    occupied_plaintext_symbols[plaintext_symbol as usize] = true;
    false
}

/// A cell of the matrix is the pair test on the two lists it stands for.
pub proof fn lemma_matrix_cell(
    cipher_lists: Seq<Seq<usize>>,
    plain_lists: Seq<Seq<usize>>,
    noise: int,
    c: int,
    p: int,
)
    requires
        is_symbol(c),
        is_symbol(p),
    ensures
        disproof_matrix(cipher_lists, plain_lists, noise)[c][p] == pair_disproved(
            cipher_lists[c],
            plain_lists[p],
            noise,
        ),
{
}

/// Whether the candidate with position lists `plaintext_positions` cannot
/// have produced the ciphertext with position lists `ciphertext_positions`,
/// which holds `noise` inserted symbols.
///
/// Every pair of symbols is put to the pair test. The candidate is refuted if
/// that leaves a ciphertext symbol or a plaintext symbol without a partner,
/// or if two pairs that are forced, each the last one left in its row or
/// column, share a symbol.
pub fn disprove_plaintext(
    plaintext_positions: &[Vec<usize>],
    ciphertext_positions: &[Vec<usize>],
    noise: usize,
) -> (is_refuted: bool)
    requires
        plaintext_positions@.len() == 27,
        ciphertext_positions@.len() == 27,
    ensures
        is_refuted == refuted(
            lists_view(plaintext_positions@),
            lists_view(ciphertext_positions@),
            noise as int,
        ),
{
    let ghost cl = lists_view(ciphertext_positions@);
    let ghost pl = lists_view(plaintext_positions@);
    let ghost m = disproof_matrix(cl, pl, noise as int);
    let mut disproof_table = DisproofTable::new();
    let mut occupied_ciphertext_symbols = [false;27];
    let mut occupied_plaintext_symbols = [false;27];
    let ghost mut pc: Seq<int> = Seq::new(27, |i: int| 0int);
    let ghost mut pp: Seq<int> = Seq::new(27, |i: int| 0int);
    let mut ciphertext_symbol: u8 = 0;
    while ciphertext_symbol < 27
        invariant
            ciphertext_symbol <= 27,
            plaintext_positions@.len() == 27,
            ciphertext_positions@.len() == 27,
            cl == lists_view(ciphertext_positions@),
            pl == lists_view(plaintext_positions@),
            m == disproof_matrix(cl, pl, noise as int),
            forall|c: int, p: int|
                0 <= c < ciphertext_symbol && is_symbol(p) ==> #[trigger] disproof_table.disproved(c, p)
                    == m[c][p],
            forall|c: int| 0 <= c < ciphertext_symbol ==> !#[trigger] row_eliminated(m, c),
            forall|c: int, p: int|
                is_symbol(c) && is_symbol(p) && c >= ciphertext_symbol
                    ==> !#[trigger] disproof_table.disproved(c, p),
            claims_consistent(
                m,
                occupied_ciphertext_symbols@,
                occupied_plaintext_symbols@,
                pc,
                pp,
                ciphertext_symbol as int,
                0,
            ),
        decreases 27 - ciphertext_symbol,
    {
        let mut n_disproven: u8 = 0;
        let mut last_not_disproven: u8 = 0;
        let ghost mut w1: int = 0;
        let ghost mut w2: int = 0;
        let mut plaintext_symbol: u8 = 0;
        while plaintext_symbol < 27
            invariant
                ciphertext_symbol < 27,
                plaintext_symbol <= 27,
                plaintext_positions@.len() == 27,
                ciphertext_positions@.len() == 27,
                cl == lists_view(ciphertext_positions@),
                pl == lists_view(plaintext_positions@),
                m == disproof_matrix(cl, pl, noise as int),
                forall|c: int, p: int|
                    0 <= c < ciphertext_symbol && is_symbol(p) ==> #[trigger] disproof_table.disproved(c, p)
                        == m[c][p],
                forall|p: int|
                    0 <= p < plaintext_symbol ==> #[trigger] disproof_table.disproved(
                        ciphertext_symbol as int,
                        p,
                    ) == m[ciphertext_symbol as int][p],
                forall|c: int, p: int|
                    is_symbol(c) && is_symbol(p) && (c > ciphertext_symbol || (c
                        == ciphertext_symbol && p >= plaintext_symbol))
                        ==> !#[trigger] disproof_table.disproved(c, p),
                last_not_disproven < 27,
                line_scan(
                    m[ciphertext_symbol as int],
                    plaintext_symbol as int,
                    n_disproven as int,
                    last_not_disproven as int,
                    w1,
                    w2,
                ),
            decreases 27 - plaintext_symbol,
        {
            let disproven = disprove_pair(
                &ciphertext_positions[ciphertext_symbol as usize],
                &plaintext_positions[plaintext_symbol as usize],
                noise,
            );
            proof {
                lemma_matrix_cell(cl, pl, noise as int, ciphertext_symbol as int, plaintext_symbol as int);
            }
            if disproven {
                disproof_table.write_disproven(ciphertext_symbol, plaintext_symbol);
                n_disproven += 1;
            } else {
                proof {
                    if n_disproven + 1 == plaintext_symbol {
                        w1 = last_not_disproven as int;
                        w2 = plaintext_symbol as int;
                    }
                }
                last_not_disproven = plaintext_symbol;
            }
            plaintext_symbol += 1;
        }
        let ghost row = ciphertext_symbol as int;
        if n_disproven == 27 {
            proof {
                assert(row_eliminated(m, row));
            }
            return true;
        }
        if n_disproven == 26 {
            proof {
                assert(row_axiom(m, row, last_not_disproven as int));
            }
            let ghost before_c = occupied_ciphertext_symbols@;
            let ghost before_p = occupied_plaintext_symbols@;
            if is_conflict_or_insert_skip(
                ciphertext_symbol,
                last_not_disproven,
                &mut occupied_ciphertext_symbols,
                &mut occupied_plaintext_symbols,
            ) {
                proof {
                    lemma_row_conflict(m, before_c, before_p, pc, pp, row, last_not_disproven as int);
                }
                return true;
            }
            proof {
                lemma_row_claimed(m, before_c, before_p, pc, pp, row, last_not_disproven as int);
                pc = pc.update(row, last_not_disproven as int);
                pp = pp.update(last_not_disproven as int, row);
            }
        } else {
            proof {
                lemma_row_skipped(
                    m,
                    occupied_ciphertext_symbols@,
                    occupied_plaintext_symbols@,
                    pc,
                    pp,
                    row,
                    w1,
                    w2,
                );
            }
        }
        ciphertext_symbol += 1;
    }
    let mut plaintext_symbol: u8 = 0;
    while plaintext_symbol < 27
        invariant
            plaintext_symbol <= 27,
            forall|c: int, p: int|
                is_symbol(c) && is_symbol(p) ==> #[trigger] disproof_table.disproved(c, p) == m[c][p],
            table_refuted(m) == refuted(
                lists_view(plaintext_positions@),
                lists_view(ciphertext_positions@),
                noise as int,
            ),
            forall|c: int| is_symbol(c) ==> !#[trigger] row_eliminated(m, c),
            forall|p: int| 0 <= p < plaintext_symbol ==> !#[trigger] column_eliminated(m, p),
            claims_consistent(
                m,
                occupied_ciphertext_symbols@,
                occupied_plaintext_symbols@,
                pc,
                pp,
                27,
                plaintext_symbol as int,
            ),
        decreases 27 - plaintext_symbol,
    {
        let mut n_disproven: u8 = 0;
        let mut last_not_disproven: u8 = 0;
        let ghost mut w1: int = 0;
        let ghost mut w2: int = 0;
        let mut ciphertext_symbol: u8 = 0;
        while ciphertext_symbol < 27
            invariant
                plaintext_symbol < 27,
                ciphertext_symbol <= 27,
                forall|c: int, p: int|
                    is_symbol(c) && is_symbol(p) ==> #[trigger] disproof_table.disproved(c, p) == m[c][p],
                last_not_disproven < 27,
                column_scan(
                    m,
                    plaintext_symbol as int,
                    ciphertext_symbol as int,
                    n_disproven as int,
                    last_not_disproven as int,
                    w1,
                    w2,
                ),
            decreases 27 - ciphertext_symbol,
        {
            if disproof_table.is_disproven(ciphertext_symbol, plaintext_symbol) {
                n_disproven += 1;
            } else {
                proof {
                    if n_disproven + 1 == ciphertext_symbol {
                        w1 = last_not_disproven as int;
                        w2 = ciphertext_symbol as int;
                    }
                }
                last_not_disproven = ciphertext_symbol;
            }
            ciphertext_symbol += 1;
        }
        let ghost col = plaintext_symbol as int;
        if n_disproven == 27 {
            proof {
                assert(column_eliminated(m, col));
            }
            return true;
        }
        if n_disproven == 26 {
            proof {
                assert(column_axiom(m, last_not_disproven as int, col));
            }
            let ghost before_c = occupied_ciphertext_symbols@;
            let ghost before_p = occupied_plaintext_symbols@;
            let ghost last = last_not_disproven as int;
            proof {
                if before_p[col] {
                    lemma_column_known(m, before_c, before_p, pc, pp, col, last);
                }
            }
            if is_conflict_or_insert(
                last_not_disproven,
                plaintext_symbol,
                &mut occupied_ciphertext_symbols,
                &mut occupied_plaintext_symbols,
            ) {
                proof {
                    lemma_column_conflict(m, before_c, before_p, pc, pp, col, last);
                }
                return true;
            }
            proof {
                if !before_p[col] {
                    lemma_column_claimed(m, before_c, before_p, pc, pp, col, last);
                    pc = pc.update(last, col);
                    pp = pp.update(col, last);
                }
            }
        } else {
            proof {
                lemma_column_skipped(
                    m,
                    occupied_ciphertext_symbols@,
                    occupied_plaintext_symbols@,
                    pc,
                    pp,
                    col,
                    w1,
                    w2,
                );
            }
        }
        plaintext_symbol += 1;
    }
    proof {
        lemma_no_conflict_left(m, occupied_ciphertext_symbols@, occupied_plaintext_symbols@, pc, pp);
    }
    false
}

/// The indices at which `symbol` occurs in `text`, in ascending order.
pub open spec fn positions_of(text: Seq<u8>, symbol: u8) -> Seq<usize>
    decreases text.len(),
{
    if text.len() == 0 {
        Seq::empty()
    } else {
        let before = positions_of(text.drop_last(), symbol);
        if text.last() == symbol {
            before.push((text.len() - 1) as usize)
        } else {
            before
        }
    }
}

/// The 27 position lists of a text, one for each symbol.
pub open spec fn position_lists(text: Seq<u8>) -> Seq<Seq<usize>> {
    Seq::new(27, |s: int| positions_of(text, s as u8))
}

/// The 27 position lists of a text of symbols.
pub fn to_position_list(text: &[u8]) -> (lists: Vec<Vec<usize>>)
    requires
        forall|i: int| 0 <= i < text@.len() ==> #[trigger] text@[i] < 27,
    ensures
        lists@.len() == 27,
        lists_view(lists@) == position_lists(text@),
{
    let mut post_list: Vec<Vec<usize>> = Vec::with_capacity(27);
    let mut symbol: usize = 0;
    while symbol < 27
        invariant
            symbol <= 27,
            post_list@.len() == symbol,
            forall|s: int| 0 <= s < symbol ==> (#[trigger] post_list@[s])@.len() == 0,
        decreases 27 - symbol,
    {
        post_list.push(Vec::new());
        symbol += 1;
    }
    let mut index: usize = 0;
    while index < text.len()
        invariant
            index <= text@.len(),
            post_list@.len() == 27,
            forall|i: int| 0 <= i < text@.len() ==> #[trigger] text@[i] < 27,
            forall|s: int|
                0 <= s < 27 ==> (#[trigger] post_list@[s])@ == positions_of(
                    text@.take(index as int),
                    s as u8,
                ),
        decreases text@.len() - index,
    {
        let item: u8 = text[index];
        let ghost before = post_list@;
        post_list[item as usize].push(index);
        proof {
            let grown = text@.take(index as int + 1);
            assert(grown.drop_last() =~= text@.take(index as int));
            assert(grown.last() == item);
            assert forall|s: int| 0 <= s < 27 implies (#[trigger] post_list@[s])@ == positions_of(
                grown,
                s as u8,
            ) by {
                assert(before[s]@ == positions_of(text@.take(index as int), s as u8));
            }
        }
        index += 1;
    }
    proof {
        assert(text@.take(index as int) =~= text@);
        assert(lists_view(post_list@) =~= position_lists(text@));
    }
    post_list
}

/// A symbol occurs in a text at most as often as the text is long.
pub proof fn lemma_positions_count_bounded(text: Seq<u8>, symbol: u8)
    ensures
        positions_of(text, symbol).len() <= text.len(),
    decreases text.len(),
{
    if text.len() > 0 {
        lemma_positions_count_bounded(text.drop_last(), symbol);
    }
}

/// The texts of a list of strings.
pub open spec fn texts_view(texts: Seq<&str>) -> Seq<Seq<char>> {
    Seq::new(texts.len(), |i: int| texts[i]@)
}

/// What is asked of the input: at least one candidate, all candidates of one
/// length, every character from the alphabet, and a ciphertext at least as
/// long as the candidates.
pub open spec fn valid_input(candidates: Seq<Seq<char>>, ciphertext: Seq<char>) -> bool {
    &&& candidates.len() > 0
    &&& forall|i: int|
        0 <= i < candidates.len() ==> (#[trigger] candidates[i]).len() == candidates[0].len()
    &&& forall|i: int| 0 <= i < candidates.len() ==> is_alphabet_text(#[trigger] candidates[i])
    &&& is_alphabet_text(ciphertext)
    &&& ciphertext.len() >= candidates[0].len()
}

/// Whether the candidate is refuted by the ciphertext; the noise is what the
/// ciphertext is longer by.
pub open spec fn candidate_refuted(candidate: Seq<char>, ciphertext: Seq<char>) -> bool {
    refuted(
        position_lists(symbols_of(candidate)),
        position_lists(symbols_of(ciphertext)),
        ciphertext.len() - candidate.len(),
    )
}

/// How far the sorted histogram of the candidate, with the noise spread over
/// it, lies from that of the ciphertext: the sum of the squared differences
/// of the frequencies, in units of `1 / (27 * n)` squared, where `n` is the
/// length of the ciphertext.
pub open spec fn candidate_score(candidate: Seq<char>, ciphertext: Seq<char>) -> int {
    squared_distance(
        sorted_histogram(
            position_lists(symbols_of(candidate)),
            ciphertext.len() - candidate.len(),
        ),
        sorted_histogram(position_lists(symbols_of(ciphertext)), 0),
    )
}

/// Candidate `k` is not refuted, no candidate that is not refuted has a
/// smaller score, and none before `k` has the same.
pub open spec fn is_best_survivor(
    candidates: Seq<Seq<char>>,
    ciphertext: Seq<char>,
    k: int,
) -> bool {
    &&& 0 <= k < candidates.len()
    &&& !candidate_refuted(candidates[k], ciphertext)
    &&& forall|i: int|
        0 <= i < candidates.len() && !candidate_refuted(#[trigger] candidates[i], ciphertext)
            ==> candidate_score(candidates[k], ciphertext) <= candidate_score(
            candidates[i],
            ciphertext,
        ) && (i < k ==> candidate_score(candidates[k], ciphertext) < candidate_score(
            candidates[i],
            ciphertext,
        ))
}

/// The ciphertext is one of the candidates under some key, with symbols
/// inserted.
pub open spec fn made_from_candidate(candidates: Seq<Seq<char>>, ciphertext: Seq<char>) -> bool {
    exists|i: int, key: Seq<u8>, places: Seq<int>|
        0 <= i < candidates.len() && is_key(key) && #[trigger] is_noisy_encoding(
            symbols_of(candidates[i]),
            symbols_of(ciphertext),
            key,
            places,
        )
}

/// Where the ciphertext was made from one of the candidates, not every
/// candidate is refuted.
pub proof fn lemma_source_survives(candidates: Seq<Seq<char>>, ciphertext: Seq<char>)
    requires
        ciphertext.len() <= usize::MAX,
    ensures
        valid_input(candidates, ciphertext) && made_from_candidate(candidates, ciphertext)
            ==> exists|i: int|
            0 <= i < candidates.len() && !candidate_refuted(#[trigger] candidates[i], ciphertext),
{
    if valid_input(candidates, ciphertext) && made_from_candidate(candidates, ciphertext) {
        let (i, key, places) = choose|i: int, key: Seq<u8>, places: Seq<int>|
            0 <= i < candidates.len() && is_key(key) && #[trigger] is_noisy_encoding(
                symbols_of(candidates[i]),
                symbols_of(ciphertext),
                key,
                places,
            );
        lemma_true_candidate_survives(candidates[i], ciphertext, key, places);
    }
}

/// The index of the candidate that the ciphertext was made from, as far as
/// can be told, or `None` where the input is not valid or every candidate is
/// refuted, which does not happen where the ciphertext was made from one of
/// them.
///
/// A single candidate that is not refuted is the answer. Among several, the
/// one whose sorted histogram lies closest to that of the ciphertext wins,
/// the first of them where several lie equally close.
pub fn apply_cryptanalysis(
    plaintext_candidates: &[&str],
    ciphertext: &str,
) -> (decision: Option<usize>)
    requires
        ciphertext@.len() <= u32::MAX,
    ensures
        !valid_input(texts_view(plaintext_candidates@), ciphertext@) ==> decision is None,
        valid_input(texts_view(plaintext_candidates@), ciphertext@) ==> match decision {
            Some(k) => is_best_survivor(texts_view(plaintext_candidates@), ciphertext@, k as int),
            None => forall|i: int|
                0 <= i < plaintext_candidates@.len() ==> candidate_refuted(
                    #[trigger] texts_view(plaintext_candidates@)[i],
                    ciphertext@,
                ),
        },
        valid_input(texts_view(plaintext_candidates@), ciphertext@) && made_from_candidate(
            texts_view(plaintext_candidates@),
            ciphertext@,
        ) ==> decision is Some,
{
    proof {
        lemma_source_survives(texts_view(plaintext_candidates@), ciphertext@);
    }
    let ghost cands = texts_view(plaintext_candidates@);
    let ghost ct = ciphertext@;
    if plaintext_candidates.len() == 0 || !is_valid_text(ciphertext) {
        return None;
    }
    let ciphertext_symbols = string_to_vec(ciphertext);
    let ciphertext_positions = to_position_list(ciphertext_symbols.as_slice());
    let mut plaintext_position_list: Vec<Vec<Vec<usize>>> = Vec::new();
    let mut plaintext_length: usize = 0;
    let mut index: usize = 0;
    while index < plaintext_candidates.len()
        invariant
            index <= plaintext_candidates@.len(),
            cands == texts_view(plaintext_candidates@),
            plaintext_position_list@.len() == index,
            index > 0 ==> plaintext_length == cands[0].len(),
            forall|i: int| 0 <= i < index ==> (#[trigger] cands[i]).len() == cands[0].len(),
            forall|i: int| 0 <= i < index ==> is_alphabet_text(#[trigger] cands[i]),
            forall|i: int|
                0 <= i < index ==> (#[trigger] plaintext_position_list@[i])@.len() == 27
                    && lists_view(plaintext_position_list@[i]@) == position_lists(
                    symbols_of(cands[i]),
                ),
        decreases plaintext_candidates@.len() - index,
    {
        let candidate: &str = plaintext_candidates[index];
        assert(candidate@ == cands[index as int]);
        if !is_valid_text(candidate) {
            return None;
        }
        let symbols = string_to_vec(candidate);
        if index == 0 {
            plaintext_length = symbols.len();
        } else if symbols.len() != plaintext_length {
            return None;
        }
        plaintext_position_list.push(to_position_list(symbols.as_slice()));
        index += 1;
    }
    if ciphertext_symbols.len() < plaintext_length {
        return None;
    }
    assert(valid_input(cands, ct));
    let noise: usize = ciphertext_symbols.len() - plaintext_length;
    // 1. Attempt to disprove every plaintext candidate.
    let mut not_refuted: Vec<usize> = Vec::new();
    index = 0;
    while index < plaintext_position_list.len()
        invariant
            index <= plaintext_position_list@.len(),
            plaintext_position_list@.len() == cands.len(),
            ciphertext_positions@.len() == 27,
            lists_view(ciphertext_positions@) == position_lists(symbols_of(ct)),
            forall|i: int| 0 <= i < cands.len() ==> (#[trigger] cands[i]).len() == plaintext_length,
            noise == ct.len() - plaintext_length,
            forall|i: int|
                0 <= i < cands.len() ==> (#[trigger] plaintext_position_list@[i])@.len() == 27
                    && lists_view(plaintext_position_list@[i]@) == position_lists(
                    symbols_of(cands[i]),
                ),
            forall|j: int|
                0 <= j < not_refuted@.len() ==> (#[trigger] not_refuted@[j]) < index
                    && !candidate_refuted(cands[not_refuted@[j] as int], ct),
            forall|j1: int, j2: int|
                0 <= j1 < j2 < not_refuted@.len() ==> (#[trigger] not_refuted@[j1])
                    < #[trigger] not_refuted@[j2],
            forall|i: int|
                0 <= i < index && !candidate_refuted(#[trigger] cands[i], ct)
                    ==> not_refuted@.contains(i as usize),
        decreases plaintext_position_list@.len() - index,
    {
        let ghost before = not_refuted@;
        assert(cands[index as int].len() == plaintext_length);
        if !disprove_plaintext(
            plaintext_position_list[index].as_slice(),
            ciphertext_positions.as_slice(),
            noise,
        ) {
            not_refuted.push(index);
            proof {
                assert(not_refuted@[before.len() as int] == index);
                assert forall|i: int|
                    0 <= i < index + 1 && !candidate_refuted(
                        #[trigger] cands[i],
                        ct,
                    ) implies not_refuted@.contains(i as usize) by {
                    if i < index {
                        assert(before.contains(i as usize));
                        let j = choose|j: int| 0 <= j < before.len() && before[j] == i as usize;
                        assert(not_refuted@[j] == i as usize);
                    }
                }
            }
        }
        index += 1;
    }
    // 2. If there is exactly one plaintext not disproven, return it.
    if not_refuted.len() == 1 {
        let only: usize = not_refuted[0];
        proof {
            assert forall|i: int|
                0 <= i < cands.len() && !candidate_refuted(#[trigger] cands[i], ct) implies i
                == only by {
                assert(not_refuted@.contains(i as usize));
            }
        }
        return Some(only);
    }
    if not_refuted.len() == 0 {
        proof {
            assert forall|i: int| 0 <= i < cands.len() implies candidate_refuted(
                #[trigger] cands[i],
                ct,
            ) by {
                if !candidate_refuted(cands[i], ct) {
                    assert(not_refuted@.contains(i as usize));
                }
            }
        }
        return None;
    }
    // 3. Find out which plaintext is most likely with frequency analysis.
    let ghost limit: int = 28 * 0x1_0000_0000int;
    proof {
        assert forall|s: int| 0 <= s < 27 implies 27 * (#[trigger] ciphertext_positions@[s])@.len()
            <= limit by {
            assert(lists_view(ciphertext_positions@)[s] == position_lists(symbols_of(ct))[s]);
            lemma_positions_count_bounded(symbols_of(ct), s as u8);
        }
        assert forall|s: int| 0 <= s < 27 implies 27 * (#[trigger] position_lists(
            symbols_of(ct),
        )[s]).len() + 0 <= limit by {
            lemma_positions_count_bounded(symbols_of(ct), s as u8);
        }
        lemma_histogram_bounded(position_lists(symbols_of(ct)), 0, limit);
    }
    let ciphertext_dist = convert_to_frequency_distribution(ciphertext_positions.as_slice(), 0);
    let mut best: usize = 0;
    let mut min_diff: u128 = 0;
    let mut turn: usize = 0;
    let ghost mut best_turn: int = 0;
    while turn < not_refuted.len()
        invariant
            turn <= not_refuted@.len(),
            not_refuted@.len() > 0,
            limit == 28 * 0x1_0000_0000,
            plaintext_position_list@.len() == cands.len(),
            ct.len() <= u32::MAX,
            forall|i: int| 0 <= i < cands.len() ==> (#[trigger] cands[i]).len() == plaintext_length,
            noise == ct.len() - plaintext_length,
            forall|i: int|
                0 <= i < cands.len() ==> (#[trigger] plaintext_position_list@[i])@.len() == 27
                    && lists_view(plaintext_position_list@[i]@) == position_lists(
                    symbols_of(cands[i]),
                ),
            forall|j: int|
                0 <= j < not_refuted@.len() ==> (#[trigger] not_refuted@[j]) < cands.len()
                    && !candidate_refuted(cands[not_refuted@[j] as int], ct),
            forall|j1: int, j2: int|
                0 <= j1 < j2 < not_refuted@.len() ==> (#[trigger] not_refuted@[j1])
                    < #[trigger] not_refuted@[j2],
            ciphertext_dist@ == sorted_histogram(position_lists(symbols_of(ct)), 0),
            ciphertext_dist@.len() == 27,
            forall|i: int| 0 <= i < 27 ==> #[trigger] ciphertext_dist@[i] <= limit,
            turn > 0 ==> best < cands.len() && not_refuted@.contains(best) && min_diff
                == candidate_score(cands[best as int], ct),
            forall|j: int|
                0 <= j < turn ==> min_diff <= candidate_score(
                    cands[(#[trigger] not_refuted@[j]) as int],
                    ct,
                ) && (not_refuted@[j] < best ==> min_diff < candidate_score(
                    cands[not_refuted@[j] as int],
                    ct,
                )),
            turn > 0 ==> 0 <= best_turn < turn && not_refuted@[best_turn] == best,
        decreases not_refuted@.len() - turn,
    {
        let item: usize = not_refuted[turn];
        let ghost lists = position_lists(symbols_of(cands[item as int]));
        proof {
            assert(cands[item as int].len() == plaintext_length);
            assert(lists_view(plaintext_position_list@[item as int]@) == lists);
            assert forall|s: int| 0 <= s < 27 implies 27 * (#[trigger] lists[s]).len() + noise
                <= limit by {
                lemma_positions_count_bounded(symbols_of(cands[item as int]), s as u8);
            }
            assert forall|s: int| 0 <= s < 27 implies 27 * (
            #[trigger] plaintext_position_list@[item as int]@[s])@.len() + noise <= u64::MAX by {
                assert(lists_view(plaintext_position_list@[item as int]@)[s] == lists[s]);
                assert(27 * lists[s].len() + noise <= limit);
            }
            lemma_histogram_bounded(lists, noise as int, limit);
            lemma_squared_distance_bounded(
                sorted_histogram(lists, noise as int),
                ciphertext_dist@,
                27,
                limit,
            );
            assert(27 * (limit * limit) <= u128::MAX) by (nonlinear_arith)
                requires
                    limit == 28 * 0x1_0000_0000,
            ;
        }
        let plaintext_dist = convert_to_frequency_distribution(
            plaintext_position_list[item].as_slice(),
            noise,
        );
        let diff = calculate_overall_difference(
            plaintext_dist.as_slice(),
            ciphertext_dist.as_slice(),
        );
        if turn == 0 || diff < min_diff {
            best = item;
            min_diff = diff;
            proof {
                best_turn = turn as int;
            }
        }
        turn += 1;
    }
    proof {
        assert forall|i: int|
            0 <= i < cands.len() && !candidate_refuted(
                #[trigger] cands[i],
                ct,
            ) implies candidate_score(cands[best as int], ct) <= candidate_score(cands[i], ct) && (i
            < best ==> candidate_score(cands[best as int], ct) < candidate_score(cands[i], ct)) by {
            assert(not_refuted@.contains(i as usize));
            let j = choose|j: int| 0 <= j < not_refuted@.len() && not_refuted@[j] == i as usize;
            assert(not_refuted@[j] == i as usize);
        }
        assert(not_refuted@.contains(best));
    }
    Some(best)
}

} // verus!
