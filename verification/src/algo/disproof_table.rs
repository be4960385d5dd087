//! The table of substitution pairs that have been ruled out for one candidate.

use vstd::prelude::*;
use crate::algo::{column_axiom, column_eliminated, is_axiom, is_symbol, row_axiom, row_eliminated};

verus! {

/// Records, for every pair of a ciphertext symbol and a plaintext symbol,
/// whether the ciphertext symbol can no longer stand for the plaintext symbol.
/// Cells are only ever set, never cleared.
pub struct DisproofTable {
    // Rows are ciphertext symbols, columns are plaintext symbols.
    cipher_to_plain: [[bool; 27]; 27],
}

impl DisproofTable {
    /// Whether the cell of row `c` and column `p` is set. Only meaningful for
    /// `0 <= c < 27` and `0 <= p < 27`.
    pub closed spec fn disproved(&self, c: int, p: int) -> bool {
        self.cipher_to_plain@[c]@[p]
    }

    /// The table as a matrix of 27 rows of 27 cells each.
    pub open spec fn view(&self) -> Seq<Seq<bool>> {
        Seq::new(27, |c: int| Seq::new(27, |p: int| self.disproved(c, p)))
    }

    /// A table in which no pair is ruled out.
    pub fn new() -> (table: Self)
        ensures
            forall|c: int, p: int| 0 <= c < 27 && 0 <= p < 27 ==> !table.disproved(c, p),
    {
        Self { cipher_to_plain: [[false; 27]; 27] }
    }

    /// Whether the pair has been ruled out.
    pub fn is_disproven(&self, ciphertext_symbol: u8, plaintext_symbol: u8) -> (disproven: bool)
        requires
            ciphertext_symbol < 27,
            plaintext_symbol < 27,
        ensures
            disproven == self.disproved(ciphertext_symbol as int, plaintext_symbol as int),
    {
        self.cipher_to_plain[ciphertext_symbol as usize][plaintext_symbol as usize]
    }

    /// Rules the pair out. Every other cell keeps its value; ruling a pair out
    /// twice changes nothing.
    pub fn write_disproven(&mut self, ciphertext_symbol: u8, plaintext_symbol: u8)
        requires
            ciphertext_symbol < 27,
            plaintext_symbol < 27,
        ensures
            forall|c: int, p: int|
                0 <= c < 27 && 0 <= p < 27 ==> final(self).disproved(c, p) == (old(self).disproved(
                    c,
                    p,
                ) || (c == ciphertext_symbol && p == plaintext_symbol)),
    {
        self.cipher_to_plain[ciphertext_symbol as usize][plaintext_symbol as usize] = true;
    }

    /// Whether every cell of the row is set: the ciphertext symbol can stand
    /// for no plaintext symbol.
    pub fn row_fully_eliminated(&self, ciphertext_symbol: u8) -> (eliminated: bool)
        requires
            ciphertext_symbol < 27,
        ensures
            eliminated == row_eliminated(self@, ciphertext_symbol as int),
    {
        let mut plaintext_symbol: u8 = 0;
        while plaintext_symbol < 27
            invariant
                plaintext_symbol <= 27,
                ciphertext_symbol < 27,
                forall|p: int|
                    0 <= p < plaintext_symbol ==> #[trigger] self@[ciphertext_symbol as int][p],
            decreases 27 - plaintext_symbol,
        {
            if !self.is_disproven(ciphertext_symbol, plaintext_symbol) {
                proof {
                    assert(!self@[ciphertext_symbol as int][plaintext_symbol as int]);
                }
                return false;
            }
            plaintext_symbol += 1;
        }
        true
    }

    /// Whether every cell of the column is set: no ciphertext symbol can
    /// stand for the plaintext symbol.
    pub fn column_fully_eliminated(&self, plaintext_symbol: u8) -> (eliminated: bool)
        requires
            plaintext_symbol < 27,
        ensures
            eliminated == column_eliminated(self@, plaintext_symbol as int),
    {
        let mut ciphertext_symbol: u8 = 0;
        while ciphertext_symbol < 27
            invariant
                ciphertext_symbol <= 27,
                plaintext_symbol < 27,
                forall|c: int|
                    0 <= c < ciphertext_symbol ==> #[trigger] self@[c][plaintext_symbol as int],
            decreases 27 - ciphertext_symbol,
        {
            if !self.is_disproven(ciphertext_symbol, plaintext_symbol) {
                proof {
                    assert(!self@[ciphertext_symbol as int][plaintext_symbol as int]);
                }
                return false;
            }
            ciphertext_symbol += 1;
        }
        true
    }

    /// The plaintext symbol that the row forces, if exactly one of its cells
    /// is not set.
    pub fn row_survivor(&self, ciphertext_symbol: u8) -> (survivor: Option<u8>)
        requires
            ciphertext_symbol < 27,
        ensures
            match survivor {
                Some(p) => row_axiom(self@, ciphertext_symbol as int, p as int),
                None => forall|p: int| !row_axiom(self@, ciphertext_symbol as int, p),
            },
    {
        let ghost row = self@[ciphertext_symbol as int];
        let mut found: Option<u8> = None;
        let mut plaintext_symbol: u8 = 0;
        while plaintext_symbol < 27
            invariant
                plaintext_symbol <= 27,
                ciphertext_symbol < 27,
                row == self@[ciphertext_symbol as int],
                match found {
                    Some(p) => p < plaintext_symbol && !row[p as int] && forall|q: int|
                        0 <= q < plaintext_symbol && q != p ==> #[trigger] row[q],
                    None => forall|q: int| 0 <= q < plaintext_symbol ==> #[trigger] row[q],
                },
            decreases 27 - plaintext_symbol,
        {
            if !self.is_disproven(ciphertext_symbol, plaintext_symbol) {
                proof {
                    assert(!row[plaintext_symbol as int]);
                }
                match found {
                    Some(earlier) => {
                        proof {
                            assert forall|p: int| !row_axiom(
                                self@,
                                ciphertext_symbol as int,
                                p,
                            ) by {
                                assert(!row[earlier as int] && !row[plaintext_symbol as int]);
                            }
                        }
                        return None;
                    },
                    None => {
                        found = Some(plaintext_symbol);
                    },
                }
            }
            plaintext_symbol += 1;
        }
        proof {
            if found is None {
                assert forall|p: int| !row_axiom(self@, ciphertext_symbol as int, p) by {
                    if is_symbol(p) {
                        assert(row[p]);
                    }
                }
            }
        }
        found
    }

    /// The ciphertext symbol that the column forces, if exactly one of its
    /// cells is not set.
    pub fn column_survivor(&self, plaintext_symbol: u8) -> (survivor: Option<u8>)
        requires
            plaintext_symbol < 27,
        ensures
            match survivor {
                Some(c) => column_axiom(self@, c as int, plaintext_symbol as int),
                None => forall|c: int| !column_axiom(self@, c, plaintext_symbol as int),
            },
    {
        let ghost m = self@;
        let ghost col = plaintext_symbol as int;
        let mut found: Option<u8> = None;
        let mut ciphertext_symbol: u8 = 0;
        while ciphertext_symbol < 27
            invariant
                ciphertext_symbol <= 27,
                plaintext_symbol < 27,
                m == self@,
                col == plaintext_symbol as int,
                match found {
                    Some(c) => c < ciphertext_symbol && !m[c as int][col] && forall|d: int|
                        0 <= d < ciphertext_symbol && d != c ==> #[trigger] m[d][col],
                    None => forall|d: int| 0 <= d < ciphertext_symbol ==> #[trigger] m[d][col],
                },
            decreases 27 - ciphertext_symbol,
        {
            if !self.is_disproven(ciphertext_symbol, plaintext_symbol) {
                proof {
                    assert(!m[ciphertext_symbol as int][col]);
                }
                match found {
                    Some(earlier) => {
                        proof {
                            assert forall|c: int| !column_axiom(self@, c, col) by {
                                assert(!m[earlier as int][col] && !m[ciphertext_symbol as int][col]);
                            }
                        }
                        return None;
                    },
                    None => {
                        found = Some(ciphertext_symbol);
                    },
                }
            }
            ciphertext_symbol += 1;
        }
        proof {
            if found is None {
                assert forall|c: int| !column_axiom(self@, c, col) by {
                    if is_symbol(c) {
                        assert(m[c][col]);
                    }
                }
            }
        }
        found
    }

    /// The forced pairs: each pair that is the only one left in its row or
    /// in its column, once, as ciphertext symbol and plaintext symbol.
    pub fn axiomatic_pairs(&self) -> (pairs: Vec<(u8, u8)>)
        ensures
            forall|k: int|
                0 <= k < pairs@.len() ==> is_axiom(
                    self@,
                    (#[trigger] pairs@[k]).0 as int,
                    pairs@[k].1 as int,
                ),
            forall|c: int, p: int| #[trigger]
                is_axiom(self@, c, p) ==> pairs@.contains((c as u8, p as u8)),
            forall|i: int, j: int|
                0 <= i < j < pairs@.len() ==> #[trigger] pairs@[i] != #[trigger] pairs@[j],
    {
        let ghost m = self@;
        let mut pairs: Vec<(u8, u8)> = Vec::new();
        let mut ciphertext_symbol: u8 = 0;
        while ciphertext_symbol < 27
            invariant
                ciphertext_symbol <= 27,
                m == self@,
                forall|k: int|
                    0 <= k < pairs@.len() ==> (#[trigger] pairs@[k]).0 < ciphertext_symbol
                        && row_axiom(m, pairs@[k].0 as int, pairs@[k].1 as int),
                forall|i: int, j: int|
                    0 <= i < j < pairs@.len() ==> (#[trigger] pairs@[i]).0
                        < (#[trigger] pairs@[j]).0,
                forall|c: int, p: int|
                    0 <= c < ciphertext_symbol && #[trigger] row_axiom(m, c, p) ==> pairs@.contains(
                        (c as u8, p as u8),
                    ),
            decreases 27 - ciphertext_symbol,
        {
            let ghost before = pairs@;
            match self.row_survivor(ciphertext_symbol) {
                Some(plaintext_symbol) => {
                    pairs.push((ciphertext_symbol, plaintext_symbol));
                    proof {
                        assert(pairs@[before.len() as int] == (ciphertext_symbol, plaintext_symbol));
                        assert forall|c: int, p: int|
                            0 <= c < ciphertext_symbol + 1 && #[trigger] row_axiom(
                                m,
                                c,
                                p,
                            ) implies pairs@.contains((c as u8, p as u8)) by {
                            if c < ciphertext_symbol {
                                assert(before.contains((c as u8, p as u8)));
                                let k = choose|k: int|
                                    0 <= k < before.len() && before[k] == (c as u8, p as u8);
                                assert(pairs@[k] == (c as u8, p as u8));
                            } else {
                                if p != plaintext_symbol {
                                    assert(m[c][p]);
                                }
                            }
                        }
                    }
                },
                None => {},
            }
            ciphertext_symbol += 1;
        }
        let ghost from_rows = pairs@.len();
        let mut plaintext_symbol: u8 = 0;
        while plaintext_symbol < 27
            invariant
                plaintext_symbol <= 27,
                m == self@,
                from_rows <= pairs@.len(),
                forall|k: int|
                    0 <= k < from_rows ==> row_axiom(
                        m,
                        (#[trigger] pairs@[k]).0 as int,
                        pairs@[k].1 as int,
                    ),
                forall|i: int, j: int|
                    0 <= i < j < from_rows ==> (#[trigger] pairs@[i]).0 < (#[trigger] pairs@[j]).0,
                forall|c: int, p: int| #[trigger]
                    row_axiom(m, c, p) ==> pairs@.contains((c as u8, p as u8)),
                forall|k: int|
                    from_rows <= k < pairs@.len() ==> (#[trigger] pairs@[k]).1 < plaintext_symbol
                        && column_axiom(m, pairs@[k].0 as int, pairs@[k].1 as int) && !row_axiom(
                        m,
                        pairs@[k].0 as int,
                        pairs@[k].1 as int,
                    ),
                forall|i: int, j: int|
                    from_rows <= i < j < pairs@.len() ==> (#[trigger] pairs@[i]).1
                        < (#[trigger] pairs@[j]).1,
                forall|c: int, p: int|
                    0 <= p < plaintext_symbol && #[trigger] column_axiom(m, c, p)
                        ==> pairs@.contains((c as u8, p as u8)),
            decreases 27 - plaintext_symbol,
        {
            let ghost before = pairs@;
            match self.column_survivor(plaintext_symbol) {
                Some(ciphertext_symbol) => {
                    let in_row = self.row_survivor(ciphertext_symbol);
                    let known = match in_row {
                        Some(forced) => forced == plaintext_symbol,
                        None => false,
                    };
                    proof {
                        if !known && row_axiom(m, ciphertext_symbol as int, plaintext_symbol as int) {
                            if in_row is Some {
                                assert(m[ciphertext_symbol as int][plaintext_symbol as int]);
                            }
                        }
                    }
                    if !known {
                        pairs.push((ciphertext_symbol, plaintext_symbol));
                    }
                    proof {
                        assert forall|c: int, p: int|
                            0 <= p < plaintext_symbol + 1 && #[trigger] column_axiom(
                                m,
                                c,
                                p,
                            ) implies pairs@.contains((c as u8, p as u8)) by {
                            if p < plaintext_symbol {
                                assert(before.contains((c as u8, p as u8)));
                                let k = choose|k: int|
                                    0 <= k < before.len() && before[k] == (c as u8, p as u8);
                                assert(pairs@[k] == (c as u8, p as u8));
                            } else {
                                if c != ciphertext_symbol {
                                    assert(m[c][p]);
                                }
                                if known {
                                    assert(row_axiom(m, c, p));
                                    assert(before.contains((c as u8, p as u8)));
                                } else {
                                    assert(pairs@[before.len() as int] == (c as u8, p as u8));
                                }
                            }
                        }
                    }
                },
                None => {},
            }
            proof {
                assert forall|c: int, p: int| #[trigger] row_axiom(m, c, p) implies pairs@.contains(
                    (c as u8, p as u8),
                ) by {
                    assert(before.contains((c as u8, p as u8)));
                    let k = choose|k: int| 0 <= k < before.len() && before[k] == (c as u8, p as u8);
                    assert(pairs@[k] == (c as u8, p as u8));
                }
            }
            plaintext_symbol += 1;
        }
        proof {
            assert forall|c: int, p: int| #[trigger] is_axiom(m, c, p) implies pairs@.contains(
                (c as u8, p as u8),
            ) by {}
            assert forall|i: int, j: int| 0 <= i < j < pairs@.len() implies #[trigger] pairs@[i]
                != #[trigger] pairs@[j] by {
                if j < from_rows {
                    assert(pairs@[i].0 < pairs@[j].0);
                } else if i >= from_rows {
                    assert(pairs@[i].1 < pairs@[j].1);
                } else {
                    assert(row_axiom(m, pairs@[i].0 as int, pairs@[i].1 as int));
                    assert(!row_axiom(m, pairs@[j].0 as int, pairs@[j].1 as int));
                }
            }
        }
        pairs
    }
}

} // verus!
