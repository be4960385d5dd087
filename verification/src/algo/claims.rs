//! Bookkeeping for the scan of the rows and columns of a disproof matrix:
//! which cells of a line are set, and which symbols the forced pairs that
//! were met have claimed.

use vstd::prelude::*;
use crate::algo::{
    axioms_conflict, column_axiom, column_eliminated, is_axiom, is_symbol, row_axiom,
    row_eliminated,
};

verus! {

/// What a scan of the first `upto` cells of a line has found: `n` of them set;
/// if one is not set it is `last`; if several are not set, `w1` and `w2` are
/// two of them.
pub open spec fn line_scan(line: Seq<bool>, upto: int, n: int, last: int, w1: int, w2: int) -> bool {
    &&& 0 <= n <= upto
    &&& n == upto ==> forall|q: int| 0 <= q < upto ==> #[trigger] line[q]
    &&& n + 1 == upto ==> 0 <= last < upto && !line[last] && forall|q: int|
        0 <= q < upto && q != last ==> #[trigger] line[q]
    &&& n + 1 < upto ==> 0 <= w1 < upto && 0 <= w2 < upto && w1 != w2 && !line[w1] && !line[w2]
}

/// The same for the first `upto` cells of column `p` of a matrix.
pub open spec fn column_scan(
    m: Seq<Seq<bool>>,
    p: int,
    upto: int,
    n: int,
    last: int,
    w1: int,
    w2: int,
) -> bool {
    &&& 0 <= n <= upto
    &&& n == upto ==> forall|q: int| 0 <= q < upto ==> #[trigger] m[q][p]
    &&& n + 1 == upto ==> 0 <= last < upto && !m[last][p] && forall|q: int|
        0 <= q < upto && q != last ==> #[trigger] m[q][p]
    &&& n + 1 < upto ==> 0 <= w1 < upto && 0 <= w2 < upto && w1 != w2 && !m[w1][p] && !m[w2][p]
}

/// The forced pair `(c, p)` has been met by the scan that has done the first
/// `rows_done` rows and the first `cols_done` columns.
pub open spec fn seen_axiom(m: Seq<Seq<bool>>, c: int, p: int, rows_done: int, cols_done: int) -> bool {
    (c < rows_done && row_axiom(m, c, p)) || (p < cols_done && column_axiom(m, c, p))
}

/// The claimed symbols are those of the forced pairs met so far, and no two of
/// these pairs share a symbol: `partner_of_c` and `partner_of_p` name, for a
/// claimed symbol, the other half of its pair.
pub open spec fn claims_consistent(
    m: Seq<Seq<bool>>,
    occ_c: Seq<bool>,
    occ_p: Seq<bool>,
    partner_of_c: Seq<int>,
    partner_of_p: Seq<int>,
    rows_done: int,
    cols_done: int,
) -> bool {
    &&& occ_c.len() == 27
    &&& occ_p.len() == 27
    &&& partner_of_c.len() == 27
    &&& partner_of_p.len() == 27
    &&& forall|c: int|
        is_symbol(c) && #[trigger] occ_c[c] ==> is_symbol(partner_of_c[c]) && seen_axiom(
            m,
            c,
            partner_of_c[c],
            rows_done,
            cols_done,
        )
    &&& forall|p: int|
        is_symbol(p) && #[trigger] occ_p[p] ==> is_symbol(partner_of_p[p]) && seen_axiom(
            m,
            partner_of_p[p],
            p,
            rows_done,
            cols_done,
        )
    &&& forall|c: int, p: int|
        is_symbol(c) && is_symbol(p) && #[trigger] seen_axiom(m, c, p, rows_done, cols_done)
            ==> occ_c[c] && occ_p[p] && partner_of_c[c] == p && partner_of_p[p] == c
}

/// A row with two cells that are not set holds no forced pair of its own.
pub proof fn lemma_row_skipped(
    m: Seq<Seq<bool>>,
    occ_c: Seq<bool>,
    occ_p: Seq<bool>,
    pc: Seq<int>,
    pp: Seq<int>,
    row: int,
    w1: int,
    w2: int,
)
    requires
        is_symbol(row),
        claims_consistent(m, occ_c, occ_p, pc, pp, row, 0),
        is_symbol(w1),
        is_symbol(w2),
        w1 != w2,
        !m[row][w1],
        !m[row][w2],
    ensures
        claims_consistent(m, occ_c, occ_p, pc, pp, row + 1, 0),
        !row_eliminated(m, row),
{
    assert forall|c: int, p: int|
        is_symbol(c) && is_symbol(p) && #[trigger] seen_axiom(m, c, p, row + 1, 0) implies occ_c[c]
        && occ_p[p] && pc[c] == p && pp[p] == c by {
        if c == row {
            assert(row_axiom(m, row, p));
            assert(m[row][w1] || m[row][w2]);
        } else {
            assert(seen_axiom(m, c, p, row, 0));
        }
    }
    assert forall|c: int| is_symbol(c) && #[trigger] occ_c[c] implies is_symbol(pc[c])
        && seen_axiom(m, c, pc[c], row + 1, 0) by {
        assert(seen_axiom(m, c, pc[c], row, 0));
    }
    assert forall|p: int| is_symbol(p) && #[trigger] occ_p[p] implies is_symbol(pp[p])
        && seen_axiom(m, pp[p], p, row + 1, 0) by {
        assert(seen_axiom(m, pp[p], p, row, 0));
    }
}

/// The forced pair of a row whose symbols are both free is claimed.
pub proof fn lemma_row_claimed(
    m: Seq<Seq<bool>>,
    occ_c: Seq<bool>,
    occ_p: Seq<bool>,
    pc: Seq<int>,
    pp: Seq<int>,
    row: int,
    last: int,
)
    requires
        is_symbol(row),
        claims_consistent(m, occ_c, occ_p, pc, pp, row, 0),
        row_axiom(m, row, last),
        !occ_c[row],
        !occ_p[last],
    ensures
        claims_consistent(
            m,
            occ_c.update(row, true),
            occ_p.update(last, true),
            pc.update(row, last),
            pp.update(last, row),
            row + 1,
            0,
        ),
        !row_eliminated(m, row),
{
    let occ_c_new = occ_c.update(row, true);
    let occ_p_new = occ_p.update(last, true);
    let pc_new = pc.update(row, last);
    let pp_new = pp.update(last, row);
    assert forall|c: int, p: int|
        is_symbol(c) && is_symbol(p) && #[trigger] seen_axiom(m, c, p, row + 1, 0) implies occ_c_new[c]
        && occ_p_new[p] && pc_new[c] == p && pp_new[p] == c by {
        if c == row {
            assert(row_axiom(m, row, p));
            if p != last {
                assert(m[row][p]);
            }
        } else {
            assert(seen_axiom(m, c, p, row, 0));
        }
    }
    assert forall|c: int| is_symbol(c) && #[trigger] occ_c_new[c] implies is_symbol(pc_new[c])
        && seen_axiom(m, c, pc_new[c], row + 1, 0) by {
        if c != row {
            assert(occ_c[c]);
            assert(seen_axiom(m, c, pc[c], row, 0));
        }
    }
    assert forall|p: int| is_symbol(p) && #[trigger] occ_p_new[p] implies is_symbol(pp_new[p])
        && seen_axiom(m, pp_new[p], p, row + 1, 0) by {
        if p != last {
            assert(occ_p[p]);
            assert(seen_axiom(m, pp[p], p, row, 0));
        }
    }
}

/// The forced pair of a row one of whose symbols is taken conflicts with the
/// pair that took it.
pub proof fn lemma_row_conflict(
    m: Seq<Seq<bool>>,
    occ_c: Seq<bool>,
    occ_p: Seq<bool>,
    pc: Seq<int>,
    pp: Seq<int>,
    row: int,
    last: int,
)
    requires
        is_symbol(row),
        claims_consistent(m, occ_c, occ_p, pc, pp, row, 0),
        row_axiom(m, row, last),
        occ_c[row] || occ_p[last],
    ensures
        axioms_conflict(m),
{
    if occ_c[row] {
        assert(seen_axiom(m, row, pc[row], row, 0));
    } else {
        let other = pp[last];
        assert(seen_axiom(m, other, last, row, 0));
        assert(is_axiom(m, other, last) && is_axiom(m, row, last));
    }
}

/// A column with two cells that are not set holds no forced pair of its own.
pub proof fn lemma_column_skipped(
    m: Seq<Seq<bool>>,
    occ_c: Seq<bool>,
    occ_p: Seq<bool>,
    pc: Seq<int>,
    pp: Seq<int>,
    col: int,
    w1: int,
    w2: int,
)
    requires
        is_symbol(col),
        claims_consistent(m, occ_c, occ_p, pc, pp, 27, col),
        is_symbol(w1),
        is_symbol(w2),
        w1 != w2,
        !m[w1][col],
        !m[w2][col],
    ensures
        claims_consistent(m, occ_c, occ_p, pc, pp, 27, col + 1),
        !column_eliminated(m, col),
{
    assert forall|c: int, p: int|
        is_symbol(c) && is_symbol(p) && #[trigger] seen_axiom(m, c, p, 27, col + 1) implies occ_c[c]
        && occ_p[p] && pc[c] == p && pp[p] == c by {
        if !seen_axiom(m, c, p, 27, col) {
            assert(column_axiom(m, c, col));
            assert(m[w1][col] || m[w2][col]);
        }
    }
    assert forall|c: int| is_symbol(c) && #[trigger] occ_c[c] implies is_symbol(pc[c])
        && seen_axiom(m, c, pc[c], 27, col + 1) by {
        assert(seen_axiom(m, c, pc[c], 27, col));
    }
    assert forall|p: int| is_symbol(p) && #[trigger] occ_p[p] implies is_symbol(pp[p])
        && seen_axiom(m, pp[p], p, 27, col + 1) by {
        assert(seen_axiom(m, pp[p], p, 27, col));
    }
}

/// The forced pair of a column whose symbols are both taken is one that a row
/// has claimed.
pub proof fn lemma_column_known(
    m: Seq<Seq<bool>>,
    occ_c: Seq<bool>,
    occ_p: Seq<bool>,
    pc: Seq<int>,
    pp: Seq<int>,
    col: int,
    last: int,
)
    requires
        is_symbol(col),
        claims_consistent(m, occ_c, occ_p, pc, pp, 27, col),
        column_axiom(m, last, col),
        occ_p[col],
    ensures
        occ_c[last],
        claims_consistent(m, occ_c, occ_p, pc, pp, 27, col + 1),
        !column_eliminated(m, col),
{
    let other = pp[col];
    assert(seen_axiom(m, other, col, 27, col));
    assert(row_axiom(m, other, col));
    if other != last {
        assert(m[other][col]);
    }
    assert(seen_axiom(m, last, col, 27, col));
    assert forall|c: int, p: int|
        is_symbol(c) && is_symbol(p) && #[trigger] seen_axiom(m, c, p, 27, col + 1) implies occ_c[c]
        && occ_p[p] && pc[c] == p && pp[p] == c by {
        if !seen_axiom(m, c, p, 27, col) {
            assert(column_axiom(m, c, col));
            if c != last {
                assert(m[c][col]);
            }
        }
    }
    assert forall|c: int| is_symbol(c) && #[trigger] occ_c[c] implies is_symbol(pc[c])
        && seen_axiom(m, c, pc[c], 27, col + 1) by {
        assert(seen_axiom(m, c, pc[c], 27, col));
    }
    assert forall|p: int| is_symbol(p) && #[trigger] occ_p[p] implies is_symbol(pp[p])
        && seen_axiom(m, pp[p], p, 27, col + 1) by {
        assert(seen_axiom(m, pp[p], p, 27, col));
    }
}

/// The forced pair of a column whose symbols are both free is claimed.
pub proof fn lemma_column_claimed(
    m: Seq<Seq<bool>>,
    occ_c: Seq<bool>,
    occ_p: Seq<bool>,
    pc: Seq<int>,
    pp: Seq<int>,
    col: int,
    last: int,
)
    requires
        is_symbol(col),
        claims_consistent(m, occ_c, occ_p, pc, pp, 27, col),
        column_axiom(m, last, col),
        !occ_c[last],
        !occ_p[col],
    ensures
        claims_consistent(
            m,
            occ_c.update(last, true),
            occ_p.update(col, true),
            pc.update(last, col),
            pp.update(col, last),
            27,
            col + 1,
        ),
        !column_eliminated(m, col),
{
    let occ_c_new = occ_c.update(last, true);
    let occ_p_new = occ_p.update(col, true);
    let pc_new = pc.update(last, col);
    let pp_new = pp.update(col, last);
    assert forall|c: int, p: int|
        is_symbol(c) && is_symbol(p) && #[trigger] seen_axiom(m, c, p, 27, col + 1) implies occ_c_new[c]
        && occ_p_new[p] && pc_new[c] == p && pp_new[p] == c by {
        if seen_axiom(m, c, p, 27, col) {
        } else {
            assert(column_axiom(m, c, col));
            if c != last {
                assert(m[c][col]);
            }
        }
    }
    assert forall|c: int| is_symbol(c) && #[trigger] occ_c_new[c] implies is_symbol(pc_new[c])
        && seen_axiom(m, c, pc_new[c], 27, col + 1) by {
        if c != last {
            assert(occ_c[c]);
            assert(seen_axiom(m, c, pc[c], 27, col));
        }
    }
    assert forall|p: int| is_symbol(p) && #[trigger] occ_p_new[p] implies is_symbol(pp_new[p])
        && seen_axiom(m, pp_new[p], p, 27, col + 1) by {
        if p != col {
            assert(occ_p[p]);
            assert(seen_axiom(m, pp[p], p, 27, col));
        }
    }
}

/// The forced pair of a column whose ciphertext symbol alone is taken
/// conflicts with the pair that took it.
pub proof fn lemma_column_conflict(
    m: Seq<Seq<bool>>,
    occ_c: Seq<bool>,
    occ_p: Seq<bool>,
    pc: Seq<int>,
    pp: Seq<int>,
    col: int,
    last: int,
)
    requires
        is_symbol(col),
        claims_consistent(m, occ_c, occ_p, pc, pp, 27, col),
        column_axiom(m, last, col),
        occ_c[last],
        !occ_p[col],
    ensures
        axioms_conflict(m),
{
    let other = pc[last];
    assert(seen_axiom(m, last, other, 27, col));
    assert(is_axiom(m, last, other) && is_axiom(m, last, col));
}

/// Once every row and column is scanned without a conflict, no two forced
/// pairs share a symbol.
pub proof fn lemma_no_conflict_left(
    m: Seq<Seq<bool>>,
    occ_c: Seq<bool>,
    occ_p: Seq<bool>,
    pc: Seq<int>,
    pp: Seq<int>,
)
    requires
        claims_consistent(m, occ_c, occ_p, pc, pp, 27, 27),
    ensures
        !axioms_conflict(m),
{
    assert forall|ca: int, pa: int, cb: int, pb: int|
        #![trigger is_axiom(m, ca, pa), is_axiom(m, cb, pb)]
        is_axiom(m, ca, pa) && is_axiom(m, cb, pb) && (ca == cb || pa == pb) implies ca == cb
        && pa == pb by {
        assert(seen_axiom(m, ca, pa, 27, 27));
        assert(seen_axiom(m, cb, pb, 27, 27));
    }
}

} // verus!
