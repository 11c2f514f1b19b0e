//! The dynamic-programming matrix behind the aligner, and what its cells mean.
//!
//! Row `i` stands for the first `i` query symbols, column `j` for the first
//! `j` target symbols. Rows below the end of the query are allowed: their
//! symbols agree with nothing.

use crate::distance::{lemma_lev_bounds, lemma_lev_push_left, lemma_lev_push_right, lev, min3};
use vstd::prelude::*;

verus! {

/// The price of pairing query symbol `i` with target symbol `j`, both counted from one.
pub open spec fn pair_cost(q: Seq<u8>, t: Seq<u8>, i: int, j: int) -> int {
    if 1 <= i <= q.len() && 1 <= j <= t.len() && q[i - 1] == t[j - 1] {
        0
    } else {
        1
    }
}

/// The value of the top row in column `j`: zero where an alignment may start
/// at any target position, `j` where it must start at the first.
pub open spec fn top(free: bool, j: int) -> int {
    if free {
        0
    } else {
        j
    }
}

/// Cell `(i, j)` of the matrix.
pub open spec fn cell(q: Seq<u8>, t: Seq<u8>, free: bool, i: int, j: int) -> int
    decreases i + j,
{
    if i <= 0 {
        top(free, j)
    } else if j <= 0 {
        i
    } else {
        min3(
            cell(q, t, free, i - 1, j - 1) + pair_cost(q, t, i, j),
            cell(q, t, free, i - 1, j) + 1,
            cell(q, t, free, i, j - 1) + 1,
        )
    }
}

/// Neighbouring cells differ by at most one, a cell is never below its
/// upper-left neighbour, and no cell is negative.
pub proof fn lemma_cell_deltas(q: Seq<u8>, t: Seq<u8>, free: bool, i: int, j: int)
    requires
        0 <= i,
        0 <= j,
    ensures
        0 <= cell(q, t, free, i, j),
        i >= 1 ==> cell(q, t, free, i - 1, j) - 1 <= cell(q, t, free, i, j) <= cell(
            q,
            t,
            free,
            i - 1,
            j,
        ) + 1,
        j >= 1 ==> cell(q, t, free, i, j - 1) - 1 <= cell(q, t, free, i, j) <= cell(
            q,
            t,
            free,
            i,
            j - 1,
        ) + 1,
        i >= 1 && j >= 1 ==> cell(q, t, free, i - 1, j - 1) <= cell(q, t, free, i, j) <= cell(
            q,
            t,
            free,
            i - 1,
            j - 1,
        ) + 1,
    decreases i + j,
{
    if i >= 1 && j >= 1 {
        lemma_cell_deltas(q, t, free, i - 1, j);
        lemma_cell_deltas(q, t, free, i, j - 1);
        lemma_cell_deltas(q, t, free, i - 1, j - 1);
    } else if i >= 1 {
        lemma_cell_deltas(q, t, free, i - 1, j);
    } else if j >= 1 {
        lemma_cell_deltas(q, t, free, i, j - 1);
    }
}

/// Going down `d` rows raises a cell by at most `d`.
pub proof fn lemma_cell_down(q: Seq<u8>, t: Seq<u8>, free: bool, i: int, j: int, d: int)
    requires
        0 <= i,
        0 <= j,
        0 <= d,
    ensures
        cell(q, t, free, i + d, j) <= cell(q, t, free, i, j) + d,
    decreases d,
{
    if d > 0 {
        lemma_cell_down(q, t, free, i, j, d - 1);
        lemma_cell_deltas(q, t, free, i + d, j);
    }
}

/// With a fixed start, a cell is the distance between the two prefixes it stands for.
pub proof fn lemma_cell_anchored(q: Seq<u8>, t: Seq<u8>, i: int, j: int)
    requires
        0 <= i <= q.len(),
        0 <= j <= t.len(),
    ensures
        cell(q, t, false, i, j) == lev(q.take(i), t.take(j)),
    decreases i + j,
{
    if i >= 1 && j >= 1 {
        lemma_cell_anchored(q, t, i - 1, j);
        lemma_cell_anchored(q, t, i, j - 1);
        lemma_cell_anchored(q, t, i - 1, j - 1);
        assert(q.take(i).drop_last() =~= q.take(i - 1));
        assert(t.take(j).drop_last() =~= t.take(j - 1));
    }
}

/// With a free start, a cell is at most its row number.
pub proof fn lemma_cell_free_row(q: Seq<u8>, t: Seq<u8>, i: int, j: int)
    requires
        0 <= i,
        0 <= j,
    ensures
        cell(q, t, true, i, j) <= i,
    decreases i,
{
    if i >= 1 {
        lemma_cell_free_row(q, t, i - 1, j);
        lemma_cell_deltas(q, t, true, i, j);
    }
}

/// With a free start, a cell is no more than the distance between the query
/// prefix and any stretch of the target that ends at its column.
pub proof fn lemma_cell_free_lower(q: Seq<u8>, t: Seq<u8>, i: int, j: int, s: int)
    requires
        0 <= i <= q.len(),
        0 <= s <= j <= t.len(),
    ensures
        cell(q, t, true, i, j) <= lev(q.take(i), t.subrange(s, j)),
    decreases i + j,
{
    lemma_lev_bounds(q.take(i), t.subrange(s, j));
    if i == 0 || j == 0 {
    } else if s == j {
        lemma_cell_free_row(q, t, i, j);
    } else {
        lemma_cell_free_lower(q, t, i - 1, j, s);
        lemma_cell_free_lower(q, t, i, j - 1, s);
        lemma_cell_free_lower(q, t, i - 1, j - 1, s);
        assert(q.take(i).drop_last() =~= q.take(i - 1));
        assert(t.subrange(s, j).drop_last() =~= t.subrange(s, j - 1));
    }
}

/// With a free start, a cell is the distance between the query prefix and
/// some stretch of the target that ends at its column; the start of one such
/// stretch is returned.
pub proof fn lemma_cell_free_attained(q: Seq<u8>, t: Seq<u8>, i: int, j: int) -> (s: int)
    requires
        0 <= i <= q.len(),
        0 <= j <= t.len(),
    ensures
        0 <= s <= j,
        cell(q, t, true, i, j) == lev(q.take(i), t.subrange(s, j)),
    decreases i + j,
{
    if i == 0 {
        j
    } else if j == 0 {
        0
    } else {
        let c = cell(q, t, true, i, j);
        assert(q.take(i) =~= q.take(i - 1).push(q[i - 1]));
        if c == cell(q, t, true, i - 1, j - 1) + pair_cost(q, t, i, j) {
            let s = lemma_cell_free_attained(q, t, i - 1, j - 1);
            lemma_cell_free_lower(q, t, i, j, s);
            assert(q.take(i).drop_last() =~= q.take(i - 1));
            assert(t.subrange(s, j).drop_last() =~= t.subrange(s, j - 1));
            s
        } else if c == cell(q, t, true, i - 1, j) + 1 {
            let s = lemma_cell_free_attained(q, t, i - 1, j);
            lemma_cell_free_lower(q, t, i, j, s);
            lemma_lev_push_left(q.take(i - 1), q[i - 1], t.subrange(s, j));
            s
        } else {
            let s = lemma_cell_free_attained(q, t, i, j - 1);
            lemma_cell_free_lower(q, t, i, j, s);
            assert(t.subrange(s, j) =~= t.subrange(s, j - 1).push(t[j - 1]));
            lemma_lev_push_right(q.take(i), t.subrange(s, j - 1), t[j - 1]);
            s
        }
    }
}

/// With a fixed start, once the first `rows + 1` cells of a column lie above a
/// bound, so do the first `rows + 1` cells of every later column.
pub proof fn lemma_anchored_column_stays_above(
    q: Seq<u8>,
    t: Seq<u8>,
    k: int,
    rows: int,
    j0: int,
    i: int,
    j: int,
)
    requires
        0 <= j0 <= j,
        0 <= i <= rows,
        forall|r: int| 0 <= r <= rows ==> #[trigger] cell(q, t, false, r, j0) > k,
    ensures
        cell(q, t, false, i, j) > k,
    decreases i + j,
{
    if j > j0 {
        if i >= 1 {
            lemma_anchored_column_stays_above(q, t, k, rows, j0, i - 1, j - 1);
            lemma_anchored_column_stays_above(q, t, k, rows, j0, i - 1, j);
            lemma_anchored_column_stays_above(q, t, k, rows, j0, i, j - 1);
        } else {
            assert(cell(q, t, false, 0, j0) > k);
        }
    }
}

} // verus!
