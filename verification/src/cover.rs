//! What a column that is computed only inside a band knows about the matrix.
//!
//! A banded column holds a value for every row from the row `base`, just
//! above its first block, to the end of its last block. Each value is at
//! least the true cell, and equal to it wherever the true cell is within the
//! bound; every row outside the band is above the bound.

use crate::band::{
    Block, horiz_ok, horiz_row_ok, stepped, stepped_row, vert_ok, vert_row_ok, widened,
};
use crate::block::{bit, delta};
use crate::distance::min3;
use crate::matrix::{
    cell, lemma_anchored_column_stays_above, lemma_cell_deltas, lemma_cell_down, pair_cost, top,
};
use crate::pattern::mask_ok;
use vstd::prelude::*;

verus! {

/// No value of the column is below its cell.
pub open spec fn above(
    vals: Seq<int>,
    base: int,
    q: Seq<u8>,
    t: Seq<u8>,
    free: bool,
    j: int,
) -> bool {
    forall|r: int|
        base <= r < base + vals.len() ==> vals[r - base] >= #[trigger] cell(q, t, free, r, j)
}

/// Wherever a cell of the column is at most `k`, the column holds it exactly.
pub open spec fn exact_within(
    vals: Seq<int>,
    base: int,
    q: Seq<u8>,
    t: Seq<u8>,
    free: bool,
    j: int,
    k: int,
) -> bool {
    forall|r: int|
        base <= r < base + vals.len() && #[trigger] cell(q, t, free, r, j) <= k ==> vals[r - base]
            == cell(q, t, free, r, j)
}

/// The cells of rows `lo` to `hi` of column `j` are all above `k`.
pub open spec fn beyond(
    lo: int,
    hi: int,
    q: Seq<u8>,
    t: Seq<u8>,
    free: bool,
    j: int,
    k: int,
) -> bool {
    forall|r: int| lo <= r <= hi ==> #[trigger] cell(q, t, free, r, j) > k
}

/// The top of the band is sound: a band that starts at the top row holds the
/// value of the top row; a band that starts lower belongs to a matrix with a
/// fixed start, and every row down to its base is above the bound.
pub open spec fn top_ok(
    vals: Seq<int>,
    base: int,
    q: Seq<u8>,
    t: Seq<u8>,
    free: bool,
    j: int,
    k: int,
) -> bool {
    &&& 0 <= base
    &&& 1 <= vals.len()
    &&& base == 0 ==> vals[0] == top(free, j)
    &&& base > 0 ==> !free && beyond(0, base, q, t, free, j, k)
}

/// The banded column `vals`, whose first value belongs to row `base`, stands
/// for column `j` of a matrix of `rows` rows, under the bound `k`.
pub open spec fn covers(
    vals: Seq<int>,
    base: int,
    q: Seq<u8>,
    t: Seq<u8>,
    free: bool,
    j: int,
    k: int,
    rows: int,
) -> bool {
    &&& base + vals.len() <= rows + 1
    &&& top_ok(vals, base, q, t, free, j, k)
    &&& above(vals, base, q, t, free, j)
    &&& exact_within(vals, base, q, t, free, j, k)
    &&& beyond(base + vals.len(), rows, q, t, free, j, k)
}

/// The banded column `vals` is wide enough for the next column to be computed from it.
pub open spec fn ready(
    vals: Seq<int>,
    base: int,
    q: Seq<u8>,
    t: Seq<u8>,
    free: bool,
    j: int,
    k: int,
    rows: int,
) -> bool {
    &&& base + vals.len() <= rows + 1
    &&& top_ok(vals, base, q, t, free, j, k)
    &&& above(vals, base, q, t, free, j)
    &&& exact_within(vals, base, q, t, free, j, k)
    &&& beyond(base + vals.len() - 1, rows - 1, q, t, free, j, k)
}

/// No value of the column is more than one above the value before it.
#[verifier::opaque]
pub open spec fn gentle(vals: Seq<int>) -> bool {
    forall|r: int| 1 <= r < vals.len() ==> #[trigger] vals[r] <= vals[r - 1] + 1
}

/// Every row of `cur` follows from its neighbours by the recurrence of column `j`.
#[verifier::opaque]
pub open spec fn follows(
    prev: Seq<int>,
    cur: Seq<int>,
    base: int,
    q: Seq<u8>,
    t: Seq<u8>,
    j: int,
) -> bool {
    &&& cur.len() == prev.len()
    &&& forall|x: int|
        1 <= x < cur.len() ==> #[trigger] cur[x] == min3(
            prev[x - 1] + pair_cost(q, t, base + x, j),
            cur[x - 1] + 1,
            prev[x] + 1,
        )
}

/// The first column: row `r` holds `r`.
pub open spec fn first_column(n: int) -> Seq<int> {
    Seq::new((64 * n + 1) as nat, |r: int| r)
}

/// The first column covers column zero as soon as it reaches past the bound.
pub proof fn lemma_first_column(
    q: Seq<u8>,
    t: Seq<u8>,
    free: bool,
    n: int,
    k: int,
    rows: int,
)
    requires
        0 <= n,
        64 * n <= rows,
        64 * n > k || 64 * n == rows,
    ensures
        covers(first_column(n), 0, q, t, free, 0, k, rows),
        gentle(first_column(n)),
{
    reveal(gentle);
    let vals = first_column(n);
    assert forall|r: int| 0 <= r implies #[trigger] cell(q, t, free, r, 0) == r by {}
}

/// Blocks record a column whose values rise by at most one per row.
pub proof fn lemma_vert_gentle(blocks: Seq<Block>, cur: Seq<int>)
    requires
        vert_ok(blocks, cur),
    ensures
        gentle(cur),
{
    reveal(gentle);
    assert forall|r: int| 1 <= r < cur.len() implies #[trigger] cur[r] <= cur[r - 1] + 1 by {
        let b = (r - 1) / 64;
        let i = (r - 1) % 64;
        assert(vert_row_ok(blocks, cur, b, i));
    }
}

/// A gentle column stays below its first value plus the row number.
pub proof fn lemma_gentle_bound(vals: Seq<int>, r: int)
    requires
        gentle(vals),
        0 <= r < vals.len(),
    ensures
        vals[r] <= vals[0] + r,
    decreases r,
{
    reveal(gentle);
    if r > 0 {
        lemma_gentle_bound(vals, r - 1);
        assert(vals[r] <= vals[r - 1] + 1);
    }
}

/// In a gentle column, a row is at least a later value minus the rows in between.
pub proof fn lemma_gentle_back(vals: Seq<int>, r: int, d: int)
    requires
        gentle(vals),
        0 <= r,
        0 <= d,
        r + d < vals.len(),
    ensures
        vals[r] >= vals[r + d] - d,
    decreases d,
{
    reveal(gentle);
    if d > 0 {
        lemma_gentle_back(vals, r, d - 1);
        assert(vals[r + d] <= vals[r + d - 1] + 1);
    }
}

/// A covering column may be widened by a block.
pub proof fn lemma_widen(
    vals: Seq<int>,
    base: int,
    q: Seq<u8>,
    t: Seq<u8>,
    free: bool,
    j: int,
    k: int,
    rows: int,
)
    requires
        0 <= j,
        covers(vals, base, q, t, free, j, k, rows),
        base + vals.len() + 64 <= rows + 1,
        gentle(vals),
    ensures
        ready(widened(vals), base, q, t, free, j, k, rows),
        gentle(widened(vals)),
{
    reveal(gentle);
    let w = widened(vals);
    let last = vals.len() - 1;
    assert forall|r: int| base <= r < base + w.len() implies w[r - base] >= #[trigger] cell(
        q,
        t,
        free,
        r,
        j,
    ) by {
        if r < base + vals.len() {
            assert(w[r - base] == vals[r - base]);
        } else {
            lemma_cell_down(q, t, free, base + last, j, r - base - last);
            assert(vals[last] >= cell(q, t, free, base + last, j));
            assert(w[r - base] == vals[last] + (r - base - last));
        }
    }
    assert forall|r: int|
        base <= r < base + w.len() && #[trigger] cell(q, t, free, r, j) <= k implies w[r - base]
        == cell(q, t, free, r, j) by {
        if r < base + vals.len() {
            assert(w[r - base] == vals[r - base]);
        }
    }
    assert forall|r: int| 1 <= r < w.len() implies #[trigger] w[r] <= w[r - 1] + 1 by {
        if r < vals.len() {
            assert(vals[r] <= vals[r - 1] + 1);
        }
    }
}

/// A covering column that spans all rows, or ends above the bound, needs no widening.
pub proof fn lemma_no_widen(
    vals: Seq<int>,
    base: int,
    q: Seq<u8>,
    t: Seq<u8>,
    free: bool,
    j: int,
    k: int,
    rows: int,
)
    requires
        covers(vals, base, q, t, free, j, k, rows),
        base + vals.len() == rows + 1 || vals.last() > k,
    ensures
        ready(vals, base, q, t, free, j, k, rows),
{
    let last = vals.len() - 1;
    if base + vals.len() != rows + 1 {
        if cell(q, t, free, base + last, j) <= k {
            assert(vals[base + last - base] == cell(q, t, free, base + last, j));
        }
    }
}

/// One row of the step from a ready column to the next covering column.
proof fn lemma_step_row(
    prev: Seq<int>,
    cur: Seq<int>,
    base: int,
    q: Seq<u8>,
    t: Seq<u8>,
    free: bool,
    j: int,
    k: int,
    rows: int,
    x: int,
)
    requires
        0 <= j,
        ready(prev, base, q, t, free, j, k, rows),
        follows(prev, cur, base, q, t, j + 1),
        cur[0] == prev[0] + (if free {
            0int
        } else {
            1int
        }),
        0 <= x < cur.len(),
    ensures
        cur[x] >= cell(q, t, free, base + x, j + 1),
        cell(q, t, free, base + x, j + 1) <= k ==> cur[x] == cell(q, t, free, base + x, j + 1),
    decreases x,
{
    reveal(follows);
    if x > 0 {
        let r = base + x;
        lemma_step_row(prev, cur, base, q, t, free, j, k, rows, x - 1);
        assert(prev[r - 1 - base] >= cell(q, t, free, r - 1, j));
        assert(prev[r - base] >= cell(q, t, free, r, j));
        assert(cur[x] == min3(
            prev[x - 1] + pair_cost(q, t, base + x, j + 1),
            cur[x - 1] + 1,
            prev[x] + 1,
        ));
        lemma_cell_deltas(q, t, free, r, j + 1);
        lemma_cell_deltas(q, t, free, r - 1, j);
        lemma_cell_deltas(q, t, free, r, j);
        lemma_cell_deltas(q, t, free, r - 1, j + 1);
    } else {
        assert(prev[base - base] >= cell(q, t, free, base, j));
        lemma_cell_deltas(q, t, free, base, j + 1);
        if base > 0 {
            lemma_anchored_column_stays_above(q, t, k, base, j, base, j + 1);
        }
    }
}

/// The column computed from a ready column covers the next column.
pub proof fn lemma_step_covers(
    prev: Seq<int>,
    cur: Seq<int>,
    base: int,
    q: Seq<u8>,
    t: Seq<u8>,
    free: bool,
    j: int,
    k: int,
    rows: int,
)
    requires
        0 <= j,
        ready(prev, base, q, t, free, j, k, rows),
        follows(prev, cur, base, q, t, j + 1),
        cur[0] == prev[0] + (if free {
            0int
        } else {
            1int
        }),
    ensures
        covers(cur, base, q, t, free, j + 1, k, rows),
{
    reveal(follows);
    assert forall|r: int| base <= r < base + cur.len() implies cur[r - base] >= #[trigger] cell(
        q,
        t,
        free,
        r,
        j + 1,
    ) by {
        lemma_step_row(prev, cur, base, q, t, free, j, k, rows, r - base);
    }
    assert forall|r: int|
        base <= r < base + cur.len() && #[trigger] cell(q, t, free, r, j + 1) <= k implies cur[r
        - base] == cell(q, t, free, r, j + 1) by {
        lemma_step_row(prev, cur, base, q, t, free, j, k, rows, r - base);
    }
    assert forall|r: int| base + cur.len() <= r <= rows implies #[trigger] cell(
        q,
        t,
        free,
        r,
        j + 1,
    ) > k by {
        lemma_cell_deltas(q, t, free, r, j + 1);
        assert(cell(q, t, free, r - 1, j) > k);
    }
    if base > 0 {
        assert forall|r: int| 0 <= r <= base implies #[trigger] cell(q, t, free, r, j + 1) > k by {
            lemma_anchored_column_stays_above(q, t, k, base, j, r, j + 1);
        }
    }
}

/// A covering column whose last block ends far above the bound may drop that block.
pub proof fn lemma_narrow(
    vals: Seq<int>,
    base: int,
    q: Seq<u8>,
    t: Seq<u8>,
    free: bool,
    j: int,
    k: int,
    rows: int,
)
    requires
        covers(vals, base, q, t, free, j, k, rows),
        gentle(vals),
        vals.len() >= 65,
        vals.last() >= k + 64,
    ensures
        beyond(base + vals.len() - 64, rows, q, t, free, j, k),
        covers(vals.take(vals.len() - 64), base, q, t, free, j, k, rows),
        gentle(vals.take(vals.len() - 64)),
{
    reveal(gentle);
    let short = vals.take(vals.len() - 64);
    let last = vals.len() - 1;
    assert forall|r: int| base + vals.len() - 64 <= r <= rows implies #[trigger] cell(
        q,
        t,
        free,
        r,
        j,
    ) > k by {
        if r < base + vals.len() {
            lemma_gentle_back(vals, r - base, last - (r - base));
            if cell(q, t, free, r, j) <= k {
                assert(vals[r - base] == cell(q, t, free, r, j));
            }
        }
    }
    assert forall|r: int| 1 <= r < short.len() implies #[trigger] short[r] <= short[r - 1] + 1 by {
        assert(vals[r] <= vals[r - 1] + 1);
    }
    assert forall|r: int| base <= r < base + short.len() implies short[r - base]
        >= #[trigger] cell(q, t, free, r, j) by {
        assert(short[r - base] == vals[r - base]);
    }
    assert forall|r: int|
        base <= r < base + short.len() && #[trigger] cell(q, t, free, r, j) <= k implies short[r
        - base] == cell(q, t, free, r, j) by {
        assert(short[r - base] == vals[r - base]);
    }
}

/// A covering column of a matrix with a fixed start may drop its first
/// block, once that block ends far above the bound and the row above the
/// block is above the bound as well.
pub proof fn lemma_lift(
    vals: Seq<int>,
    base: int,
    q: Seq<u8>,
    t: Seq<u8>,
    free: bool,
    j: int,
    k: int,
    rows: int,
)
    requires
        covers(vals, base, q, t, free, j, k, rows),
        gentle(vals),
        !free,
        vals.len() >= 65,
        vals[64] >= k + 64,
        base > 0 || vals[0] > k,
    ensures
        beyond(0, base + 64, q, t, free, j, k),
        vals.len() >= 66 ==> covers(vals.skip(64), base + 64, q, t, free, j, k, rows),
        gentle(vals.skip(64)),
{
    reveal(gentle);
    let rest = vals.skip(64);
    assert forall|r: int| 0 <= r <= base + 64 implies #[trigger] cell(q, t, free, r, j) > k by {
        if r >= base {
            lemma_gentle_back(vals, r - base, 64 - (r - base));
            if cell(q, t, free, r, j) <= k {
                assert(vals[r - base] == cell(q, t, free, r, j));
            }
        }
    }
    assert forall|r: int| 1 <= r < rest.len() implies #[trigger] rest[r] <= rest[r - 1] + 1 by {
        assert(vals[r + 64] <= vals[r + 64 - 1] + 1);
    }
    if vals.len() >= 66 {
        assert forall|r: int| base + 64 <= r < base + 64 + rest.len() implies rest[r - (base
            + 64)] >= #[trigger] cell(q, t, free, r, j) by {
            assert(rest[r - (base + 64)] == vals[r - base]);
        }
        assert forall|r: int|
            base + 64 <= r < base + 64 + rest.len() && #[trigger] cell(q, t, free, r, j)
                <= k implies rest[r - (base + 64)] == cell(q, t, free, r, j) by {
            assert(rest[r - (base + 64)] == vals[r - base]);
        }
    }
}

/// The recurrence read off the masks of a target symbol is the recurrence of the matrix.
pub proof fn lemma_follows(
    prev: Seq<int>,
    cur: Seq<int>,
    masks: Seq<u64>,
    n: int,
    first: int,
    q: Seq<u8>,
    t: Seq<u8>,
    c: int,
    j: int,
)
    requires
        0 <= first,
        0 <= n <= masks.len(),
        prev.len() == 64 * n + 1,
        cur.len() == 64 * n + 1,
        stepped(prev, cur, masks, n),
        1 <= j <= t.len(),
        t[j - 1] as int == c,
        forall|b: int| 0 <= b < n ==> mask_ok(#[trigger] masks[b], q, c, first + b),
    ensures
        follows(prev, cur, 64 * first, q, t, j),
{
    reveal(follows);
    assert forall|x: int| 1 <= x < cur.len() implies #[trigger] cur[x] == min3(
        prev[x - 1] + pair_cost(q, t, 64 * first + x, j),
        cur[x - 1] + 1,
        prev[x] + 1,
    ) by {
        let b = (x - 1) / 64;
        let i = (x - 1) % 64;
        assert(stepped_row(prev, cur, masks, b, i));
        assert(mask_ok(masks[b], q, c, first + b));
        assert(bit(masks[b], i) <==> (64 * (first + b) + i < q.len() && q[64 * (first + b)
            + i] as int == c));
        assert(64 * b + i == x - 1);
    }
}

/// A covering column covers under every smaller bound as well.
pub proof fn lemma_lower_bound(
    vals: Seq<int>,
    base: int,
    q: Seq<u8>,
    t: Seq<u8>,
    free: bool,
    j: int,
    k: int,
    k2: int,
    rows: int,
)
    requires
        covers(vals, base, q, t, free, j, k, rows),
        k2 <= k,
    ensures
        covers(vals, base, q, t, free, j, k2, rows),
{
    assert forall|r: int|
        base <= r < base + vals.len() && #[trigger] cell(q, t, free, r, j) <= k2 implies vals[r
        - base] == cell(q, t, free, r, j) by {}
    assert forall|r: int| base + vals.len() <= r <= rows implies #[trigger] cell(q, t, free, r, j)
        > k2 by {}
    if base > 0 {
        assert forall|r: int| 0 <= r <= base implies #[trigger] cell(q, t, free, r, j) > k2 by {}
    }
}

/// What a covering column says about one of the rows of the matrix.
pub proof fn lemma_verdict(
    vals: Seq<int>,
    base: int,
    q: Seq<u8>,
    t: Seq<u8>,
    free: bool,
    j: int,
    k: int,
    rows: int,
    r: int,
)
    requires
        covers(vals, base, q, t, free, j, k, rows),
        base < r <= rows,
    ensures
        r < base + vals.len() && vals[r - base] <= k ==> cell(q, t, free, r, j) == vals[r - base],
        r < base + vals.len() && vals[r - base] > k ==> cell(q, t, free, r, j) > k,
        r >= base + vals.len() ==> cell(q, t, free, r, j) > k,
{
    if r < base + vals.len() {
        assert(vals[r - base] >= cell(q, t, free, r, j));
    }
}

/// The blocks of column `j`, the first of which is block `first`, tell for
/// row `r` whether the cell above and the cell to the left lie exactly one
/// below the cell itself.
pub open spec fn traced_row(
    blocks: Seq<Block>,
    first: int,
    q: Seq<u8>,
    t: Seq<u8>,
    free: bool,
    j: int,
    r: int,
) -> bool {
    let x = r - 64 * first;
    let b = (x - 1) / 64;
    let i = (x - 1) % 64;
    &&& 1 <= x <= 64 * blocks.len()
    &&& (delta(blocks[b].pv, blocks[b].mv, i) == 1 <==> cell(q, t, free, r - 1, j) + 1 == cell(
        q,
        t,
        free,
        r,
        j,
    ))
    &&& (delta(blocks[b].ph, blocks[b].mh, i) == 1 <==> cell(q, t, free, r, j - 1) + 1 == cell(
        q,
        t,
        free,
        r,
        j,
    ))
}

/// The blocks of column `j` can be traced back from every cell that is within the bound.
pub open spec fn col_traced(
    blocks: Seq<Block>,
    first: int,
    q: Seq<u8>,
    t: Seq<u8>,
    free: bool,
    j: int,
    k: int,
    rows: int,
) -> bool {
    forall|r: int|
        1 <= r <= rows && #[trigger] cell(q, t, free, r, j) <= k ==> traced_row(
            blocks,
            first,
            q,
            t,
            free,
            j,
            r,
        )
}

/// A column computed from a ready column can be traced back.
pub proof fn lemma_col_traced(
    blocks: Seq<Block>,
    first: int,
    prev: Seq<int>,
    cur: Seq<int>,
    q: Seq<u8>,
    t: Seq<u8>,
    free: bool,
    j: int,
    k: int,
    rows: int,
)
    requires
        0 <= j,
        0 <= first,
        ready(prev, 64 * first, q, t, free, j, k, rows),
        covers(cur, 64 * first, q, t, free, j + 1, k, rows),
        vert_ok(blocks, cur),
        horiz_ok(blocks, prev, cur),
    ensures
        col_traced(blocks, first, q, t, free, j + 1, k, rows),
{
    let base = 64 * first;
    assert forall|r: int| 1 <= r <= rows && #[trigger] cell(q, t, free, r, j + 1)
        <= k implies traced_row(blocks, first, q, t, free, j + 1, r) by {
        let x = r - base;
        let b = (x - 1) / 64;
        let i = (x - 1) % 64;
        assert(r < base + cur.len());
        assert(r > base);
        assert(cur[r - base] == cell(q, t, free, r, j + 1));
        assert(vert_row_ok(blocks, cur, b, i));
        assert(horiz_row_ok(blocks, prev, cur, b, i));
        assert(64 * b + i + 1 == x);
        assert(cur[r - 1 - base] >= cell(q, t, free, r - 1, j + 1));
        assert(prev[r - base] >= cell(q, t, free, r, j));
        if cell(q, t, free, r - 1, j + 1) <= k {
            assert(cur[r - 1 - base] == cell(q, t, free, r - 1, j + 1));
        }
        if cell(q, t, free, r, j) <= k {
            assert(prev[r - base] == cell(q, t, free, r, j));
        }
    }
}

} // verus!
