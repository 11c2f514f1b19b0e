//! The sweep over the target: column after column, inside a band of blocks
//! that follows the cells which may still lie within the bound.

use crate::band::{
    advance, Block, copy_blocks, horiz_ok, read_delta, vert_ok, vert_row_ok, widen, widened, within,
};
use crate::block::{bit, disjoint};
use crate::cover::{
    above, beyond, col_traced, covers, first_column, lemma_col_traced, lemma_first_column,
    lemma_follows, lemma_gentle_bound, lemma_lift, lemma_lower_bound, lemma_narrow, lemma_no_widen,
    lemma_step_covers, lemma_verdict, lemma_vert_gentle, lemma_widen, ready,
};
use crate::matrix::{cell, lemma_anchored_column_stays_above, lemma_cell_deltas};
use crate::pattern::{block_count, blocks_for, Pattern};
use vstd::prelude::*;
use vstd::slice::slice_subrange;

verus! {

/// The longest sequence that the engine takes.
pub const MAX_LEN: usize = 0x7fff_ffff;

/// The largest bound that the engine takes.
pub const MAX_BOUND: u64 = 0xffff_ffff;

/// The cell of column `j` in the row of the whole query.
pub open spec fn bottom(q: Seq<u8>, t: Seq<u8>, free: bool, j: int) -> int {
    cell(q, t, free, q.len() as int, j)
}

/// The columns from 1 to `j`, in rising order, whose bottom cell is `d`.
pub open spec fn hits(q: Seq<u8>, t: Seq<u8>, free: bool, d: int, j: int) -> Seq<int>
    decreases j,
{
    if j <= 0 {
        Seq::empty()
    } else if bottom(q, t, free, j) == d {
        hits(q, t, free, d, j - 1).push(j)
    } else {
        hits(q, t, free, d, j - 1)
    }
}

/// The machine indices `ends` are the columns `h`.
pub open spec fn same_places(ends: Seq<usize>, h: Seq<int>) -> bool {
    &&& ends.len() == h.len()
    &&& forall|i: int| 0 <= i < ends.len() ==> #[trigger] ends[i] as int == h[i]
}

/// Columns whose bottom cell is not `d` add nothing to the hits.
pub proof fn lemma_hits_rest(q: Seq<u8>, t: Seq<u8>, free: bool, d: int, j0: int, j: int)
    requires
        0 <= j0 <= j,
        forall|c: int| j0 < c <= j ==> #[trigger] bottom(q, t, free, c) != d,
    ensures
        hits(q, t, free, d, j) == hits(q, t, free, d, j0),
    decreases j,
{
    if j > j0 {
        assert(bottom(q, t, free, j) != d);
        lemma_hits_rest(q, t, free, d, j0, j - 1);
    }
}

/// The blocks of one column of the band.
pub struct Column {
    /// The number of the first block of the band.
    pub first: usize,
    /// The blocks of the band, from the first on.
    pub blocks: Vec<Block>,
}

/// What a sweep found.
pub struct Sweep {
    /// The least bottom cell among the columns asked for, unless it is above the bound.
    pub best: Option<u64>,
    /// The columns at which the least value stands, in rising order.
    pub ends: Vec<usize>,
    /// The band of every column, where it was asked for.
    pub trace: Vec<Column>,
}

/// What a sweep of `t` under the bound `k` must report: for the last column
/// alone its bottom cell, else the least bottom cell of the columns from 1 on
/// together with every column that holds it; nothing where that is above `k`.
pub open spec fn sweep_ok(
    q: Seq<u8>,
    t: Seq<u8>,
    free: bool,
    last_only: bool,
    k: int,
    best: Option<u64>,
    ends: Seq<usize>,
) -> bool {
    let n = t.len() as int;
    if last_only {
        &&& best is Some <==> bottom(q, t, free, n) <= k
        &&& best is Some ==> best->0 as int == bottom(q, t, free, n) && ends == seq![n as usize]
    } else {
        &&& best is None <==> forall|c: int| 1 <= c <= n ==> #[trigger] bottom(q, t, free, c) > k
        &&& best is Some ==> {
            &&& best->0 as int <= k
            &&& forall|c: int| 1 <= c <= n ==> #[trigger] bottom(q, t, free, c) >= best->0 as int
            &&& exists|c: int| 1 <= c <= n && #[trigger] bottom(q, t, free, c) == best->0 as int
            &&& same_places(ends, hits(q, t, free, best->0 as int, n))
        }
    }
}

/// Every stored column can be traced back.
pub open spec fn traced(trace: Seq<Column>, q: Seq<u8>, t: Seq<u8>, free: bool, k: int) -> bool {
    forall|j: int|
        1 <= j <= trace.len() ==> col_traced(
            (#[trigger] trace[j - 1]).blocks@,
            trace[j - 1].first as int,
            q,
            t,
            free,
            j,
            k,
            64 * blocks_for(q.len() as int),
        )
}

/// The band stands for column `j`: its blocks, the first of which is block
/// `first`, record a column that covers the matrix, and where the band
/// reaches the last block, `row_val` is the value in the row of the whole query.
pub open spec fn band_ok(
    blocks: Seq<Block>,
    first: int,
    cur: Seq<int>,
    row_val: u64,
    q: Seq<u8>,
    t: Seq<u8>,
    free: bool,
    j: int,
    k: int,
) -> bool {
    let nb = blocks_for(q.len() as int);
    &&& 0 <= first
    &&& 1 <= blocks.len()
    &&& first + blocks.len() <= nb
    &&& vert_ok(blocks, cur)
    &&& covers(cur, 64 * first, q, t, free, j, k, 64 * nb)
    &&& cur[0] <= 64 * first + j
    &&& first + blocks.len() == nb ==> row_val as int == cur[q.len() - 64 * first]
}

/// A covering column holds no value below zero or above its first value plus its length.
proof fn lemma_band_within(
    blocks: Seq<Block>,
    vals: Seq<int>,
    base: int,
    q: Seq<u8>,
    t: Seq<u8>,
    free: bool,
    j: int,
)
    requires
        0 <= j,
        0 <= base,
        vert_ok(blocks, vals),
        above(vals, base, q, t, free, j),
        vals.len() >= 1,
    ensures
        within(vals, vals[0] + vals.len()),
{
    lemma_vert_gentle(blocks, vals);
    assert forall|x: int| 0 <= x < vals.len() implies 0 <= #[trigger] vals[x] <= vals[0]
        + vals.len() by {
        lemma_gentle_bound(vals, x);
        lemma_cell_deltas(q, t, free, base + x, j);
        assert(vals[base + x - base] >= cell(q, t, free, base + x, j));
    }
}

/// Dropping the last block leaves blocks that record the shortened column.
proof fn lemma_vert_take(blocks: Seq<Block>, cur: Seq<int>)
    requires
        vert_ok(blocks, cur),
        blocks.len() >= 1,
    ensures
        vert_ok(blocks.drop_last(), cur.take(cur.len() - 64)),
{
    let short = cur.take(cur.len() - 64);
    let fewer = blocks.drop_last();
    assert forall|b: int, i: int| 0 <= b < fewer.len() && 0 <= i < 64 implies #[trigger] vert_row_ok(
        fewer,
        short,
        b,
        i,
    ) by {
        assert(vert_row_ok(blocks, cur, b, i));
    }
    assert forall|b: int| 0 <= b < fewer.len() implies disjoint(fewer[b].pv, fewer[b].mv) && (
    #[trigger] fewer[b]).score as int == short[64 * (b + 1)] by {
        assert(blocks[b].score as int == cur[64 * (b + 1)]);
    }
}

/// Dropping the first block leaves blocks that record the column from the
/// end of that block on.
proof fn lemma_vert_skip(blocks: Seq<Block>, cur: Seq<int>)
    requires
        vert_ok(blocks, cur),
        blocks.len() >= 1,
    ensures
        vert_ok(blocks.remove(0), cur.skip(64)),
{
    let rest = cur.skip(64);
    let fewer = blocks.remove(0);
    assert forall|b: int, i: int| 0 <= b < fewer.len() && 0 <= i < 64 implies #[trigger] vert_row_ok(
        fewer,
        rest,
        b,
        i,
    ) by {
        assert(vert_row_ok(blocks, cur, b + 1, i));
        assert(fewer[b] == blocks[b + 1]);
        assert(rest[64 * b + i + 1] == cur[64 * (b + 1) + i + 1]);
        assert(rest[64 * b + i] == cur[64 * (b + 1) + i]);
    }
    assert forall|b: int| 0 <= b < fewer.len() implies disjoint(fewer[b].pv, fewer[b].mv) && (
    #[trigger] fewer[b]).score as int == rest[64 * (b + 1)] by {
        assert(fewer[b] == blocks[b + 1]);
        assert(blocks[b + 1].score as int == cur[64 * ((b + 1) + 1)]);
        assert(rest[64 * (b + 1)] == cur[64 * ((b + 1) + 1)]);
    }
}

/// The band at column zero, under the bound `k`.
fn first_band(m: usize, k: u64, Ghost(q): Ghost<Seq<u8>>, Ghost(t): Ghost<Seq<u8>>, Ghost(free): Ghost<bool>) -> (out: (
    Vec<Block>,
    Ghost<Seq<int>>,
))
    requires
        1 <= m <= MAX_LEN,
        m == q.len(),
        k <= MAX_BOUND,
    ensures
        band_ok(out.0@, 0, out.1@, m as u64, q, t, free, 0, k as int),
{
    let nb = block_count(m);
    let want: u64 = k / 64 + 1;
    let first: usize = if want < nb as u64 {
        want as usize
    } else {
        nb
    };
    let mut blocks: Vec<Block> = Vec::new();
    let mut b: usize = 0;
    while b < first
        invariant
            0 <= b <= first <= nb,
            nb <= MAX_LEN,
            blocks@.len() == b,
            vert_ok(blocks@, first_column(b as int)),
        decreases first - b,
    {
        let ghost before = blocks@;
        let ghost old_col = first_column(b as int);
        blocks.push(
            Block { pv: 0xffff_ffff_ffff_ffff, mv: 0, ph: 0, mh: 0, score: 64 * (b as u64 + 1) },
        );
        proof {
            let col = first_column(b + 1);
            assert forall|c: int, i: int| 0 <= c < blocks@.len() && 0 <= i < 64 implies #[trigger] vert_row_ok(
                blocks@,
                col,
                c,
                i,
            ) by {
                if c < b {
                    assert(vert_row_ok(before, old_col, c, i));
                } else {
                    crate::band::lemma_ones(i);
                }
            }
            assert forall|c: int| 0 <= c < blocks@.len() implies disjoint(
                blocks@[c].pv,
                blocks@[c].mv,
            ) && (#[trigger] blocks@[c]).score as int == col[64 * (c + 1)] by {
                if c < b {
                    assert(blocks@[c] == before[c]);
                    assert(before[c].score as int == old_col[64 * (c + 1)]);
                } else {
                    assert forall|i: int| 0 <= i < 64 implies !(#[trigger] bit(blocks@[c].pv, i)
                        && bit(blocks@[c].mv, i)) by {
                        crate::band::lemma_ones(i);
                    }
                }
            }
        }
        b = b + 1;
    }
    proof {
        lemma_first_column(q, t, free, first as int, k as int, 64 * nb);
    }
    (blocks, Ghost(first_column(first as int)))
}

/// The band is wide enough for the step from column `j` to the next.
pub open spec fn band_ready(
    blocks: Seq<Block>,
    first: int,
    prev: Seq<int>,
    row_val: u64,
    q: Seq<u8>,
    t: Seq<u8>,
    free: bool,
    j: int,
    k: int,
) -> bool {
    let nb = blocks_for(q.len() as int);
    &&& 0 <= first
    &&& 1 <= blocks.len()
    &&& first + blocks.len() <= nb
    &&& vert_ok(blocks, prev)
    &&& ready(prev, 64 * first, q, t, free, j, k, 64 * nb)
    &&& prev[0] <= 64 * first + j
    &&& first + blocks.len() == nb ==> row_val as int == prev[q.len() - 64 * first]
}

/// Widens the band by a block where its last row is still within the bound.
fn grow(
    blocks: &mut Vec<Block>,
    first: usize,
    row_val: u64,
    m: usize,
    k: u64,
    Ghost(cur): Ghost<Seq<int>>,
    Ghost(q): Ghost<Seq<u8>>,
    Ghost(t): Ghost<Seq<u8>>,
    Ghost(free): Ghost<bool>,
    Ghost(j): Ghost<int>,
) -> (out: (u64, Ghost<Seq<int>>))
    requires
        1 <= m <= MAX_LEN,
        m == q.len(),
        0 <= j <= MAX_LEN,
        k <= MAX_BOUND,
        band_ok(old(blocks)@, first as int, cur, row_val, q, t, free, j, k as int),
    ensures
        band_ready(final(blocks)@, first as int, out.1@, out.0, q, t, free, j, k as int),
{
    let nb = block_count(m);
    let ghost rows = 64 * nb;
    let ghost base = 64 * first;
    let len0 = blocks.len();
    let last_score = blocks[len0 - 1].score;
    proof {
        lemma_vert_gentle(blocks@, cur);
        lemma_band_within(blocks@, cur, base, q, t, free, j);
        assert(last_score as int == cur[64 * ((len0 - 1) + 1)]);
        assert(cur.last() == last_score);
    }
    if first + len0 < nb && last_score <= k {
        widen(blocks, Ghost(cur));
        proof {
            lemma_widen(cur, base, q, t, free, j, k as int, rows);
        }
        if first + len0 + 1 == nb {
            let val = last_score + (m - 64 * (first + len0)) as u64;
            proof {
                let w = widened(cur);
                assert(w[m - base] == cur.last() + (m - base - 64 * len0 - 1) + 1);
            }
            (val, Ghost(widened(cur)))
        } else {
            (row_val, Ghost(widened(cur)))
        }
    } else {
        proof {
            lemma_no_widen(cur, base, q, t, free, j, k as int, rows);
        }
        (row_val, Ghost(cur))
    }
}

/// Steps every block of the band from column `j` to column `j + 1`.
fn step(
    blocks: &mut Vec<Block>,
    first: usize,
    row_val: u64,
    pattern: &Pattern,
    target: &[u8],
    j: usize,
    free: bool,
    k: u64,
    Ghost(prev): Ghost<Seq<int>>,
) -> (out: (u64, Ghost<Seq<int>>))
    requires
        pattern.wf(),
        1 <= pattern.query().len() <= MAX_LEN,
        j < target@.len() <= MAX_LEN,
        (target@[j as int] as int) < pattern.size(),
        k <= MAX_BOUND,
        band_ready(
            old(blocks)@,
            first as int,
            prev,
            row_val,
            pattern.query(),
            target@,
            free,
            j as int,
            k as int,
        ),
    ensures
        band_ok(
            final(blocks)@,
            first as int,
            out.1@,
            out.0,
            pattern.query(),
            target@,
            free,
            j + 1,
            k as int,
        ),
        horiz_ok(final(blocks)@, prev, out.1@),
{
    let ghost q = pattern.query();
    let ghost t = target@;
    let m = pattern.codes.len();
    let nb = block_count(m);
    let ghost rows = 64 * nb;
    let ghost base = 64 * first;
    let c = target[j];
    let row: &Vec<u64> = &pattern.masks[c as usize];
    let len = blocks.len();
    let masks = slice_subrange(row.as_slice(), first, first + len);
    let top_delta: i8 = if free {
        0
    } else {
        1
    };
    proof {
        lemma_band_within(blocks@, prev, base, q, t, free, j as int);
    }
    let Ghost(next) = advance(blocks, masks, top_delta, Ghost(prev), Ghost(prev[0] + prev.len()));
    proof {
        assert forall|b: int| 0 <= b < blocks@.len() implies crate::pattern::mask_ok(
            #[trigger] masks@[b],
            q,
            c as int,
            first + b,
        ) by {
            assert(masks@[b] == row@[first + b]);
            assert(crate::pattern::mask_ok(
                pattern.masks@[c as int]@[first + b],
                q,
                c as int,
                first + b,
            ));
        }
        lemma_follows(
            prev,
            next,
            masks@,
            blocks@.len() as int,
            first as int,
            q,
            t,
            c as int,
            j + 1,
        );
        lemma_step_covers(prev, next, base, q, t, free, j as int, k as int, rows);
    }
    if first + len == nb {
        let mb = len - 1;
        let mi = (m - 1) % 64;
        let d = read_delta(blocks[mb].ph, blocks[mb].mh, mi);
        proof {
            assert(crate::band::horiz_row_ok(blocks@, prev, next, mb as int, mi as int));
            assert(64 * mb + mi + 1 == m - base);
            assert(row_val as int == prev[m - base]);
            assert(within(next, prev[0] + prev.len() + 1));
            assert(0 <= next[m - base]);
        }
        let val = if d > 0 {
            row_val + 1
        } else if d < 0 {
            row_val - 1
        } else {
            row_val
        };
        (val, Ghost(next))
    } else {
        (row_val, Ghost(next))
    }
}

/// Drops blocks from the end of the band while the last one ends so far
/// above the bound that none of its rows can be within it.
fn narrow(
    blocks: &mut Vec<Block>,
    first: usize,
    row_val: u64,
    k: u64,
    Ghost(cur): Ghost<Seq<int>>,
    Ghost(q): Ghost<Seq<u8>>,
    Ghost(t): Ghost<Seq<u8>>,
    Ghost(free): Ghost<bool>,
    Ghost(j): Ghost<int>,
) -> (out: Ghost<Seq<int>>)
    requires
        k <= MAX_BOUND,
        band_ok(old(blocks)@, first as int, cur, row_val, q, t, free, j, k as int),
    ensures
        band_ok(final(blocks)@, first as int, out@, row_val, q, t, free, j, k as int),
{
    let ghost mut vals = cur;
    let ghost rows = 64 * blocks_for(q.len() as int);
    while blocks.len() > 1 && blocks[blocks.len() - 1].score >= k + 64
        invariant
            k <= MAX_BOUND,
            rows == 64 * blocks_for(q.len() as int),
            band_ok(blocks@, first as int, vals, row_val, q, t, free, j, k as int),
        decreases blocks@.len(),
    {
        proof {
            lemma_vert_gentle(blocks@, vals);
            lemma_narrow(vals, 64 * first, q, t, free, j, k as int, rows);
            lemma_vert_take(blocks@, vals);
            assert(blocks@[blocks@.len() - 1].score as int == vals[64 * ((blocks@.len() - 1) + 1)]);
            vals = vals.take(vals.len() - 64);
        }
        blocks.pop();
    }
    Ghost(vals)
}

/// Drops blocks from the start of the band, in a matrix with a fixed start,
/// while the first one ends so far above the bound that neither its rows nor
/// any row above them can be within it, now or in a later column. Tells
/// whether the one block left is above the bound as well: then no cell of
/// this column or of a later one is within the bound.
fn lift(
    blocks: &mut Vec<Block>,
    first: usize,
    row_val: u64,
    k: u64,
    j: usize,
    free: bool,
    Ghost(cur): Ghost<Seq<int>>,
    Ghost(q): Ghost<Seq<u8>>,
    Ghost(t): Ghost<Seq<u8>>,
) -> (out: (usize, bool, Ghost<Seq<int>>))
    requires
        k <= MAX_BOUND,
        j <= MAX_LEN,
        q.len() <= MAX_LEN,
        band_ok(old(blocks)@, first as int, cur, row_val, q, t, free, j as int, k as int),
    ensures
        band_ok(final(blocks)@, out.0 as int, out.2@, row_val, q, t, free, j as int, k as int),
        out.1 ==> !free && beyond(0, 64 * blocks_for(q.len() as int), q, t, free, j as int, k as int),
{
    let ghost mut vals = cur;
    let ghost rows = 64 * blocks_for(q.len() as int);
    let mut f = first;
    if free {
        return (f, false, Ghost(vals));
    }
    while blocks.len() > 1 && blocks[0].score >= k + 64 && (f > 0 || j as u64 > k)
        invariant
            k <= MAX_BOUND,
            j <= MAX_LEN,
            q.len() <= MAX_LEN,
            !free,
            rows == 64 * blocks_for(q.len() as int),
            band_ok(blocks@, f as int, vals, row_val, q, t, free, j as int, k as int),
        decreases blocks@.len(),
    {
        proof {
            lemma_vert_gentle(blocks@, vals);
            assert(blocks@[0].score as int == vals[64 * (0int + 1)]);
            lemma_lift(vals, 64 * f, q, t, free, j as int, k as int, rows);
            lemma_vert_skip(blocks@, vals);
            lemma_gentle_bound(vals, 64);
            vals = vals.skip(64);
        }
        blocks.remove(0);
        f = f + 1;
    }
    let dead = blocks.len() == 1 && blocks[0].score >= k + 64 && (f > 0 || j as u64 > k);
    proof {
        if dead {
            lemma_vert_gentle(blocks@, vals);
            assert(blocks@[0].score as int == vals[64 * (0int + 1)]);
            lemma_lift(vals, 64 * f, q, t, free, j as int, k as int, rows);
        }
    }
    (f, dead, Ghost(vals))
}

/// What the sweep has found in the columns from 1 to `j`, where it looks at
/// every column: the least bottom cell that is within the bound, which by
/// then is the bound `kk` itself, and the columns that hold it.
pub open spec fn found_ok(
    q: Seq<u8>,
    t: Seq<u8>,
    free: bool,
    last_only: bool,
    k: int,
    kk: int,
    best: Option<u64>,
    ends: Seq<usize>,
    j: int,
) -> bool {
    if last_only {
        best is None && kk == k
    } else {
        &&& best is None ==> kk == k && forall|c: int|
            1 <= c <= j ==> #[trigger] bottom(q, t, free, c) > k
        &&& best is Some ==> {
            &&& kk == best->0 as int
            &&& kk <= k
            &&& forall|c: int| 1 <= c <= j ==> #[trigger] bottom(q, t, free, c) >= kk
            &&& exists|c: int| 1 <= c <= j && #[trigger] bottom(q, t, free, c) == kk
            &&& same_places(ends, hits(q, t, free, kk, j))
        }
    }
}

/// From column `j` on, no bottom cell is within the bound `kk`.
pub open spec fn dead(q: Seq<u8>, t: Seq<u8>, free: bool, j: int, kk: int) -> bool {
    &&& !free
    &&& forall|c: int| j <= c ==> #[trigger] bottom(q, t, false, c) > kk
}

/// Takes note of the bottom cell of column `col`: `val` holds it where it is
/// within the bound `kk`. A value below the best so far starts a new list of
/// columns and becomes the bound; a value equal to it joins the list.
fn record(
    best: Option<u64>,
    ends: &mut Vec<usize>,
    kk: u64,
    col: usize,
    val: Option<u64>,
    Ghost(q): Ghost<Seq<u8>>,
    Ghost(t): Ghost<Seq<u8>>,
    Ghost(free): Ghost<bool>,
    Ghost(k): Ghost<int>,
) -> (out: (Option<u64>, u64))
    requires
        col >= 1,
        kk <= k,
        found_ok(q, t, free, false, k, kk as int, best, old(ends)@, col - 1),
        val is Some ==> val->0 as int == bottom(q, t, free, col as int) && val->0 <= kk,
        val is None ==> bottom(q, t, free, col as int) > kk,
    ensures
        found_ok(q, t, free, false, k, out.1 as int, out.0, final(ends)@, col as int),
        out.1 <= kk,
{
    match val {
        None => {
            proof {
                if best is Some {
                    let w = choose|c: int| 1 <= c <= col - 1 && #[trigger] bottom(q, t, free, c) == kk;
                    assert(bottom(q, t, free, w) == kk);
                }
            }
            (best, kk)
        },
        Some(v) => {
            let fresh = match best {
                None => true,
                Some(d) => v < d,
            };
            if fresh {
                *ends = Vec::new();
                ends.push(col);
                proof {
                    lemma_hits_rest(q, t, free, v as int, 0, col - 1);
                    assert(hits(q, t, free, v as int, 0) =~= Seq::<int>::empty());
                    assert(bottom(q, t, free, col as int) == v);
                }
                (Some(v), v)
            } else {
                ends.push(col);
                proof {
                    assert(bottom(q, t, free, col as int) == kk);
                }
                (best, kk)
            }
        },
    }
}

/// Sweeps the target under the bound `k`.
///
/// With `free`, an alignment may start at any target position, else only at
/// the first. With `last_only`, the bottom cell of the last column is
/// reported, else the least bottom cell of all columns from 1 on, with every
/// column that holds it. A value above `k` is not reported. With `keep`, the
/// blocks of every column are stored for tracing back.
pub fn sweep(
    pattern: &Pattern,
    target: &[u8],
    free: bool,
    last_only: bool,
    k: u64,
    keep: bool,
) -> (out: Sweep)
    requires
        pattern.wf(),
        1 <= pattern.query().len() <= MAX_LEN,
        1 <= target@.len() <= MAX_LEN,
        forall|j: int| 0 <= j < target@.len() ==> (#[trigger] target@[j] as int) < pattern.size(),
        k <= MAX_BOUND,
        keep ==> last_only,
    ensures
        sweep_ok(pattern.query(), target@, free, last_only, k as int, out.best, out.ends@),
        keep && out.best is Some ==> out.trace@.len() == target@.len() && traced(
            out.trace@,
            pattern.query(),
            target@,
            free,
            k as int,
        ),
{
    let ghost q = pattern.query();
    let ghost t = target@;
    let m = pattern.codes.len();
    let n = target.len();
    let nb = block_count(m);
    let ghost rows = 64 * nb;
    let (band0, Ghost(col0)) = first_band(m, k, Ghost(q), Ghost(t), Ghost(free));
    let mut blocks = band0;
    let mut first: usize = 0;
    let ghost mut cur = col0;
    let mut row_val: u64 = m as u64;
    let mut kk: u64 = k;
    let mut best: Option<u64> = None;
    let mut ends: Vec<usize> = Vec::new();
    let mut trace: Vec<Column> = Vec::new();
    let mut stopped = false;
    let mut j: usize = 0;
    while j < n && !stopped
        invariant
            pattern.wf(),
            q == pattern.query(),
            t == target@,
            m == q.len(),
            n == t.len(),
            1 <= m <= MAX_LEN,
            1 <= n <= MAX_LEN,
            nb == blocks_for(m as int),
            rows == 64 * nb,
            forall|c: int| 0 <= c < target@.len() ==> (#[trigger] target@[c] as int) < pattern.size(),
            k <= MAX_BOUND,
            kk <= k,
            0 <= j <= n,
            keep ==> last_only,
            band_ok(blocks@, first as int, cur, row_val, q, t, free, j as int, kk as int),
            found_ok(q, t, free, last_only, k as int, kk as int, best, ends@, j as int),
            stopped ==> dead(q, t, free, j as int, kk as int),
            keep ==> trace@.len() == j && traced(trace@, q, t, free, k as int),
        decreases n - j,
    {
        let (v1, Ghost(prev)) = grow(
            &mut blocks,
            first,
            row_val,
            m,
            kk,
            Ghost(cur),
            Ghost(q),
            Ghost(t),
            Ghost(free),
            Ghost(j as int),
        );
        let (v2, Ghost(next)) = step(
            &mut blocks,
            first,
            v1,
            pattern,
            target,
            j,
            free,
            kk,
            Ghost(prev),
        );
        row_val = v2;
        if keep {
            let copy = copy_blocks(&blocks);
            let ghost before = trace@;
            trace.push(Column { first, blocks: copy });
            proof {
                lemma_col_traced(
                    blocks@,
                    first as int,
                    prev,
                    next,
                    q,
                    t,
                    free,
                    j as int,
                    k as int,
                    rows,
                );
                assert forall|c: int| 1 <= c <= trace@.len() implies col_traced(
                    (#[trigger] trace@[c - 1]).blocks@,
                    trace@[c - 1].first as int,
                    q,
                    t,
                    free,
                    c,
                    k as int,
                    64 * blocks_for(q.len() as int),
                ) by {
                    if c <= j {
                        assert(trace@[c - 1] == before[c - 1]);
                    }
                }
            }
        }
        proof {
            lemma_verdict(next, 64 * first, q, t, free, j + 1, kk as int, rows, m as int);
        }
        if !last_only {
            let val = if first + blocks.len() == nb && row_val <= kk {
                Some(row_val)
            } else {
                None
            };
            let (b2, k2) = record(
                best,
                &mut ends,
                kk,
                j + 1,
                val,
                Ghost(q),
                Ghost(t),
                Ghost(free),
                Ghost(k as int),
            );
            proof {
                lemma_lower_bound(next, 64 * first, q, t, free, j + 1, kk as int, k2 as int, rows);
            }
            best = b2;
            kk = k2;
        }
        let Ghost(shorter) = narrow(
            &mut blocks,
            first,
            row_val,
            kk,
            Ghost(next),
            Ghost(q),
            Ghost(t),
            Ghost(free),
            Ghost(j + 1),
        );
        j = j + 1;
        let (f2, over, Ghost(after)) = lift(
            &mut blocks,
            first,
            row_val,
            kk,
            j,
            free,
            Ghost(shorter),
            Ghost(q),
            Ghost(t),
        );
        first = f2;
        proof {
            cur = after;
        }
        if over {
            stopped = true;
            proof {
                assert forall|c: int| j <= c implies #[trigger] bottom(q, t, false, c) > kk by {
                    lemma_anchored_column_stays_above(q, t, kk as int, rows, j as int, m as int, c);
                }
            }
        }
    }
    if last_only {
        if !stopped && first + blocks.len() == nb && row_val <= k {
            proof {
                lemma_verdict(cur, 64 * first, q, t, free, n as int, k as int, rows, m as int);
            }
            let mut only: Vec<usize> = Vec::new();
            only.push(n);
            assert(only@ =~= seq![n]);
            Sweep { best: Some(row_val), ends: only, trace }
        } else {
            proof {
                if !stopped {
                    lemma_verdict(cur, 64 * first, q, t, free, n as int, k as int, rows, m as int);
                } else {
                    assert(bottom(q, t, false, n as int) > kk);
                }
            }
            Sweep { best: None, ends, trace }
        }
    } else {
        proof {
            if stopped {
                assert forall|c: int| j < c <= n implies #[trigger] bottom(q, t, free, c)
                    > kk by {}
                lemma_hits_rest(q, t, free, kk as int, j as int, n as int);
            }
            if best is Some {
                let w = choose|c: int| 1 <= c <= j && #[trigger] bottom(q, t, free, c) == kk;
                assert(bottom(q, t, free, w) <= k);
            }
        }
        Sweep { best, ends, trace }
    }
}

} // verus!
