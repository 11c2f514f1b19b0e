//! A column of the matrix as a stack of blocks, and the step that carries it
//! from one target symbol to the next.

use crate::block::{bit, delta, disjoint, h_in, row_ok, step_block, StepOut};
use crate::distance::min3;
use vstd::prelude::*;

verus! {

/// 64 rows of a column.
#[derive(Clone, Copy, Debug)]
pub struct Block {
    /// Rows that lie one above their upper neighbour.
    pub pv: u64,
    /// Rows that lie one below their upper neighbour.
    pub mv: u64,
    /// Rows that lie one above their left neighbour.
    pub ph: u64,
    /// Rows that lie one below their left neighbour.
    pub mh: u64,
    /// The value of the last row.
    pub score: u64,
}

/// Row `i` of block `b` records the difference between its value and the one above it.
pub open spec fn vert_row_ok(blocks: Seq<Block>, cur: Seq<int>, b: int, i: int) -> bool {
    delta(blocks[b].pv, blocks[b].mv, i) == cur[64 * b + i + 1] - cur[64 * b + i]
}

/// The blocks record the column `cur`: its vertical differences, row by row,
/// and its value at the end of each block.
pub open spec fn vert_ok(blocks: Seq<Block>, cur: Seq<int>) -> bool {
    &&& cur.len() == 64 * blocks.len() + 1
    &&& forall|b: int, i: int|
        0 <= b < blocks.len() && 0 <= i < 64 ==> #[trigger] vert_row_ok(blocks, cur, b, i)
    &&& forall|b: int|
        0 <= b < blocks.len() ==> disjoint(blocks[b].pv, blocks[b].mv) && (
        #[trigger] blocks[b]).score as int == cur[64 * (b + 1)]
}

/// Row `i` of block `b` records the difference between its value and the one to its left.
pub open spec fn horiz_row_ok(
    blocks: Seq<Block>,
    prev: Seq<int>,
    cur: Seq<int>,
    b: int,
    i: int,
) -> bool {
    delta(blocks[b].ph, blocks[b].mh, i) == cur[64 * b + i + 1] - prev[64 * b + i + 1]
}

/// The blocks record how the column `cur` differs from the column `prev` to its left.
pub open spec fn horiz_ok(blocks: Seq<Block>, prev: Seq<int>, cur: Seq<int>) -> bool {
    &&& prev.len() == 64 * blocks.len() + 1
    &&& cur.len() == 64 * blocks.len() + 1
    &&& forall|b: int, i: int|
        0 <= b < blocks.len() && 0 <= i < 64 ==> #[trigger] horiz_row_ok(blocks, prev, cur, b, i)
}

/// The price that the masks give to row `i` of block `b`.
pub open spec fn mask_cost(masks: Seq<u64>, b: int, i: int) -> int {
    if bit(masks[b], i) {
        0
    } else {
        1
    }
}

/// Row `i` of block `b` of `cur` follows from its three neighbours by the recurrence.
pub open spec fn stepped_row(
    prev: Seq<int>,
    cur: Seq<int>,
    masks: Seq<u64>,
    b: int,
    i: int,
) -> bool {
    cur[64 * b + i + 1] == min3(
        prev[64 * b + i] + mask_cost(masks, b, i),
        cur[64 * b + i] + 1,
        prev[64 * b + i + 1] + 1,
    )
}

/// The column `cur` follows from the column `prev` by the recurrence, over `n` blocks.
pub open spec fn stepped(prev: Seq<int>, cur: Seq<int>, masks: Seq<u64>, n: int) -> bool {
    forall|b: int, i: int| 0 <= b < n && 0 <= i < 64 ==> #[trigger] stepped_row(prev, cur, masks, b, i)
}

/// All values of a column lie between zero and `bound`.
pub open spec fn within(vals: Seq<int>, bound: int) -> bool {
    forall|r: int| 0 <= r < vals.len() ==> 0 <= #[trigger] vals[r] <= bound
}

/// The rows that one stepped block adds to a column.
pub open spec fn block_rows(prev: Seq<int>, out: StepOut, b: int) -> Seq<int> {
    Seq::new(64, |i: int| prev[64 * b + i + 1] + delta(out.ph, out.mh, i))
}

/// One stepped block continues a column by 64 rows that obey the recurrence.
proof fn lemma_block_rows(
    prev: Seq<int>,
    done: Seq<int>,
    pv: u64,
    mv: u64,
    eq: u64,
    hin: int,
    out: StepOut,
    b: int,
    bound: int,
)
    requires
        0 <= b,
        prev.len() >= 64 * (b + 1) + 1,
        done.len() == 64 * b + 1,
        hin == done[64 * b] - prev[64 * b],
        forall|i: int| 0 <= i < 64 ==> delta(pv, mv, i) == #[trigger] prev[64 * b + i + 1] - prev[64
            * b + i],
        forall|i: int| 0 <= i < 64 ==> #[trigger] row_ok(pv, mv, eq, hin, out, i),
        within(prev, bound),
        within(done, bound + 1),
    ensures
        ({
            let cur = done + block_rows(prev, out, b);
            &&& cur.len() == 64 * (b + 1) + 1
            &&& within(cur, bound + 1)
            &&& forall|i: int|
                0 <= i < 64 ==> #[trigger] cur[64 * b + i + 1] == min3(
                    prev[64 * b + i] + (if bit(eq, i) {
                        0int
                    } else {
                        1int
                    }),
                    cur[64 * b + i] + 1,
                    prev[64 * b + i + 1] + 1,
                )
            &&& forall|i: int|
                0 <= i < 64 ==> delta(out.pv, out.mv, i) == #[trigger] cur[64 * b + i + 1] - cur[64
                    * b + i]
            &&& forall|i: int|
                0 <= i < 64 ==> delta(out.ph, out.mh, i) == #[trigger] cur[64 * b + i + 1] - prev[64
                    * b + i + 1]
        }),
{
    let cur = done + block_rows(prev, out, b);
    assert forall|i: int| 0 <= i < 64 implies #[trigger] cur[64 * b + i + 1] == prev[64 * b + i
        + 1] + delta(out.ph, out.mh, i) by {
        assert(cur[64 * b + i + 1] == block_rows(prev, out, b)[i]);
    }
    assert forall|i: int| 0 <= i < 64 implies cur[64 * b + i] - prev[64 * b + i] == h_in(
        out.ph,
        out.mh,
        hin,
        i,
    ) by {
        if i == 0 {
            assert(cur[64 * b] == done[64 * b]);
        } else {
            assert(cur[64 * b + (i - 1) + 1] == prev[64 * b + (i - 1) + 1] + delta(
                out.ph,
                out.mh,
                i - 1,
            ));
        }
    }
    assert forall|i: int| 0 <= i < 64 implies #[trigger] cur[64 * b + i + 1] == min3(
        prev[64 * b + i] + (if bit(eq, i) {
            0int
        } else {
            1int
        }),
        cur[64 * b + i] + 1,
        prev[64 * b + i + 1] + 1,
    ) && delta(out.pv, out.mv, i) == cur[64 * b + i + 1] - cur[64 * b + i] && 0 <= cur[64 * b + i
        + 1] <= bound + 1 by {
        assert(row_ok(pv, mv, eq, hin, out, i));
        assert(delta(pv, mv, i) == prev[64 * b + i + 1] - prev[64 * b + i]);
        assert(cur[64 * b + i] - prev[64 * b + i] == h_in(out.ph, out.mh, hin, i));
        assert(cur[64 * b + i + 1] == prev[64 * b + i + 1] + delta(out.ph, out.mh, i));
        assert(0 <= prev[64 * b + i] <= bound);
        assert(0 <= prev[64 * b + i + 1] <= bound);
        if i == 0 {
            assert(0 <= done[64 * b] <= bound + 1);
        } else {
            assert(cur[64 * b + (i - 1) + 1] == prev[64 * b + (i - 1) + 1] + delta(
                out.ph,
                out.mh,
                i - 1,
            ));
        }
    }
    assert forall|r: int| 0 <= r < cur.len() implies 0 <= #[trigger] cur[r] <= bound + 1 by {
        if r < done.len() {
            assert(cur[r] == done[r]);
        } else {
            let i = r - 64 * b - 1;
            assert(0 <= cur[64 * b + i + 1] <= bound + 1);
        }
    }
}

/// Carries a column one target symbol further.
///
/// `masks` marks, block by block, the query rows that agree with the symbol;
/// `top_delta` is how much the top row grows. Every row of the new column
/// follows from its neighbours by the recurrence, and the blocks record the
/// new column and how it differs from the old one.
pub fn advance(
    blocks: &mut Vec<Block>,
    masks: &[u64],
    top_delta: i8,
    Ghost(prev): Ghost<Seq<int>>,
    Ghost(bound): Ghost<int>,
) -> (cur: Ghost<Seq<int>>)
    requires
        vert_ok(old(blocks)@, prev),
        masks@.len() >= old(blocks)@.len(),
        0 <= top_delta <= 1,
        within(prev, bound),
        bound < 0x7fff_ffff_ffff_ffff,
    ensures
        final(blocks)@.len() == old(blocks)@.len(),
        vert_ok(final(blocks)@, cur@),
        horiz_ok(final(blocks)@, prev, cur@),
        stepped(prev, cur@, masks@, old(blocks)@.len() as int),
        cur@[0] == prev[0] + top_delta,
        within(cur@, bound + 1),
{
    let n = blocks.len();
    let ghost start = blocks@;
    let ghost mut done: Seq<int> = seq![prev[0] + top_delta];
    let mut hin: i8 = top_delta;
    let mut b: usize = 0;
    assert(0 <= prev[0] <= bound);
    while b < n
        invariant
            0 <= b <= n,
            n == blocks@.len(),
            n == start.len(),
            masks@.len() >= n,
            vert_ok(start, prev),
            within(prev, bound),
            bound < 0x7fff_ffff_ffff_ffff,
            done.len() == 64 * b + 1,
            done[0] == prev[0] + top_delta,
            within(done, bound + 1),
            -1 <= hin <= 1,
            hin == done[64 * b] - prev[64 * b],
            forall|c: int| b <= c < n ==> blocks@[c] == start[c],
            forall|c: int, i: int|
                0 <= c < b && 0 <= i < 64 ==> #[trigger] vert_row_ok(blocks@, done, c, i),
            forall|c: int, i: int|
                0 <= c < b && 0 <= i < 64 ==> #[trigger] horiz_row_ok(blocks@, prev, done, c, i),
            forall|c: int, i: int|
                0 <= c < b && 0 <= i < 64 ==> #[trigger] stepped_row(prev, done, masks@, c, i),
            forall|c: int|
                0 <= c < b ==> disjoint(blocks@[c].pv, blocks@[c].mv) && (
                #[trigger] blocks@[c]).score as int == done[64 * (c + 1)],
        decreases n - b,
    {
        let old_block = blocks[b];
        let eq = masks[b];
        assert(old_block == start[b as int]);
        assert(disjoint(old_block.pv, old_block.mv));
        let out = step_block(old_block.pv, old_block.mv, eq, hin);
        let ghost before = done;
        let ghost seen = blocks@;
        proof {
            assert forall|i: int| 0 <= i < 64 implies delta(old_block.pv, old_block.mv, i)
                == #[trigger] prev[64 * b + i + 1] - prev[64 * b + i] by {
                assert(vert_row_ok(start, prev, b as int, i));
            }
            lemma_block_rows(
                prev,
                before,
                old_block.pv,
                old_block.mv,
                eq,
                hin as int,
                out,
                b as int,
                bound,
            );
            done = before + block_rows(prev, out, b as int);
            assert(old_block.score as int == prev[64 * (b + 1)]);
            assert(0 <= prev[64 * (b + 1)] <= bound);
            assert(delta(out.ph, out.mh, 63) == done[64 * b + 63 + 1] - prev[64 * b + 63 + 1]);
            assert(0 <= done[64 * b + 63 + 1] <= bound + 1);
        }
        let score: u64 = if out.hout > 0 {
            old_block.score + 1
        } else if out.hout < 0 {
            old_block.score - 1
        } else {
            old_block.score
        };
        blocks.set(b, Block { pv: out.pv, mv: out.mv, ph: out.ph, mh: out.mh, score });
        proof {
            assert forall|r: int| 0 <= r < before.len() implies done[r] == before[r] by {}
            assert forall|c: int, i: int| 0 <= c < b + 1 && 0 <= i < 64 implies #[trigger] vert_row_ok(
                blocks@,
                done,
                c,
                i,
            ) by {
                if c < b {
                    assert(vert_row_ok(seen, before, c, i));
                    assert(blocks@[c] == seen[c]);
                    assert(done[64 * c + i + 1] == before[64 * c + i + 1]);
                    assert(done[64 * c + i] == before[64 * c + i]);
                } else {
                    assert(delta(out.pv, out.mv, i) == done[64 * b + i + 1] - done[64 * b + i]);
                }
            }
            assert forall|c: int, i: int| 0 <= c < b + 1 && 0 <= i < 64 implies #[trigger] horiz_row_ok(
                blocks@,
                prev,
                done,
                c,
                i,
            ) by {
                if c < b {
                    assert(horiz_row_ok(seen, prev, before, c, i));
                    assert(blocks@[c] == seen[c]);
                    assert(done[64 * c + i + 1] == before[64 * c + i + 1]);
                } else {
                    assert(delta(out.ph, out.mh, i) == done[64 * b + i + 1] - prev[64 * b + i + 1]);
                }
            }
            assert forall|c: int, i: int| 0 <= c < b + 1 && 0 <= i < 64 implies #[trigger] stepped_row(
                prev,
                done,
                masks@,
                c,
                i,
            ) by {
                if c < b {
                    assert(stepped_row(prev, before, masks@, c, i));
                    assert(done[64 * c + i + 1] == before[64 * c + i + 1]);
                    assert(done[64 * c + i] == before[64 * c + i]);
                } else {
                    assert(done[64 * b + i + 1] == min3(
                        prev[64 * b + i] + (if bit(eq, i) {
                            0int
                        } else {
                            1int
                        }),
                        done[64 * b + i] + 1,
                        prev[64 * b + i + 1] + 1,
                    ));
                }
            }
            assert forall|c: int| 0 <= c < b + 1 implies disjoint(blocks@[c].pv, blocks@[c].mv) && (
            #[trigger] blocks@[c]).score as int == done[64 * (c + 1)] by {
                if c < b {
                    assert(blocks@[c] == seen[c]);
                    assert(seen[c].score as int == before[64 * (c + 1)]);
                    assert(done[64 * (c + 1)] == before[64 * (c + 1)]);
                }
            }
        }
        hin = out.hout;
        b = b + 1;
    }
    Ghost(done)
}

/// A word shifted down by `i` and masked to one bit is bit `i` of the word.
proof fn lemma_read_bit(w: u64, i: u64)
    by (bit_vector)
    requires
        i < 64,
    ensures
        ((w >> i) & 1) <= 1,
        ((w >> i) & 1 == 1) == crate::block::bit64(w, i),
{
}

/// Every bit of the all-ones word is set, none of the zero word.
proof fn lemma_all_ones(i: u64)
    by (bit_vector)
    requires
        i < 64,
    ensures
        crate::block::bit64(0xffff_ffff_ffff_ffffu64, i),
        !crate::block::bit64(0u64, i),
{
}

/// Every bit of the all-ones word is set, none of the zero word, by row number.
pub proof fn lemma_ones(i: int)
    requires
        0 <= i < 64,
    ensures
        bit(0xffff_ffff_ffff_ffffu64, i),
        !bit(0u64, i),
{
    lemma_all_ones(i as u64);
}

/// The difference that a pair of words records for row `i`.
pub fn read_delta(p: u64, m: u64, i: usize) -> (d: i8)
    requires
        i < 64,
    ensures
        d == delta(p, m, i as int),
{
    proof {
        lemma_read_bit(p, i as u64);
        lemma_read_bit(m, i as u64);
    }
    let up: u64 = (p >> (i as u64)) & 1;
    let down: u64 = (m >> (i as u64)) & 1;
    if up == 1 {
        if down == 1 {
            0
        } else {
            1
        }
    } else {
        if down == 1 {
            -1
        } else {
            0
        }
    }
}

/// The column that continues `vals` by 64 rows, each one above the last.
pub open spec fn widened(vals: Seq<int>) -> Seq<int> {
    vals + Seq::new(64, |i: int| vals.last() + i + 1)
}

/// Adds a block below the last one, each of its rows one above the row before.
pub fn widen(blocks: &mut Vec<Block>, Ghost(cur): Ghost<Seq<int>>)
    requires
        vert_ok(old(blocks)@, cur),
        old(blocks)@.len() >= 1,
        cur.last() + 64 <= u64::MAX,
    ensures
        final(blocks)@.len() == old(blocks)@.len() + 1,
        vert_ok(final(blocks)@, widened(cur)),
        final(blocks)@.last().score == old(blocks)@.last().score + 64,
        forall|b: int| 0 <= b < old(blocks)@.len() ==> final(blocks)@[b] == old(blocks)@[b],
{
    let n = blocks.len();
    let last = blocks[n - 1].score;
    assert(last as int == cur[64 * ((n - 1) + 1)]);
    let ghost before = blocks@;
    blocks.push(Block { pv: 0xffff_ffff_ffff_ffff, mv: 0, ph: 0, mh: 0, score: last + 64 });
    proof {
        let w = widened(cur);
        assert forall|b: int, i: int| 0 <= b < blocks@.len() && 0 <= i < 64 implies #[trigger] vert_row_ok(
            blocks@,
            w,
            b,
            i,
        ) by {
            if b < n {
                assert(vert_row_ok(before, cur, b, i));
                assert(blocks@[b] == before[b]);
                assert(w[64 * b + i + 1] == cur[64 * b + i + 1]);
                assert(w[64 * b + i] == cur[64 * b + i]);
            } else {
                lemma_all_ones(i as u64);
                assert(w[64 * b + i + 1] == cur.last() + i + 1);
                if i > 0 {
                    assert(w[64 * b + i] == cur.last() + (i - 1) + 1);
                } else {
                    assert(w[64 * b + i] == cur.last());
                }
            }
        }
        assert forall|b: int| 0 <= b < blocks@.len() implies disjoint(
            blocks@[b].pv,
            blocks@[b].mv,
        ) && (#[trigger] blocks@[b]).score as int == w[64 * (b + 1)] by {
            if b < n {
                assert(blocks@[b] == before[b]);
                assert(before[b].score as int == cur[64 * (b + 1)]);
                assert(w[64 * (b + 1)] == cur[64 * (b + 1)]);
            } else {
                assert(w[64 * (b + 1)] == cur.last() + 63 + 1);
                assert forall|i: int| 0 <= i < 64 implies !(#[trigger] bit(blocks@[b].pv, i)
                    && bit(blocks@[b].mv, i)) by {
                    lemma_all_ones(i as u64);
                }
            }
        }
    }
}

/// Copies a stack of blocks.
pub fn copy_blocks(blocks: &Vec<Block>) -> (out: Vec<Block>)
    ensures
        out@ == blocks@,
{
    let mut out: Vec<Block> = Vec::new();
    let mut b: usize = 0;
    while b < blocks.len()
        invariant
            0 <= b <= blocks@.len(),
            out@ == blocks@.take(b as int),
        decreases blocks@.len() - b,
    {
        out.push(blocks[b]);
        assert(blocks@.take(b + 1) =~= blocks@.take(b as int).push(blocks@[b as int]));
        b = b + 1;
    }
    assert(blocks@.take(blocks@.len() as int) =~= blocks@);
    out
}

} // verus!
