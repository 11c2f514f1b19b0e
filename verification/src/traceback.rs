//! The walk back through the stored columns, from the last cell to the
//! first, that reads off the operations of the reported path.

use crate::band::{Block, read_delta};
use crate::cover::{col_traced, traced_row};
use crate::edit::{best_path, Operation};
use crate::matrix::{cell, lemma_cell_anchored, lemma_cell_deltas};
use crate::pattern::{blocks_for, Pattern};
use crate::sweep::{Column, MAX_BOUND, MAX_LEN, traced};
use vstd::prelude::*;

verus! {

/// Reverses a run of operations.
pub fn reversed(ops: &Vec<Operation>) -> (out: Vec<Operation>)
    ensures
        out@ == ops@.reverse(),
{
    let mut out: Vec<Operation> = Vec::new();
    let n = ops.len();
    let mut i: usize = 0;
    while i < n
        invariant
            0 <= i <= n,
            n == ops@.len(),
            out@.len() == i,
            forall|x: int| 0 <= x < i ==> out@[x] == ops@[n - 1 - x],
        decreases n - i,
    {
        out.push(ops[n - 1 - i]);
        i = i + 1;
    }
    assert(out@ =~= ops@.reverse());
    out
}

/// The path of the prefixes `q.take(i)` and `t.take(j)` ends with the
/// operation that the three neighbours of cell `(i, j)` single out.
proof fn lemma_path_step(q: Seq<u8>, t: Seq<u8>, i: int, j: int)
    requires
        0 <= i <= q.len(),
        0 <= j <= t.len(),
        i > 0 || j > 0,
    ensures
        ({
            let here = best_path(q.take(i), t.take(j));
            let c = cell(q, t, false, i, j);
            if i == 0 {
                here == best_path(q.take(i), t.take(j - 1)).push(Operation::DeletionFromTarget)
            } else if j == 0 {
                here == best_path(q.take(i - 1), t.take(j)).push(Operation::InsertionToTarget)
            } else if cell(q, t, false, i - 1, j) + 1 == c {
                here == best_path(q.take(i - 1), t.take(j)).push(Operation::InsertionToTarget)
            } else if cell(q, t, false, i, j - 1) + 1 == c {
                here == best_path(q.take(i), t.take(j - 1)).push(Operation::DeletionFromTarget)
            } else if q[i - 1] == t[j - 1] {
                &&& here == best_path(q.take(i - 1), t.take(j - 1)).push(Operation::Match)
                &&& cell(q, t, false, i - 1, j - 1) == c
            } else {
                &&& here == best_path(q.take(i - 1), t.take(j - 1)).push(Operation::Mismatch)
                &&& cell(q, t, false, i - 1, j - 1) + 1 == c
            }
        }),
{
    if i > 0 {
        assert(q.take(i).drop_last() =~= q.take(i - 1));
        lemma_cell_anchored(q, t, i - 1, j);
    }
    if j > 0 {
        assert(t.take(j).drop_last() =~= t.take(j - 1));
        lemma_cell_anchored(q, t, i, j - 1);
    }
    if i > 0 && j > 0 {
        lemma_cell_anchored(q, t, i - 1, j - 1);
    }
    lemma_cell_anchored(q, t, i, j);
}

/// Putting an operation in front of a reversed run is reversing the run with
/// the operation at its end.
proof fn lemma_push_reverse(head: Seq<Operation>, rev: Seq<Operation>, op: Operation)
    ensures
        head.push(op) + rev.reverse() == head + rev.push(op).reverse(),
{
    assert(head.push(op) + rev.reverse() =~= head + rev.push(op).reverse());
}

/// Reads the reported path of the query against `target` off the stored columns.
///
/// `trace` holds the blocks of every column of a sweep under the bound `k`
/// with a fixed start, and `dist`, the last cell of the matrix, is within
/// that bound.
pub fn trace_back(
    pattern: &Pattern,
    target: &[u8],
    trace: &Vec<Column>,
    k: u64,
    dist: u64,
) -> (ops: Vec<Operation>)
    requires
        pattern.wf(),
        1 <= pattern.query().len() <= MAX_LEN,
        1 <= target@.len() <= MAX_LEN,
        k <= MAX_BOUND,
        trace@.len() == target@.len(),
        traced(trace@, pattern.query(), target@, false, k as int),
        dist as int == cell(
            pattern.query(),
            target@,
            false,
            pattern.query().len() as int,
            target@.len() as int,
        ),
        dist <= k,
    ensures
        ops@ == best_path(pattern.query(), target@),
{
    let ghost q = pattern.query();
    let ghost t = target@;
    let m = pattern.codes.len();
    let n = target.len();
    let mut rev: Vec<Operation> = Vec::new();
    let mut i: usize = m;
    let mut j: usize = n;
    let mut v: u64 = dist;
    proof {
        assert(q.take(m as int) =~= q);
        assert(t.take(n as int) =~= t);
        assert(best_path(q, t) + rev@.reverse() =~= best_path(q, t));
    }
    while i > 0 || j > 0
        invariant
            pattern.wf(),
            q == pattern.query(),
            t == target@,
            m == q.len(),
            n == t.len(),
            1 <= m <= MAX_LEN,
            1 <= n <= MAX_LEN,
            k <= MAX_BOUND,
            trace@.len() == n,
            traced(trace@, q, t, false, k as int),
            0 <= i <= m,
            0 <= j <= n,
            v as int == cell(q, t, false, i as int, j as int),
            v <= k,
            rev@.len() + i + j <= m + n,
            best_path(q, t) == best_path(q.take(i as int), t.take(j as int)) + rev@.reverse(),
        decreases i + j,
    {
        proof {
            lemma_path_step(q, t, i as int, j as int);
            lemma_cell_deltas(q, t, false, i as int, j as int);
            if i > 0 {
                lemma_cell_deltas(q, t, false, i - 1, j as int);
            }
            if j > 0 {
                lemma_cell_deltas(q, t, false, i as int, j - 1);
            }
            if i > 0 && j > 0 {
                lemma_cell_deltas(q, t, false, i - 1, j - 1);
            }
        }
        let ghost head = best_path(q.take(i as int), t.take(j as int));
        let op: Operation;
        if i == 0 {
            op = Operation::DeletionFromTarget;
            j = j - 1;
            v = v - 1;
        } else if j == 0 {
            op = Operation::InsertionToTarget;
            i = i - 1;
            v = v - 1;
        } else {
            let band: &Column = &trace[j - 1];
            let col: &Vec<Block> = &band.blocks;
            proof {
                assert(col_traced(
                    trace@[j - 1].blocks@,
                    trace@[j - 1].first as int,
                    q,
                    t,
                    false,
                    j as int,
                    k as int,
                    64 * blocks_for(q.len() as int),
                ));
                assert(traced_row(col@, band.first as int, q, t, false, j as int, i as int));
            }
            let at = i - 1 - 64 * band.first;
            let b = at / 64;
            let x = at % 64;
            let vd = read_delta(col[b].pv, col[b].mv, x);
            let hd = read_delta(col[b].ph, col[b].mh, x);
            if vd == 1 {
                op = Operation::InsertionToTarget;
                i = i - 1;
                v = v - 1;
            } else if hd == 1 {
                op = Operation::DeletionFromTarget;
                j = j - 1;
                v = v - 1;
            } else if pattern.codes[i - 1] == target[j - 1] {
                op = Operation::Match;
                i = i - 1;
                j = j - 1;
            } else {
                op = Operation::Mismatch;
                i = i - 1;
                j = j - 1;
                v = v - 1;
            }
        }
        proof {
            lemma_push_reverse(best_path(q.take(i as int), t.take(j as int)), rev@, op);
        }
        rev.push(op);
    }
    proof {
        assert(q.take(0) =~= Seq::<u8>::empty());
        assert(t.take(0) =~= Seq::<u8>::empty());
        assert(best_path(q.take(0), t.take(0)) + rev@.reverse() =~= rev@.reverse());
    }
    reversed(&rev)
}

} // verus!
