//! How what the sweeps find answers an alignment call.

use crate::alphabet::{
    lemma_same_pairs_cell, lemma_same_pairs_path, lemma_same_pairs_sub, same_pairs,
};
use crate::distance::{lemma_lev_bounds, lev};
use crate::edit::{best_path, lemma_lev_reverse, Operation};
use crate::matrix::{cell, lemma_cell_anchored, lemma_cell_deltas};
use crate::semantics::{
    AlignMode, best_ends, end_cost, ends_upto, first_start, free_start, is_end, least_end_cost,
    least_start_cost, lemma_end_cost_is_cell, lemma_least_end_cost, lemma_least_start_cost,
    mode_distance, region_cost, region_start,
};
use crate::sweep::{bottom, hits};
use vstd::prelude::*;

verus! {

/// The bottom cell of a column of the encoded sequences is the least price
/// of a stretch of the target that ends there.
pub proof fn lemma_bottom_is_end_cost(
    q: Seq<u8>,
    t: Seq<u8>,
    cq: Seq<u8>,
    ct: Seq<u8>,
    mode: AlignMode,
    e: int,
)
    requires
        same_pairs(q, t, cq, ct),
        0 <= e <= t.len(),
    ensures
        bottom(cq, ct, free_start(mode), e) == end_cost(q, t, mode, e),
{
    lemma_same_pairs_cell(q, t, cq, ct, free_start(mode), q.len() as int, e);
    lemma_end_cost_is_cell(q, t, mode, e);
}

/// Under the prefix and infix modes, the columns that a sweep of two
/// non-empty sequences reports are the reportable ends.
pub proof fn lemma_hits_are_ends(
    q: Seq<u8>,
    t: Seq<u8>,
    cq: Seq<u8>,
    ct: Seq<u8>,
    mode: AlignMode,
    d: int,
    e: int,
)
    requires
        same_pairs(q, t, cq, ct),
        !(mode is Global),
        q.len() >= 1,
        t.len() >= 1,
        0 <= e <= t.len(),
    ensures
        hits(cq, ct, free_start(mode), d, e) == ends_upto(q, t, mode, d, e),
    decreases e,
{
    if e > 0 {
        lemma_hits_are_ends(q, t, cq, ct, mode, d, e - 1);
        lemma_bottom_is_end_cost(q, t, cq, ct, mode, e);
    } else {
        assert(ends_upto(q, t, mode, d, -1) =~= Seq::<int>::empty());
        assert(!is_end(q, t, mode, 0));
    }
}

/// The end at position zero costs at least as much as the end after the
/// first target symbol, for a non-empty query.
proof fn lemma_first_end(q: Seq<u8>, t: Seq<u8>, mode: AlignMode)
    requires
        q.len() >= 1,
        t.len() >= 1,
    ensures
        end_cost(q, t, mode, 1) <= end_cost(q, t, mode, 0),
        end_cost(q, t, mode, 0) == q.len(),
{
    let m = q.len() as int;
    let free = free_start(mode);
    lemma_end_cost_is_cell(q, t, mode, 0);
    lemma_end_cost_is_cell(q, t, mode, 1);
    lemma_cell_deltas(q, t, free, m, 1);
    assert(cell(q, t, free, m - 1, 0) == m - 1);
}

/// Under the prefix and infix modes, the least bottom cell of the columns
/// from 1 on is the distance.
pub proof fn lemma_found_distance(
    q: Seq<u8>,
    t: Seq<u8>,
    cq: Seq<u8>,
    ct: Seq<u8>,
    mode: AlignMode,
    d: int,
)
    requires
        same_pairs(q, t, cq, ct),
        !(mode is Global),
        q.len() >= 1,
        t.len() >= 1,
        forall|c: int| 1 <= c <= t.len() ==> #[trigger] bottom(cq, ct, free_start(mode), c) >= d,
        exists|c: int| 1 <= c <= t.len() && #[trigger] bottom(cq, ct, free_start(mode), c) == d,
    ensures
        mode_distance(q, t, mode) == d,
{
    let n = t.len() as int;
    let free = free_start(mode);
    lemma_least_end_cost(q, t, mode, n);
    let x = choose|x: int|
        0 <= x <= n && least_end_cost(q, t, mode, n) == #[trigger] end_cost(q, t, mode, x);
    let c = choose|c: int| 1 <= c <= n && #[trigger] bottom(cq, ct, free, c) == d;
    lemma_bottom_is_end_cost(q, t, cq, ct, mode, c);
    assert(least_end_cost(q, t, mode, n) <= end_cost(q, t, mode, c));
    lemma_first_end(q, t, mode);
    lemma_bottom_is_end_cost(q, t, cq, ct, mode, 1);
    assert(bottom(cq, ct, free, 1) >= d);
    if x >= 1 {
        lemma_bottom_is_end_cost(q, t, cq, ct, mode, x);
        assert(bottom(cq, ct, free, x) >= d);
    }
}

/// Under the prefix and infix modes, where every bottom cell from column 1
/// on is above a bound, so is the distance.
pub proof fn lemma_found_nothing(
    q: Seq<u8>,
    t: Seq<u8>,
    cq: Seq<u8>,
    ct: Seq<u8>,
    mode: AlignMode,
    k: int,
)
    requires
        same_pairs(q, t, cq, ct),
        !(mode is Global),
        q.len() >= 1,
        t.len() >= 1,
        forall|c: int| 1 <= c <= t.len() ==> #[trigger] bottom(cq, ct, free_start(mode), c) > k,
    ensures
        mode_distance(q, t, mode) > k,
{
    let n = t.len() as int;
    let free = free_start(mode);
    lemma_least_end_cost(q, t, mode, n);
    let x = choose|x: int|
        0 <= x <= n && least_end_cost(q, t, mode, n) == #[trigger] end_cost(q, t, mode, x);
    lemma_first_end(q, t, mode);
    lemma_bottom_is_end_cost(q, t, cq, ct, mode, 1);
    assert(bottom(cq, ct, free, 1) > k);
    if x >= 1 {
        lemma_bottom_is_end_cost(q, t, cq, ct, mode, x);
        assert(bottom(cq, ct, free, x) > k);
    }
}

/// Under the global mode no position before the end of the target is reported.
proof fn lemma_global_ends_before(q: Seq<u8>, t: Seq<u8>, d: int, e: int)
    requires
        e < t.len(),
    ensures
        ends_upto(q, t, AlignMode::Global, d, e) == Seq::<int>::empty(),
    decreases e + 1,
{
    if e >= 0 {
        lemma_global_ends_before(q, t, d, e - 1);
    }
}

/// Under the global mode the last cell of the matrix is the distance, and
/// the end of the target is the one end reported.
pub proof fn lemma_global_report(q: Seq<u8>, t: Seq<u8>, cq: Seq<u8>, ct: Seq<u8>)
    requires
        same_pairs(q, t, cq, ct),
    ensures
        bottom(cq, ct, false, t.len() as int) == mode_distance(q, t, AlignMode::Global),
        ends_upto(
            q,
            t,
            AlignMode::Global,
            mode_distance(q, t, AlignMode::Global),
            t.len() as int,
        ) == seq![t.len() as int],
{
    let n = t.len() as int;
    lemma_bottom_is_end_cost(q, t, cq, ct, AlignMode::Global, n);
    assert(t.subrange(0, n) =~= t);
    lemma_global_ends_before(q, t, lev(q, t), n - 1);
    assert(Seq::<int>::empty().push(n) =~= seq![n]);
}

/// The last of the hits is a column whose bottom cell is `d`, and no later
/// column up to `j` is one; there are hits as soon as some column has `d`.
pub proof fn lemma_hits_last(q: Seq<u8>, t: Seq<u8>, free: bool, d: int, j: int)
    requires
        0 <= j,
    ensures
        (exists|c: int| 1 <= c <= j && #[trigger] bottom(q, t, free, c) == d) ==> hits(
            q,
            t,
            free,
            d,
            j,
        ).len() > 0,
        hits(q, t, free, d, j).len() > 0 ==> {
            let c = hits(q, t, free, d, j).last();
            &&& 1 <= c <= j
            &&& bottom(q, t, free, c) == d
            &&& forall|x: int| c < x <= j ==> #[trigger] bottom(q, t, free, x) != d
        },
    decreases j,
{
    if j > 0 {
        lemma_hits_last(q, t, free, d, j - 1);
        if bottom(q, t, free, j) != d {
            if exists|c: int| 1 <= c <= j && #[trigger] bottom(q, t, free, c) == d {
                let c = choose|c: int| 1 <= c <= j && #[trigger] bottom(q, t, free, c) == d;
                assert(1 <= c <= j - 1 && bottom(q, t, free, c) == d);
            }
        }
    }
}

/// The first start is the position before which no stretch has the price `d`.
pub proof fn lemma_first_start(q: Seq<u8>, t: Seq<u8>, e: int, d: int, from: int, s: int)
    requires
        0 <= from <= s < e,
        region_cost(q, t, s, e) == d,
        forall|x: int| from <= x < s ==> #[trigger] region_cost(q, t, x, e) != d,
    ensures
        first_start(q, t, e, d, from) == s,
    decreases s - from,
{
    if from < s {
        assert(region_cost(q, t, from, e) != d);
        lemma_first_start(q, t, e, d, from + 1, s);
    }
}

/// A column of the sweep of the reversed query over the reversed stretch up
/// to `e` prices the stretch of the target that ends at `e` and is as long
/// as the column number.
pub proof fn lemma_reversed_bottom(
    q: Seq<u8>,
    t: Seq<u8>,
    cq: Seq<u8>,
    ct: Seq<u8>,
    e: int,
    c: int,
)
    requires
        same_pairs(q, t, cq, ct),
        0 <= c <= e <= t.len(),
    ensures
        bottom(cq.reverse(), ct.take(e).reverse(), false, c) == region_cost(q, t, e - c, e),
{
    let rq = cq.reverse();
    let rt = ct.take(e).reverse();
    let m = q.len() as int;
    lemma_cell_anchored(rq, rt, m, c);
    assert(rq.take(m) =~= rq);
    assert(rt.take(c) =~= ct.subrange(e - c, e).reverse());
    lemma_lev_reverse(cq, ct.subrange(e - c, e));
    lemma_same_pairs_sub(q, t, cq, ct, e - c, e);
    lemma_same_pairs_path(q, t.subrange(e - c, e), cq, ct.subrange(e - c, e));
}

/// What the sweep of the reversed sequences says about the start of the
/// alignment that ends at `e`: its least bottom cell is the price `d` of the
/// end, and its last hit, counted back from `e`, is the leftmost start.
pub proof fn lemma_reversed_start(
    q: Seq<u8>,
    t: Seq<u8>,
    cq: Seq<u8>,
    ct: Seq<u8>,
    e: int,
    d: int,
)
    requires
        same_pairs(q, t, cq, ct),
        q.len() >= 1,
        1 <= e <= t.len(),
        d == end_cost(q, t, AlignMode::Infix, e),
    ensures
        forall|c: int|
            1 <= c <= e ==> #[trigger] bottom(cq.reverse(), ct.take(e).reverse(), false, c) >= d,
        exists|c: int|
            1 <= c <= e && #[trigger] bottom(cq.reverse(), ct.take(e).reverse(), false, c) == d,
        hits(cq.reverse(), ct.take(e).reverse(), false, d, e).len() > 0,
        first_start(q, t, e, d, 0) == e - hits(
            cq.reverse(),
            ct.take(e).reverse(),
            false,
            d,
            e,
        ).last(),
{
    let rq = cq.reverse();
    let rt = ct.take(e).reverse();
    let m = q.len() as int;
    lemma_least_start_cost(q, t, e, e);
    assert forall|c: int| 1 <= c <= e implies #[trigger] bottom(rq, rt, false, c) >= d by {
        lemma_reversed_bottom(q, t, cq, ct, e, c);
        assert(least_start_cost(q, t, e, e) <= region_cost(q, t, e - c, e));
    }
    let s = choose|x: int|
        0 <= x <= e && least_start_cost(q, t, e, e) == #[trigger] region_cost(q, t, x, e);
    let w = if s < e {
        e - s
    } else {
        1
    };
    assert(bottom(rq, rt, false, w) == d) by {
        lemma_reversed_bottom(q, t, cq, ct, e, w);
        if s == e {
            assert(t.subrange(e, e) =~= Seq::<u8>::empty());
            lemma_lev_bounds(q, t.subrange(e - 1, e));
            assert(least_start_cost(q, t, e, e) <= region_cost(q, t, e - 1, e));
        }
    }
    lemma_hits_last(rq, rt, false, d, e);
    let h = hits(rq, rt, false, d, e);
    let c = h.last();
    lemma_reversed_bottom(q, t, cq, ct, e, c);
    assert forall|x: int| 0 <= x < e - c implies #[trigger] region_cost(q, t, x, e) != d by {
        lemma_reversed_bottom(q, t, cq, ct, e, e - x);
        assert(bottom(rq, rt, false, e - x) != d);
    }
    lemma_first_start(q, t, e, d, 0, e - c);
}

/// Where the first start lies before the end, it starts a stretch of the price `d`.
pub proof fn lemma_first_start_hit(q: Seq<u8>, t: Seq<u8>, e: int, d: int, s: int)
    requires
        0 <= s,
        first_start(q, t, e, d, s) < e,
    ensures
        s <= first_start(q, t, e, d, s) < e,
        region_cost(q, t, first_start(q, t, e, d, s), e) == d,
    decreases e - s,
{
    if s < e && region_cost(q, t, s, e) != d {
        lemma_first_start_hit(q, t, e, d, s + 1);
    }
}

/// Every reported end is a reportable position at which a stretch of the price `d` ends.
pub proof fn lemma_ends_members(q: Seq<u8>, t: Seq<u8>, mode: AlignMode, d: int, e: int, i: int)
    requires
        0 <= i < ends_upto(q, t, mode, d, e).len(),
    ensures
        0 <= ends_upto(q, t, mode, d, e)[i] <= e,
        is_end(q, t, mode, ends_upto(q, t, mode, d, e)[i]),
        end_cost(q, t, mode, ends_upto(q, t, mode, d, e)[i]) == d,
    decreases e + 1,
{
    if e >= 0 {
        let rest = ends_upto(q, t, mode, d, e - 1);
        if i < rest.len() {
            lemma_ends_members(q, t, mode, d, e - 1, i);
        }
    }
}

/// No price is negative.
pub proof fn lemma_end_cost_bounds(q: Seq<u8>, t: Seq<u8>, mode: AlignMode, e: int)
    requires
        0 <= e <= t.len(),
    ensures
        0 <= end_cost(q, t, mode, e),
        end_cost(q, t, mode, 0) == q.len(),
{
    lemma_least_start_cost(q, t, e, e);
    let w = choose|x: int|
        0 <= x <= e && least_start_cost(q, t, e, e) == #[trigger] region_cost(q, t, x, e);
    lemma_lev_bounds(q, t.subrange(w, e));
    lemma_lev_bounds(q, t.subrange(0, e));
    assert(t.subrange(0, 0) =~= Seq::<u8>::empty());
}

/// The distance under a mode is never negative and never above the longer
/// of the two lengths; under the prefix and infix modes it is never above
/// the length of the query.
pub proof fn lemma_distance_bounds(q: Seq<u8>, t: Seq<u8>, mode: AlignMode)
    ensures
        0 <= mode_distance(q, t, mode),
        mode_distance(q, t, mode) <= q.len() || mode_distance(q, t, mode) <= t.len(),
        !(mode is Global) ==> mode_distance(q, t, mode) <= q.len(),
{
    lemma_lev_bounds(q, t);
    if !(mode is Global) {
        let n = t.len() as int;
        lemma_least_end_cost(q, t, mode, n);
        let x = choose|x: int|
            0 <= x <= n && least_end_cost(q, t, mode, n) == #[trigger] end_cost(q, t, mode, x);
        lemma_end_cost_bounds(q, t, mode, x);
        lemma_end_cost_bounds(q, t, mode, 0);
        assert(least_end_cost(q, t, mode, n) <= end_cost(q, t, mode, 0));
    }
}

/// Where a sequence is empty, position 0 is the one end reported under the
/// prefix and infix modes.
proof fn lemma_empty_ends(q: Seq<u8>, t: Seq<u8>, mode: AlignMode, d: int, e: int)
    requires
        q.len() == 0 || t.len() == 0,
        !(mode is Global),
        d == end_cost(q, t, mode, 0),
        0 <= e,
    ensures
        ends_upto(q, t, mode, d, e) == seq![0int],
    decreases e,
{
    if e > 0 {
        lemma_empty_ends(q, t, mode, d, e - 1);
    } else {
        assert(ends_upto(q, t, mode, d, -1) =~= Seq::<int>::empty());
        assert(Seq::<int>::empty().push(0) =~= seq![0int]);
    }
}

/// What is reported where a sequence is empty: under the global mode the
/// length of the other sequence, at the end of the target; under the prefix
/// and infix modes the length of the query, at position 0.
pub proof fn lemma_empty_report(q: Seq<u8>, t: Seq<u8>, mode: AlignMode)
    requires
        q.len() == 0 || t.len() == 0,
    ensures
        mode is Global ==> mode_distance(q, t, mode) == q.len() + t.len() && best_ends(q, t, mode)
            == seq![t.len() as int],
        !(mode is Global) ==> mode_distance(q, t, mode) == q.len() && best_ends(q, t, mode)
            == seq![0int],
        region_start(q, t, mode, 0, mode_distance(q, t, mode)) == 0,
{
    let n = t.len() as int;
    if mode is Global {
        assert(same_pairs(q, t, q, t));
        lemma_global_report(q, t, q, t);
    } else {
        lemma_distance_bounds(q, t, mode);
        lemma_end_cost_bounds(q, t, mode, 0);
        if t.len() == 0 {
        } else {
            lemma_least_end_cost(q, t, mode, n);
        }
        lemma_empty_ends(q, t, mode, mode_distance(q, t, mode), n);
    }
}

/// Against an empty target the path is all insertions; for an empty query it is all deletions.
pub proof fn lemma_path_one_sided(q: Seq<u8>, t: Seq<u8>)
    ensures
        t.len() == 0 ==> best_path(q, t) == Seq::new(
            q.len(),
            |i: int| Operation::InsertionToTarget,
        ),
        q.len() == 0 ==> best_path(q, t) == Seq::new(
            t.len(),
            |i: int| Operation::DeletionFromTarget,
        ),
    decreases q.len() + t.len(),
{
    if t.len() == 0 {
        if q.len() > 0 {
            lemma_path_one_sided(q.drop_last(), t);
        }
        assert(best_path(q, t) =~= Seq::new(q.len(), |i: int| Operation::InsertionToTarget));
    }
    if q.len() == 0 {
        if t.len() > 0 {
            lemma_path_one_sided(q, t.drop_last());
        }
        assert(best_path(q, t) =~= Seq::new(t.len(), |i: int| Operation::DeletionFromTarget));
    }
}

} // verus!
