//! Laws of the alignment call, stated over what it returns.

use crate::align::{alignment_of, places};
use crate::alphabet::same_pairs;
use crate::distance::{lemma_lev_same, lemma_lev_symmetric, lemma_lev_triangle};
use crate::edit::{
    aligns, cost, lemma_aligns_spans, lemma_best_path_optimal, lemma_lev_is_lower_bound, Operation,
    query_span, target_span,
};
use crate::matrix::{cell, lemma_cell_deltas};
use crate::report::{lemma_empty_report, lemma_ends_members, lemma_global_report};
use crate::semantics::{
    admits, AlignMode, AlignTask, best_ends, end_cost, ends_upto, first_start, is_end,
    least_end_cost, least_start_cost, lemma_end_cost_is_cell, lemma_least_end_cost,
    lemma_least_start_cost, lemma_mode_distance_attained, lemma_mode_distance_least, mode_distance, region_cost,
};
use vstd::prelude::*;

verus! {

/// Under the global mode the distance is the same whichever sequence is the
/// query and whichever the target.
pub proof fn lemma_global_symmetric(a: Seq<u8>, b: Seq<u8>)
    ensures
        mode_distance(a, b, AlignMode::Global) == mode_distance(b, a, AlignMode::Global),
{
    lemma_lev_symmetric(a, b);
}

/// Under the global mode a sequence is at distance zero from itself.
pub proof fn lemma_global_self(a: Seq<u8>)
    ensures
        mode_distance(a, a, AlignMode::Global) == 0,
        alignment_of(a, a, AlignMode::Global, AlignTask::Distance, None).distance == Some(0int),
{
    lemma_lev_same(a);
}

/// Under the global mode the distance obeys the triangle inequality.
pub proof fn lemma_global_triangle(a: Seq<u8>, b: Seq<u8>, c: Seq<u8>)
    ensures
        mode_distance(a, c, AlignMode::Global) <= mode_distance(a, b, AlignMode::Global)
            + mode_distance(b, c, AlignMode::Global),
{
    lemma_lev_triangle(a, b, c);
}

/// A call reports its distance as exceeded exactly where the distance is
/// above the bound: a bound one below the distance is exceeded, a bound
/// equal to the distance gives the distance.
pub proof fn lemma_bound_sharp(q: Seq<u8>, t: Seq<u8>, mode: AlignMode, task: AlignTask, k: int)
    ensures
        alignment_of(q, t, mode, task, Some(k)).distance is None <==> mode_distance(q, t, mode) > k,
        alignment_of(q, t, mode, task, Some(mode_distance(q, t, mode) - 1)).distance is None,
        alignment_of(q, t, mode, task, Some(mode_distance(q, t, mode))).distance == Some(
            mode_distance(q, t, mode),
        ),
        alignment_of(q, t, mode, task, Some(mode_distance(q, t, mode))) == alignment_of(
            q,
            t,
            mode,
            task,
            None,
        ),
{
}

/// A reportable end at which a stretch of the price `d` ends is among the ends reported.
proof fn lemma_ends_contain(q: Seq<u8>, t: Seq<u8>, mode: AlignMode, d: int, e: int, x: int)
    requires
        0 <= x <= e,
        is_end(q, t, mode, x),
        end_cost(q, t, mode, x) == d,
    ensures
        ends_upto(q, t, mode, d, e).len() > 0,
    decreases e,
{
    if x < e {
        lemma_ends_contain(q, t, mode, d, e - 1, x);
    }
}

/// The first start at or after `from` is found no later than a start that gives the price `d`.
proof fn lemma_first_start_found(q: Seq<u8>, t: Seq<u8>, e: int, d: int, from: int, w: int)
    requires
        0 <= from <= w <= e,
        region_cost(q, t, w, e) == d,
    ensures
        from <= first_start(q, t, e, d, from) <= w,
        region_cost(q, t, first_start(q, t, e, d, from), e) == d,
    decreases w - from,
{
    if from < e && region_cost(q, t, from, e) != d {
        lemma_first_start_found(q, t, e, d, from + 1, w);
    }
}

/// There is a place where an optimal alignment lies, and every reported
/// place is a stretch of the target that the mode admits and whose price is
/// the distance. The ends rise from place to place.
pub proof fn lemma_places(q: Seq<u8>, t: Seq<u8>, mode: AlignMode)
    ensures
        places(q, t, mode).len() > 0,
        forall|i: int|
            0 <= i < places(q, t, mode).len() ==> {
                let p = #[trigger] places(q, t, mode)[i];
                &&& 0 <= p.0 <= p.1 <= t.len()
                &&& admits(t, mode, p.0, p.1)
                &&& is_end(q, t, mode, p.1)
                &&& region_cost(q, t, p.0, p.1) == mode_distance(q, t, mode)
            },
{
    let n = t.len() as int;
    let d = mode_distance(q, t, mode);
    let ends = best_ends(q, t, mode);
    if q.len() == 0 || t.len() == 0 {
        lemma_empty_report(q, t, mode);
    } else if mode is Global {
        assert(same_pairs(q, t, q, t));
        lemma_global_report(q, t, q, t);
    } else {
        lemma_least_end_cost(q, t, mode, n);
        let x = choose|x: int|
            0 <= x <= n && least_end_cost(q, t, mode, n) == #[trigger] end_cost(q, t, mode, x);
        if x == 0 {
            lemma_end_cost_is_cell(q, t, mode, 0);
            lemma_end_cost_is_cell(q, t, mode, 1);
            lemma_cell_deltas(q, t, mode is Infix, q.len() as int, 1);
            assert(cell(q, t, mode is Infix, q.len() - 1, 0) == q.len() - 1);
            assert(least_end_cost(q, t, mode, n) <= end_cost(q, t, mode, 1));
            lemma_ends_contain(q, t, mode, d, n, 1);
        } else {
            lemma_ends_contain(q, t, mode, d, n, x);
        }
    }
    assert forall|i: int| 0 <= i < places(q, t, mode).len() implies {
        let p = #[trigger] places(q, t, mode)[i];
        &&& 0 <= p.0 <= p.1 <= t.len()
        &&& admits(t, mode, p.0, p.1)
        &&& is_end(q, t, mode, p.1)
        &&& region_cost(q, t, p.0, p.1) == mode_distance(q, t, mode)
    } by {
        lemma_ends_members(q, t, mode, d, n, i);
        let e = ends[i];
        if mode is Infix {
            lemma_least_start_cost(q, t, e, e);
            let w = choose|x: int|
                0 <= x <= e && least_start_cost(q, t, e, e) == #[trigger] region_cost(q, t, x, e);
            lemma_first_start_found(q, t, e, d, 0, w);
        }
    }
}

/// The operations that a call reports replay exactly: against the stretch
/// of the target at the first reported place and against the whole query
/// they consume both, matches on equal symbols and mismatches on different
/// ones; their edits are as many as the distance; and no other alignment of
/// the query with a stretch that the mode admits has fewer.
pub proof fn lemma_alignment_replays(
    q: Seq<u8>,
    t: Seq<u8>,
    mode: AlignMode,
    bound: Option<int>,
)
    requires
        alignment_of(q, t, mode, AlignTask::Alignment, bound).distance is Some,
    ensures
        ({
            let v = alignment_of(q, t, mode, AlignTask::Alignment, bound);
            let p = v.locations[0];
            &&& v.locations.len() > 0
            &&& 0 <= p.0 <= p.1 <= t.len()
            &&& aligns(v.operations, q, t.subrange(p.0, p.1))
            &&& cost(v.operations) == v.distance->0
            &&& query_span(v.operations) == q.len()
            &&& target_span(v.operations) == p.1 - p.0
        }),
{
    let v = alignment_of(q, t, mode, AlignTask::Alignment, bound);
    lemma_places(q, t, mode);
    let p = places(q, t, mode)[0];
    lemma_best_path_optimal(q, t.subrange(p.0, p.1));
    lemma_aligns_spans(v.operations, q, t.subrange(p.0, p.1));
}

/// No alignment of the query with a stretch of the target that the mode
/// admits has fewer edits than the distance under that mode.
pub proof fn lemma_distance_is_least(
    q: Seq<u8>,
    t: Seq<u8>,
    mode: AlignMode,
    s: int,
    e: int,
    ops: Seq<Operation>,
)
    requires
        admits(t, mode, s, e),
        aligns(ops, q, t.subrange(s, e)),
    ensures
        mode_distance(q, t, mode) <= cost(ops),
{
    lemma_mode_distance_least(q, t, mode, s, e);
    lemma_lev_is_lower_bound(ops, q, t.subrange(s, e));
}

/// A task reports what the tasks before it report: the distance is the same
/// for every task, and the places are the same for the tasks that report them.
pub proof fn lemma_tasks_nest(q: Seq<u8>, t: Seq<u8>, mode: AlignMode, bound: Option<int>)
    ensures
        alignment_of(q, t, mode, AlignTask::Location, bound).distance == alignment_of(
            q,
            t,
            mode,
            AlignTask::Distance,
            bound,
        ).distance,
        alignment_of(q, t, mode, AlignTask::Alignment, bound).distance == alignment_of(
            q,
            t,
            mode,
            AlignTask::Distance,
            bound,
        ).distance,
        alignment_of(q, t, mode, AlignTask::Alignment, bound).locations == alignment_of(
            q,
            t,
            mode,
            AlignTask::Location,
            bound,
        ).locations,
{
}

/// The more stretches a mode admits, the smaller the distance: the infix
/// distance is at most the prefix distance, and that at most the global one.
pub proof fn lemma_modes_nest(q: Seq<u8>, t: Seq<u8>)
    ensures
        mode_distance(q, t, AlignMode::Infix) <= mode_distance(q, t, AlignMode::Prefix),
        mode_distance(q, t, AlignMode::Prefix) <= mode_distance(q, t, AlignMode::Global),
{
    let g = lemma_mode_distance_attained(q, t, AlignMode::Global);
    lemma_mode_distance_least(q, t, AlignMode::Prefix, g.0, g.1);
    let p = lemma_mode_distance_attained(q, t, AlignMode::Prefix);
    lemma_mode_distance_least(q, t, AlignMode::Infix, p.0, p.1);
}

} // verus!
