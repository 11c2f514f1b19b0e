//! What an alignment call means: the modes, the distance under each mode,
//! the places where an optimal alignment ends and starts.

use crate::distance::{lev, min2};
use crate::matrix::{cell, lemma_cell_anchored, lemma_cell_free_attained, lemma_cell_free_lower};
use vstd::prelude::*;

verus! {

/// Which stretch of the target the query is aligned with.
#[derive(Debug, Clone, Copy, PartialEq, Eq, Hash, Structural)]
pub enum AlignMode {
    /// The whole query against the whole target.
    Global,
    /// The whole query against a stretch that starts at the first target
    /// symbol; what follows the stretch is free.
    Prefix,
    /// The whole query against any stretch of the target.
    Infix,
}

/// How much of the alignment is worked out. Each task reports what the one
/// before it reports, and more; the tasks are ordered by what they cost.
#[derive(Debug, Clone, Copy, PartialEq, Eq, PartialOrd, Ord, Hash, Structural)]
pub enum AlignTask {
    /// The distance alone.
    Distance,
    /// The distance and where in the target the alignment starts and ends.
    Location,
    /// The distance, the places, and the operations of the path.
    Alignment,
}

/// The price of aligning the whole query with the stretch of the target from `s` up to `e`.
pub open spec fn region_cost(q: Seq<u8>, t: Seq<u8>, s: int, e: int) -> int {
    lev(q, t.subrange(s, e))
}

/// The least price of a stretch that ends at `e` and starts at one of the positions from 0 to `s`.
pub open spec fn least_start_cost(q: Seq<u8>, t: Seq<u8>, e: int, s: int) -> int
    decreases s,
{
    if s <= 0 {
        region_cost(q, t, 0, e)
    } else {
        min2(region_cost(q, t, s, e), least_start_cost(q, t, e, s - 1))
    }
}

/// The least price of a stretch that ends at `e`, over the starts that the mode admits.
pub open spec fn end_cost(q: Seq<u8>, t: Seq<u8>, mode: AlignMode, e: int) -> int {
    match mode {
        AlignMode::Infix => least_start_cost(q, t, e, e),
        _ => region_cost(q, t, 0, e),
    }
}

/// The least price of a stretch that ends at one of the positions from 0 to `e`.
pub open spec fn least_end_cost(q: Seq<u8>, t: Seq<u8>, mode: AlignMode, e: int) -> int
    decreases e,
{
    if e <= 0 {
        end_cost(q, t, mode, 0)
    } else {
        min2(end_cost(q, t, mode, e), least_end_cost(q, t, mode, e - 1))
    }
}

/// The distance of the query from the target under a mode: the least price
/// of aligning the whole query with a stretch of the target that the mode admits.
pub open spec fn mode_distance(q: Seq<u8>, t: Seq<u8>, mode: AlignMode) -> int {
    match mode {
        AlignMode::Global => lev(q, t),
        _ => least_end_cost(q, t, mode, t.len() as int),
    }
}

/// The stretch from `s` up to `e` is one that the mode admits.
pub open spec fn admits(t: Seq<u8>, mode: AlignMode, s: int, e: int) -> bool {
    match mode {
        AlignMode::Global => s == 0 && e == t.len(),
        AlignMode::Prefix => s == 0 && 0 <= e <= t.len(),
        AlignMode::Infix => 0 <= s <= e <= t.len(),
    }
}

/// The position `e` may be reported as the end of an alignment: the end of
/// the target under the global mode; under the others any position after a
/// target symbol, or position 0 where a sequence is empty.
pub open spec fn is_end(q: Seq<u8>, t: Seq<u8>, mode: AlignMode, e: int) -> bool {
    match mode {
        AlignMode::Global => e == t.len(),
        _ => if q.len() == 0 || t.len() == 0 {
            e == 0
        } else {
            1 <= e <= t.len()
        },
    }
}

/// The reportable ends from 0 to `e`, in rising order, at which a stretch of price `d` ends.
pub open spec fn ends_upto(q: Seq<u8>, t: Seq<u8>, mode: AlignMode, d: int, e: int) -> Seq<int>
    decreases e + 1,
{
    if e < 0 {
        Seq::empty()
    } else if is_end(q, t, mode, e) && end_cost(q, t, mode, e) == d {
        ends_upto(q, t, mode, d, e - 1).push(e)
    } else {
        ends_upto(q, t, mode, d, e - 1)
    }
}

/// The ends of the optimal alignments, in rising order.
pub open spec fn best_ends(q: Seq<u8>, t: Seq<u8>, mode: AlignMode) -> Seq<int> {
    ends_upto(q, t, mode, mode_distance(q, t, mode), t.len() as int)
}

/// The first position from `s` on at which a stretch of price `d` that ends
/// at `e` starts; `e` itself where there is none before it.
pub open spec fn first_start(q: Seq<u8>, t: Seq<u8>, e: int, d: int, s: int) -> int
    decreases e - s,
{
    if s >= e {
        e
    } else if region_cost(q, t, s, e) == d {
        s
    } else {
        first_start(q, t, e, d, s + 1)
    }
}

/// Where the alignment that ends at `e` starts: at the first target symbol
/// under the global and prefix modes; under the infix mode at the leftmost
/// position that gives the distance `d`.
pub open spec fn region_start(q: Seq<u8>, t: Seq<u8>, mode: AlignMode, e: int, d: int) -> int {
    match mode {
        AlignMode::Infix => first_start(q, t, e, d, 0),
        _ => 0,
    }
}

/// The least price over the starts up to `s` is a lower bound for each of
/// them and the price of one of them.
pub proof fn lemma_least_start_cost(q: Seq<u8>, t: Seq<u8>, e: int, s: int)
    requires
        0 <= s,
    ensures
        forall|x: int| 0 <= x <= s ==> least_start_cost(q, t, e, s) <= #[trigger] region_cost(q, t, x, e),
        exists|x: int| 0 <= x <= s && least_start_cost(q, t, e, s) == #[trigger] region_cost(q, t, x, e),
    decreases s,
{
    if s > 0 {
        lemma_least_start_cost(q, t, e, s - 1);
        let w = choose|x: int|
            0 <= x <= s - 1 && least_start_cost(q, t, e, s - 1) == #[trigger] region_cost(q, t, x, e);
        if least_start_cost(q, t, e, s) == region_cost(q, t, s, e) {
            assert(0 <= s <= s && least_start_cost(q, t, e, s) == region_cost(q, t, s, e));
        } else {
            assert(0 <= w <= s && least_start_cost(q, t, e, s) == region_cost(q, t, w, e));
        }
    } else {
        assert(0 <= 0 <= s && least_start_cost(q, t, e, s) == region_cost(q, t, 0, e));
    }
}

/// The least price over the ends up to `e` is a lower bound for each of them
/// and the price of one of them.
pub proof fn lemma_least_end_cost(q: Seq<u8>, t: Seq<u8>, mode: AlignMode, e: int)
    requires
        0 <= e,
    ensures
        forall|x: int| 0 <= x <= e ==> least_end_cost(q, t, mode, e) <= #[trigger] end_cost(q, t, mode, x),
        exists|x: int| 0 <= x <= e && least_end_cost(q, t, mode, e) == #[trigger] end_cost(q, t, mode, x),
    decreases e,
{
    if e > 0 {
        lemma_least_end_cost(q, t, mode, e - 1);
        let w = choose|x: int|
            0 <= x <= e - 1 && least_end_cost(q, t, mode, e - 1) == #[trigger] end_cost(q, t, mode, x);
        if least_end_cost(q, t, mode, e) == end_cost(q, t, mode, e) {
            assert(0 <= e <= e && least_end_cost(q, t, mode, e) == end_cost(q, t, mode, e));
        } else {
            assert(0 <= w <= e && least_end_cost(q, t, mode, e) == end_cost(q, t, mode, w));
        }
    } else {
        assert(0 <= 0 <= e && least_end_cost(q, t, mode, e) == end_cost(q, t, mode, 0));
    }
}

/// The distance under a mode is the least price among the stretches that the
/// mode admits: none of them is cheaper.
pub proof fn lemma_mode_distance_least(q: Seq<u8>, t: Seq<u8>, mode: AlignMode, s: int, e: int)
    requires
        admits(t, mode, s, e),
    ensures
        mode_distance(q, t, mode) <= region_cost(q, t, s, e),
{
    match mode {
        AlignMode::Global => {
            assert(t.subrange(0, t.len() as int) =~= t);
        },
        AlignMode::Prefix => {
            lemma_least_end_cost(q, t, mode, t.len() as int);
            assert(least_end_cost(q, t, mode, t.len() as int) <= end_cost(q, t, mode, e));
        },
        AlignMode::Infix => {
            lemma_least_end_cost(q, t, mode, t.len() as int);
            assert(least_end_cost(q, t, mode, t.len() as int) <= end_cost(q, t, mode, e));
            lemma_least_start_cost(q, t, e, e);
            assert(least_start_cost(q, t, e, e) <= region_cost(q, t, s, e));
        },
    }
}

/// The distance under a mode is the price of some stretch that the mode
/// admits; the start and end of one are returned.
pub proof fn lemma_mode_distance_attained(q: Seq<u8>, t: Seq<u8>, mode: AlignMode) -> (r: (
    int,
    int,
))
    ensures
        admits(t, mode, r.0, r.1),
        mode_distance(q, t, mode) == region_cost(q, t, r.0, r.1),
{
    match mode {
        AlignMode::Global => {
            assert(t.subrange(0, t.len() as int) =~= t);
            (0, t.len() as int)
        },
        AlignMode::Prefix => {
            lemma_least_end_cost(q, t, mode, t.len() as int);
            let e = choose|x: int|
                0 <= x <= t.len() && least_end_cost(q, t, mode, t.len() as int)
                    == #[trigger] end_cost(q, t, mode, x);
            (0, e)
        },
        AlignMode::Infix => {
            lemma_least_end_cost(q, t, mode, t.len() as int);
            let e = choose|x: int|
                0 <= x <= t.len() && least_end_cost(q, t, mode, t.len() as int)
                    == #[trigger] end_cost(q, t, mode, x);
            lemma_least_start_cost(q, t, e, e);
            let s = choose|x: int|
                0 <= x <= e && least_start_cost(q, t, e, e) == #[trigger] region_cost(q, t, x, e);
            (s, e)
        },
    }
}

/// Where the matrix starts freely for the mode.
pub open spec fn free_start(mode: AlignMode) -> bool {
    mode is Infix
}

/// The bottom cell of column `e` is the least price of a stretch that ends at `e`.
pub proof fn lemma_end_cost_is_cell(q: Seq<u8>, t: Seq<u8>, mode: AlignMode, e: int)
    requires
        0 <= e <= t.len(),
    ensures
        end_cost(q, t, mode, e) == cell(q, t, free_start(mode), q.len() as int, e),
{
    let m = q.len() as int;
    assert(q.take(m) =~= q);
    if mode is Infix {
        lemma_least_start_cost(q, t, e, e);
        let s = lemma_cell_free_attained(q, t, m, e);
        assert(least_start_cost(q, t, e, e) <= region_cost(q, t, s, e));
        let w = choose|x: int|
            0 <= x <= e && least_start_cost(q, t, e, e) == #[trigger] region_cost(q, t, x, e);
        lemma_cell_free_lower(q, t, m, e, w);
    } else {
        lemma_cell_anchored(q, t, m, e);
        assert(t.take(e) =~= t.subrange(0, e));
    }
}

} // verus!
