//! The three searches behind an alignment call: for the distance and the
//! ends, for the start that belongs to an end, and for the path between a
//! start and an end.

use crate::alphabet::{lemma_same_pairs_path, lemma_same_pairs_sub, same_pairs};
use crate::edit::{best_path, Operation};
use crate::matrix::lemma_cell_anchored;
use crate::pattern::Pattern;
use crate::report::{lemma_hits_last, lemma_reversed_start};
use crate::semantics::{AlignMode, end_cost, first_start, region_cost};
use crate::sweep::{bottom, MAX_BOUND, MAX_LEN, sweep, Sweep, sweep_ok};
use crate::traceback::trace_back;
use vstd::prelude::*;
use vstd::slice::slice_subrange;

verus! {

/// Sweeps the target under the bound `limit`. With `doubling`, narrower
/// bands are tried first: the bound starts at 64 and doubles until
/// something is found or `limit` is reached.
pub fn search(
    pattern: &Pattern,
    target: &[u8],
    free: bool,
    last_only: bool,
    limit: u64,
    doubling: bool,
) -> (out: Sweep)
    requires
        pattern.wf(),
        1 <= pattern.query().len() <= MAX_LEN,
        1 <= target@.len() <= MAX_LEN,
        forall|j: int| 0 <= j < target@.len() ==> (#[trigger] target@[j] as int) < pattern.size(),
        limit <= MAX_BOUND,
    ensures
        sweep_ok(pattern.query(), target@, free, last_only, limit as int, out.best, out.ends@),
{
    let mut k: u64 = if doubling && limit > 64 {
        64
    } else {
        limit
    };
    let mut out = sweep(pattern, target, free, last_only, k, false);
    while out.best.is_none() && k < limit
        invariant
            pattern.wf(),
            1 <= pattern.query().len() <= MAX_LEN,
            1 <= target@.len() <= MAX_LEN,
            forall|j: int|
                0 <= j < target@.len() ==> (#[trigger] target@[j] as int) < pattern.size(),
            limit <= MAX_BOUND,
            k <= limit,
            k < limit ==> k >= 64,
            sweep_ok(pattern.query(), target@, free, last_only, k as int, out.best, out.ends@),
        decreases limit - k,
    {
        k = if k > limit / 2 {
            limit
        } else {
            2 * k
        };
        out = sweep(pattern, target, free, last_only, k, false);
    }
    proof {
        let q = pattern.query();
        let t = target@;
        if out.best is Some && !last_only {
            let c = choose|c: int|
                1 <= c <= t.len() && #[trigger] bottom(q, t, free, c) == out.best->0 as int;
            assert(bottom(q, t, free, c) <= limit);
        }
    }
    out
}

/// The bytes of `src` in reverse order.
pub fn reverse_bytes(src: &[u8]) -> (out: Vec<u8>)
    ensures
        out@ == src@.reverse(),
{
    let mut out: Vec<u8> = Vec::new();
    let n = src.len();
    let mut i: usize = 0;
    while i < n
        invariant
            0 <= i <= n,
            n == src@.len(),
            out@.len() == i,
            forall|x: int| 0 <= x < i ==> out@[x] == src@[n - 1 - x],
        decreases n - i,
    {
        out.push(src[n - 1 - i]);
        i = i + 1;
    }
    assert(out@ =~= src@.reverse());
    out
}

/// The leftmost start of a stretch that ends at `e` and has the price `d`,
/// the least price of the stretches that end there.
///
/// The reversed query is swept over the reversed stretch up to `e`; the last
/// column that holds `d` marks the longest stretch.
pub fn find_start(
    reversed: &Pattern,
    codes: &[u8],
    e: usize,
    d: u64,
    Ghost(q): Ghost<Seq<u8>>,
    Ghost(t): Ghost<Seq<u8>>,
    Ghost(cq): Ghost<Seq<u8>>,
) -> (s: usize)
    requires
        reversed.wf(),
        reversed.query() == cq.reverse(),
        same_pairs(q, t, cq, codes@),
        1 <= q.len() <= MAX_LEN,
        1 <= e <= codes@.len() <= MAX_LEN,
        forall|j: int| 0 <= j < codes@.len() ==> (#[trigger] codes@[j] as int) < reversed.size(),
        d as int == end_cost(q, t, AlignMode::Infix, e as int),
        d <= MAX_BOUND,
    ensures
        s as int == first_start(q, t, e as int, d as int, 0),
        s < e,
{
    let ghost ct = codes@;
    let prefix = slice_subrange(codes, 0, e);
    let rt = reverse_bytes(prefix);
    proof {
        assert(ct.take(e as int) =~= ct.subrange(0, e as int));
        lemma_reversed_start(q, t, cq, ct, e as int, d as int);
        assert forall|j: int| 0 <= j < rt@.len() implies (#[trigger] rt@[j] as int)
            < reversed.size() by {
            assert(rt@[j] == ct[e - 1 - j]);
        }
    }
    let found = sweep(reversed, rt.as_slice(), false, false, d, false);
    proof {
        let rq = cq.reverse();
        let w = choose|c: int| 1 <= c <= e && #[trigger] bottom(rq, rt@, false, c) == d as int;
        assert(bottom(rq, rt@, false, w) <= d);
        assert(found.best is Some);
        assert(bottom(rq, rt@, false, w) >= found.best->0 as int);
        let c2 = choose|c: int|
            1 <= c <= e && #[trigger] bottom(rq, rt@, false, c) == found.best->0 as int;
        assert(bottom(rq, rt@, false, c2) >= d);
        assert(found.best->0 == d);
        lemma_hits_last(rq, rt@, false, d as int, e as int);
    }
    let last = found.ends[found.ends.len() - 1];
    e - last
}

/// The reported path of the query against the stretch of the target from
/// `s` up to `e`, whose price is `d`.
///
/// The stretch is swept once more, under the bound `d` and with every column
/// stored, and the path is traced back through the stored columns.
pub fn find_path(
    pattern: &Pattern,
    codes: &[u8],
    s: usize,
    e: usize,
    d: u64,
    Ghost(q): Ghost<Seq<u8>>,
    Ghost(t): Ghost<Seq<u8>>,
) -> (ops: Vec<Operation>)
    requires
        pattern.wf(),
        same_pairs(q, t, pattern.query(), codes@),
        1 <= q.len() <= MAX_LEN,
        s < e <= codes@.len() <= MAX_LEN,
        forall|j: int| 0 <= j < codes@.len() ==> (#[trigger] codes@[j] as int) < pattern.size(),
        d as int == region_cost(q, t, s as int, e as int),
        d <= MAX_BOUND,
    ensures
        ops@ == best_path(q, t.subrange(s as int, e as int)),
{
    let ghost cq = pattern.query();
    let ghost ct = codes@;
    let region = slice_subrange(codes, s, e);
    proof {
        assert forall|j: int| 0 <= j < region@.len() implies (#[trigger] region@[j] as int)
            < pattern.size() by {
            assert(region@[j] == ct[s + j]);
        }
        lemma_same_pairs_sub(q, t, cq, ct, s as int, e as int);
        lemma_same_pairs_path(q, t.subrange(s as int, e as int), cq, region@);
        lemma_cell_anchored(cq, region@, cq.len() as int, region@.len() as int);
        assert(cq.take(cq.len() as int) =~= cq);
        assert(region@.take(region@.len() as int) =~= region@);
    }
    let run = sweep(pattern, region, false, true, d, true);
    match run.best {
        Some(v) => trace_back(pattern, region, &run.trace, d, v),
        None => {
            assert(false);
            Vec::new()
        },
    }
}

} // verus!
