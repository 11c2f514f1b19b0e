//! The alignment call and the result it hands back.

use crate::alphabet::{encode, lemma_encodes_pairs, same_pairs};
use crate::edit::{aligns, best_path, codes_of, cost, Operation};
use crate::laws::lemma_alignment_replays;
use crate::locate::{find_path, find_start, reverse_bytes, search};
use crate::pattern::{build_pattern, Pattern};
use crate::report::{
    lemma_distance_bounds, lemma_empty_report, lemma_ends_members, lemma_first_start_hit,
    lemma_found_distance, lemma_found_nothing, lemma_global_report, lemma_hits_are_ends,
    lemma_path_one_sided,
};
use crate::semantics::{
    AlignMode, AlignTask, best_ends, end_cost, free_start, mode_distance, region_cost, region_start,
};
use crate::runs::runs_of;
use crate::sweep::{MAX_BOUND, MAX_LEN, same_places};
use crate::text::{encode_operations_as_text, text_of};
use vstd::prelude::*;
use vstd::slice::slice_to_vec;

verus! {

/// Why an alignment call was turned down.
#[derive(Debug, Clone, Copy, PartialEq, Eq, Structural)]
pub enum AlignError {
    /// The distance bound is negative.
    InvalidBound,
    /// A sequence is longer than `MAX_LEN` symbols.
    TooLong,
}

/// An alignment result as a mathematical value.
pub struct AlignmentView {
    /// The mode that was asked for.
    pub mode: AlignMode,
    /// The task that was asked for.
    pub task: AlignTask,
    /// The distance; nothing where it exceeds the bound.
    pub distance: Option<int>,
    /// Where the optimal alignments start and end in the target, by rising
    /// end. An end is the position after the last aligned target symbol.
    pub locations: Seq<(int, int)>,
    /// The operations of the path at the first location.
    pub operations: Seq<Operation>,
}

/// The operation that a stored code stands for.
pub open spec fn op_of(code: u8) -> Operation {
    match Operation::spec_from_code(code) {
        Some(op) => op,
        None => Operation::Match,
    }
}

/// The result of an alignment call.
#[derive(Debug)]
pub struct Alignment {
    distance: Option<u32>,
    starts: Vec<i32>,
    ends: Vec<i32>,
    codes: Vec<u8>,
    task: AlignTask,
    mode: AlignMode,
}

impl View for Alignment {
    type V = AlignmentView;

    /// The result as a mathematical value.
    closed spec fn view(&self) -> AlignmentView {
        AlignmentView {
            mode: self.mode,
            task: self.task,
            distance: match self.distance {
                Some(d) => Some(d as int),
                None => None,
            },
            locations: Seq::new(
                self.starts@.len(),
                |i: int| (self.starts@[i] as int, self.ends@[i] as int),
            ),
            operations: Seq::new(self.codes@.len(), |i: int| op_of(self.codes@[i])),
        }
    }
}

impl Clone for Alignment {
    /// A copy of the result.
    fn clone(&self) -> (out: Self)
        ensures
            out@ == self@,
    {
        proof {
            use_type_invariant(self);
        }
        let out = Alignment {
            distance: self.distance,
            starts: slice_to_vec(self.starts.as_slice()),
            ends: slice_to_vec(self.ends.as_slice()),
            codes: slice_to_vec(self.codes.as_slice()),
            task: self.task,
            mode: self.mode,
        };
        assert(out@.locations =~= self@.locations);
        assert(out@.operations =~= self@.operations);
        out
    }
}

/// The start and end of every optimal alignment, by rising end.
pub open spec fn places(q: Seq<u8>, t: Seq<u8>, mode: AlignMode) -> Seq<(int, int)> {
    let d = mode_distance(q, t, mode);
    let ends = best_ends(q, t, mode);
    Seq::new(ends.len(), |i: int| (region_start(q, t, mode, ends[i], d), ends[i]))
}

/// What an alignment call returns.
///
/// Where the distance exceeds the bound, nothing but that is reported. Else
/// the distance is reported; from the task `Location` on, every place where
/// an optimal alignment lies; and for the task `Alignment` the path of the
/// query against the first of these places.
pub open spec fn alignment_of(
    q: Seq<u8>,
    t: Seq<u8>,
    mode: AlignMode,
    task: AlignTask,
    bound: Option<int>,
) -> AlignmentView {
    let d = mode_distance(q, t, mode);
    if bound is Some && d > bound->0 {
        AlignmentView {
            mode,
            task,
            distance: None,
            locations: Seq::empty(),
            operations: Seq::empty(),
        }
    } else {
        let all = places(q, t, mode);
        AlignmentView {
            mode,
            task,
            distance: Some(d),
            locations: if task is Distance {
                Seq::empty()
            } else {
                all
            },
            operations: if task is Alignment {
                best_path(q, t.subrange(all[0].0, all[0].1))
            } else {
                Seq::empty()
            },
        }
    }
}

impl Alignment {
    /// Starts and ends come in pairs, a start never lies behind its end,
    /// every stored code stands for an operation, and nothing is stored
    /// that the task does not ask for or that a bound has cut off.
    #[verifier::type_invariant]
    spec fn inv(&self) -> bool {
        &&& self.starts@.len() == self.ends@.len()
        &&& forall|i: int|
            0 <= i < self.starts@.len() ==> 0 <= #[trigger] self.starts@[i] <= self.ends@[i]
        &&& forall|i: int| 0 <= i < self.codes@.len() ==> #[trigger] self.codes@[i] < 4
        &&& self.distance is None ==> self.starts@.len() == 0 && self.codes@.len() == 0
        &&& self.task is Distance ==> self.starts@.len() == 0
        &&& !(self.task is Alignment) ==> self.codes@.len() == 0
        &&& self.task is Alignment && self.distance is Some ==> self.starts@.len() > 0
    }

    /// The edit distance; `u32::MAX` where it exceeds the bound.
    pub fn dist(&self) -> (d: u32)
        ensures
            d as int == (match self@.distance {
                Some(x) => x,
                None => u32::MAX as int,
            }),
    {
        match self.distance {
            Some(d) => d,
            None => u32::MAX,
        }
    }

    /// The edit distance, unless it exceeds the bound.
    pub fn distance(&self) -> (d: Option<u32>)
        ensures
            d is Some <==> self@.distance is Some,
            d is Some ==> d->0 as int == self@.distance->0,
    {
        self.distance
    }

    /// Whether the distance exceeds the bound.
    pub fn exceeded(&self) -> (b: bool)
        ensures
            b == (self@.distance is None),
    {
        self.distance.is_none()
    }

    /// The mode of the call.
    pub fn mode(&self) -> (m: AlignMode)
        ensures
            m == self@.mode,
    {
        self.mode
    }

    /// The task of the call.
    pub fn task(&self) -> (t: AlignTask)
        ensures
            t == self@.task,
    {
        self.task
    }

    /// The first place where an optimal alignment lies: the stretch of the
    /// target from the start up to, and not including, the end. Nothing for
    /// the task `Distance` or where the distance exceeds the bound.
    pub fn location(&self) -> (r: Option<(usize, usize)>)
        ensures
            r is Some <==> self@.locations.len() > 0,
            r matches Some(p) ==> (p.0 as int, p.1 as int) == self@.locations[0],
    {
        proof {
            use_type_invariant(self);
        }
        if self.starts.len() > 0 {
            Some((self.starts[0] as usize, self.ends[0] as usize))
        } else {
            None
        }
    }

    /// The starts and the ends of all places where an optimal alignment
    /// lies, by rising end. Nothing for the task `Distance` or where the
    /// distance exceeds the bound.
    pub fn locations(&self) -> (r: Option<(&[i32], &[i32])>)
        ensures
            r is Some <==> !(self@.task is Distance) && self@.distance is Some,
            r matches Some(p) ==> {
                &&& p.0@.len() == self@.locations.len()
                &&& p.1@.len() == self@.locations.len()
                &&& forall|i: int|
                    0 <= i < self@.locations.len() ==> (#[trigger] p.0@[i] as int, p.1@[i] as int)
                        == self@.locations[i]
            },
    {
        proof {
            use_type_invariant(self);
        }
        let wanted = match self.task {
            AlignTask::Distance => false,
            _ => true,
        };
        if wanted && self.distance.is_some() {
            Some((self.starts.as_slice(), self.ends.as_slice()))
        } else {
            None
        }
    }

    /// The operations of the path at the first location. Nothing for a task
    /// other than `Alignment` or where the distance exceeds the bound.
    pub fn path(&self) -> (r: Option<Vec<Operation>>)
        ensures
            r is Some <==> self@.task is Alignment && self@.distance is Some,
            r matches Some(ops) ==> ops@ == self@.operations,
    {
        proof {
            use_type_invariant(self);
        }
        let wanted = match self.task {
            AlignTask::Alignment => true,
            _ => false,
        };
        if wanted && self.distance.is_some() {
            let mut ops: Vec<Operation> = Vec::new();
            let mut i: usize = 0;
            while i < self.codes.len()
                invariant
                    0 <= i <= self.codes@.len(),
                    ops@.len() == i,
                    forall|x: int| 0 <= x < self.codes@.len() ==> #[trigger] self.codes@[x] < 4,
                    forall|x: int| 0 <= x < i ==> #[trigger] ops@[x] == op_of(self.codes@[x]),
                decreases self.codes@.len() - i,
            {
                match Operation::from_code(self.codes[i]) {
                    Some(op) => {
                        ops.push(op);
                    },
                    None => {
                        assert(self.codes@[i as int] < 4);
                        assert(false);
                    },
                }
                i = i + 1;
            }
            assert(ops@ =~= self@.operations);
            Some(ops)
        } else {
            None
        }
    }

    /// The path at the first location as text, run by run: the count of each
    /// run, then `=` for matches, `X` for mismatches, `I` for insertions to
    /// the target or `D` for deletions from the target. Nothing for a task
    /// other than `Alignment` or where the distance exceeds the bound.
    pub fn text(&self) -> (r: Option<String>)
        ensures
            r is Some <==> self@.task is Alignment && self@.distance is Some,
            r matches Some(s) ==> s@ == text_of(runs_of(self@.operations)),
    {
        match self.path() {
            Some(ops) => Some(encode_operations_as_text(ops.as_slice())),
            None => None,
        }
    }

    /// The codes of the operations of the path at the first location: 0 for
    /// a match, 1 for an insertion to the target, 2 for a deletion from the
    /// target, 3 for a mismatch. Nothing for a task other than `Alignment`
    /// or where the distance exceeds the bound.
    pub fn operations(&self) -> (r: Option<&[u8]>)
        ensures
            r is Some <==> self@.task is Alignment && self@.distance is Some,
            r is Some ==> r->0@ == codes_of(self@.operations),
    {
        proof {
            use_type_invariant(self);
        }
        let wanted = match self.task {
            AlignTask::Alignment => true,
            _ => false,
        };
        if wanted && self.distance.is_some() {
            let out = self.codes.as_slice();
            proof {
                assert(out@ =~= codes_of(self@.operations));
            }
            Some(out)
        } else {
            None
        }
    }
}

/// A run of `n` equal operations.
fn repeat(op: Operation, n: usize) -> (out: Vec<Operation>)
    ensures
        out@ == Seq::new(n as nat, |i: int| op),
{
    let mut out: Vec<Operation> = Vec::new();
    let mut i: usize = 0;
    while i < n
        invariant
            0 <= i <= n,
            out@ == Seq::new(i as nat, |x: int| op),
        decreases n - i,
    {
        out.push(op);
        assert(out@ =~= Seq::new((i + 1) as nat, |x: int| op));
        i = i + 1;
    }
    out
}

/// The codes of a run of operations.
pub fn to_codes(ops: &Vec<Operation>) -> (out: Vec<u8>)
    ensures
        out@ == codes_of(ops@),
{
    let mut out: Vec<u8> = Vec::new();
    let mut i: usize = 0;
    while i < ops.len()
        invariant
            0 <= i <= ops@.len(),
            out@ == codes_of(ops@.take(i as int)),
        decreases ops@.len() - i,
    {
        out.push(ops[i].code());
        assert(out@ =~= codes_of(ops@.take(i + 1)));
        i = i + 1;
    }
    assert(ops@.take(ops@.len() as int) =~= ops@);
    out
}

/// Positions as 32-bit integers.
fn to_i32s(v: &Vec<usize>) -> (out: Vec<i32>)
    requires
        forall|i: int| 0 <= i < v@.len() ==> #[trigger] v@[i] <= MAX_LEN,
    ensures
        out@.len() == v@.len(),
        forall|i: int| 0 <= i < v@.len() ==> #[trigger] out@[i] as int == v@[i] as int,
{
    let mut out: Vec<i32> = Vec::new();
    let mut i: usize = 0;
    while i < v.len()
        invariant
            0 <= i <= v@.len(),
            out@.len() == i,
            forall|x: int| 0 <= x < v@.len() ==> #[trigger] v@[x] <= MAX_LEN,
            forall|x: int| 0 <= x < i ==> #[trigger] out@[x] as int == v@[x] as int,
        decreases v@.len() - i,
    {
        assert(v@[i as int] <= MAX_LEN);
        out.push(v[i] as i32);
        i = i + 1;
    }
    out
}

impl Alignment {
    /// The result of a call whose distance exceeds the bound.
    fn beyond_bound(mode: AlignMode, task: AlignTask) -> (a: Alignment)
        ensures
            a@ == (AlignmentView {
                mode,
                task,
                distance: None,
                locations: Seq::empty(),
                operations: Seq::empty(),
            }),
    {
        let a = Alignment {
            distance: None,
            starts: Vec::new(),
            ends: Vec::new(),
            codes: Vec::new(),
            task,
            mode,
        };
        assert(a@.locations =~= Seq::empty());
        assert(a@.operations =~= Seq::empty());
        a
    }

    /// Puts a result together from its parts.
    fn pack(
        mode: AlignMode,
        task: AlignTask,
        d: u64,
        starts: &Vec<usize>,
        ends: &Vec<usize>,
        ops: &Vec<Operation>,
    ) -> (a: Alignment)
        requires
            d <= MAX_BOUND,
            starts@.len() == ends@.len(),
            forall|i: int| 0 <= i < starts@.len() ==> #[trigger] starts@[i] <= ends@[i],
            forall|i: int| 0 <= i < ends@.len() ==> #[trigger] ends@[i] <= MAX_LEN,
            task is Distance ==> starts@.len() == 0,
            !(task is Alignment) ==> ops@.len() == 0,
            task is Alignment ==> starts@.len() > 0,
        ensures
            a@ == (AlignmentView {
                mode,
                task,
                distance: Some(d as int),
                locations: Seq::new(
                    starts@.len(),
                    |i: int| (starts@[i] as int, ends@[i] as int),
                ),
                operations: ops@,
            }),
    {
        assert forall|i: int| 0 <= i < starts@.len() implies #[trigger] starts@[i] <= MAX_LEN by {
            assert(starts@[i] <= ends@[i]);
            assert(ends@[i] <= MAX_LEN);
        }
        let s32 = to_i32s(starts);
        let e32 = to_i32s(ends);
        let codes = to_codes(ops);
        proof {
            assert forall|i: int| 0 <= i < s32@.len() implies 0 <= #[trigger] s32@[i] <= e32@[i] by {
                assert(s32@[i] as int == starts@[i] as int);
                assert(e32@[i] as int == ends@[i] as int);
                assert(starts@[i] <= ends@[i]);
            }
            assert forall|i: int| 0 <= i < codes@.len() implies #[trigger] codes@[i] < 4 by {
                assert(codes@[i] == ops@[i].spec_code());
            }
        }
        let a = Alignment { distance: Some(d as u32), starts: s32, ends: e32, codes, task, mode };
        proof {
            assert(a@.locations =~= Seq::new(
                starts@.len(),
                |i: int| (starts@[i] as int, ends@[i] as int),
            )) by {
                assert forall|i: int| 0 <= i < starts@.len() implies a@.locations[i] == (
                    starts@[i] as int,
                    ends@[i] as int,
                ) by {
                    assert(s32@[i] as int == starts@[i] as int);
                    assert(e32@[i] as int == ends@[i] as int);
                }
            }
            assert(a@.operations =~= ops@) by {
                assert forall|i: int| 0 <= i < ops@.len() implies a@.operations[i] == ops@[i] by {
                    assert(codes@[i] == ops@[i].spec_code());
                }
            }
        }
        a
    }
}

/// The bound of a call as a mathematical value.
pub open spec fn limit_of(bound: Option<u64>) -> Option<int> {
    match bound {
        Some(k) => Some(k as int),
        None => None,
    }
}

/// The call where the query or the target is empty.
fn solve_empty(
    m: usize,
    n: usize,
    mode: AlignMode,
    task: AlignTask,
    bound: Option<u64>,
    Ghost(q): Ghost<Seq<u8>>,
    Ghost(t): Ghost<Seq<u8>>,
) -> (a: Alignment)
    requires
        m == q.len(),
        n == t.len(),
        m == 0 || n == 0,
        m <= MAX_LEN,
        n <= MAX_LEN,
    ensures
        a@ == alignment_of(q, t, mode, task, limit_of(bound)),
{
    proof {
        lemma_empty_report(q, t, mode);
    }
    let whole = match mode {
        AlignMode::Global => true,
        _ => false,
    };
    let d: u64 = if whole {
        (m + n) as u64
    } else {
        m as u64
    };
    let over = match bound {
        Some(k) => d > k,
        None => false,
    };
    if over {
        return Alignment::beyond_bound(mode, task);
    }
    let e: usize = if whole {
        n
    } else {
        0
    };
    let mut starts: Vec<usize> = Vec::new();
    let mut ends: Vec<usize> = Vec::new();
    let located = match task {
        AlignTask::Distance => false,
        _ => true,
    };
    if located {
        starts.push(0);
        ends.push(e);
    }
    let traced = match task {
        AlignTask::Alignment => true,
        _ => false,
    };
    let ops = if traced {
        if m == 0 {
            repeat(Operation::DeletionFromTarget, e)
        } else {
            repeat(Operation::InsertionToTarget, m)
        }
    } else {
        Vec::new()
    };
    let a = Alignment::pack(mode, task, d, &starts, &ends, &ops);
    proof {
        let want = alignment_of(q, t, mode, task, limit_of(bound));
        let all = places(q, t, mode);
        assert(all =~= seq![(0int, e as int)]);
        assert(a@.locations =~= want.locations);
        lemma_path_one_sided(q, t.subrange(0, e as int));
        assert(a@.operations =~= want.operations);
    }
    a
}

/// The start that belongs to each end.
fn all_starts(
    pattern: &Pattern,
    codes: &[u8],
    ends: &Vec<usize>,
    d: u64,
    mode: AlignMode,
    Ghost(q): Ghost<Seq<u8>>,
    Ghost(t): Ghost<Seq<u8>>,
) -> (starts: Vec<usize>)
    requires
        pattern.wf(),
        pattern.size() <= 256,
        same_pairs(q, t, pattern.query(), codes@),
        1 <= q.len() <= MAX_LEN,
        1 <= codes@.len() <= MAX_LEN,
        forall|j: int| 0 <= j < codes@.len() ==> (#[trigger] codes@[j] as int) < pattern.size(),
        d <= MAX_BOUND,
        forall|i: int|
            0 <= i < ends@.len() ==> 1 <= #[trigger] ends@[i] <= codes@.len() && end_cost(
                q,
                t,
                mode,
                ends@[i] as int,
            ) == d,
    ensures
        starts@.len() == ends@.len(),
        forall|i: int|
            0 <= i < ends@.len() ==> {
                &&& #[trigger] starts@[i] < ends@[i]
                &&& starts@[i] as int == region_start(q, t, mode, ends@[i] as int, d as int)
                &&& region_cost(q, t, starts@[i] as int, ends@[i] as int) == d
            },
{
    let mut starts: Vec<usize> = Vec::new();
    let anywhere = match mode {
        AlignMode::Infix => true,
        _ => false,
    };
    if anywhere {
        let rcodes = reverse_bytes(pattern.codes.as_slice());
        proof {
            assert forall|i: int| 0 <= i < rcodes@.len() implies (#[trigger] rcodes@[i] as int)
                < pattern.size() by {
                assert(rcodes@[i] == pattern.codes@[pattern.codes@.len() - 1 - i]);
            }
        }
        let reversed = build_pattern(rcodes, pattern.masks.len());
        let mut i: usize = 0;
        while i < ends.len()
            invariant
                0 <= i <= ends@.len(),
                starts@.len() == i,
                mode is Infix,
                reversed.wf(),
                reversed.query() == pattern.query().reverse(),
                reversed.size() == pattern.size(),
                same_pairs(q, t, pattern.query(), codes@),
                1 <= q.len() <= MAX_LEN,
                1 <= codes@.len() <= MAX_LEN,
                forall|j: int|
                    0 <= j < codes@.len() ==> (#[trigger] codes@[j] as int) < pattern.size(),
                d <= MAX_BOUND,
                forall|x: int|
                    0 <= x < ends@.len() ==> 1 <= #[trigger] ends@[x] <= codes@.len() && end_cost(
                        q,
                        t,
                        mode,
                        ends@[x] as int,
                    ) == d,
                forall|x: int|
                    0 <= x < i ==> {
                        &&& #[trigger] starts@[x] < ends@[x]
                        &&& starts@[x] as int == region_start(
                            q,
                            t,
                            mode,
                            ends@[x] as int,
                            d as int,
                        )
                        &&& region_cost(q, t, starts@[x] as int, ends@[x] as int) == d
                    },
            decreases ends@.len() - i,
        {
            let e = ends[i];
            let s = find_start(
                &reversed,
                codes,
                e,
                d,
                Ghost(q),
                Ghost(t),
                Ghost(pattern.query()),
            );
            proof {
                lemma_first_start_hit(q, t, e as int, d as int, 0);
            }
            starts.push(s);
            i = i + 1;
        }
    } else {
        let mut i: usize = 0;
        while i < ends.len()
            invariant
                0 <= i <= ends@.len(),
                starts@.len() == i,
                !(mode is Infix),
                forall|x: int|
                    0 <= x < ends@.len() ==> 1 <= #[trigger] ends@[x] <= codes@.len() && end_cost(
                        q,
                        t,
                        mode,
                        ends@[x] as int,
                    ) == d,
                forall|x: int|
                    0 <= x < i ==> {
                        &&& #[trigger] starts@[x] < ends@[x]
                        &&& starts@[x] as int == region_start(
                            q,
                            t,
                            mode,
                            ends@[x] as int,
                            d as int,
                        )
                        &&& region_cost(q, t, starts@[x] as int, ends@[x] as int) == d
                    },
            decreases ends@.len() - i,
        {
            starts.push(0);
            i = i + 1;
        }
    }
    starts
}

/// The call where neither sequence is empty.
fn solve_full(
    query: &[u8],
    target: &[u8],
    mode: AlignMode,
    task: AlignTask,
    bound: Option<u64>,
) -> (a: Alignment)
    requires
        1 <= query@.len() <= MAX_LEN,
        1 <= target@.len() <= MAX_LEN,
    ensures
        a@ == alignment_of(query@, target@, mode, task, limit_of(bound)),
{
    let ghost q = query@;
    let ghost t = target@;
    let m = query.len();
    let n = target.len();
    let enc = encode(query, target);
    let size = enc.size;
    let cq = enc.query;
    let ct = enc.target;
    proof {
        lemma_encodes_pairs(q, t, cq@, ct@, size as int);
        let both = cq@ + ct@;
        assert forall|i: int| 0 <= i < cq@.len() implies (#[trigger] cq@[i] as int) < size by {
            assert(both[i] == cq@[i]);
        }
        assert forall|j: int| 0 <= j < ct@.len() implies (#[trigger] ct@[j] as int) < size by {
            assert(both[cq@.len() + j] == ct@[j]);
        }
        lemma_distance_bounds(q, t, mode);
    }
    let longest: u64 = if m > n {
        m as u64
    } else {
        n as u64
    };
    let limit: u64 = match bound {
        Some(k) => if k < longest {
            k
        } else {
            longest
        },
        None => longest,
    };
    let pattern = build_pattern(cq, size);
    let whole = match mode {
        AlignMode::Global => true,
        _ => false,
    };
    let anywhere = match mode {
        AlignMode::Infix => true,
        _ => false,
    };
    let found = search(&pattern, ct.as_slice(), anywhere, whole, limit, bound.is_none());
    let ghost dist = mode_distance(q, t, mode);
    proof {
        assert(anywhere == free_start(mode));
        if whole {
            lemma_global_report(q, t, pattern.query(), ct@);
        } else {
            if found.best is None {
                lemma_found_nothing(q, t, pattern.query(), ct@, mode, limit as int);
            } else {
                lemma_found_distance(q, t, pattern.query(), ct@, mode, found.best->0 as int);
                lemma_hits_are_ends(q, t, pattern.query(), ct@, mode, dist, n as int);
            }
        }
    }
    match found.best {
        None => Alignment::beyond_bound(mode, task),
        Some(d) => {
            let ghost ends = best_ends(q, t, mode);
            proof {
                assert(d == dist);
                assert(same_places(found.ends@, ends)) by {
                    if whole {
                        assert(found.ends@ =~= seq![n]);
                    }
                }
                assert forall|i: int| 0 <= i < found.ends@.len() implies 1 <= #[trigger] found.ends@[i]
                    <= n && end_cost(q, t, mode, found.ends@[i] as int) == d by {
                    lemma_ends_members(q, t, mode, dist, n as int, i);
                    assert(found.ends@[i] as int == ends[i]);
                }
                assert(ends.len() > 0) by {
                    if !whole {
                        crate::report::lemma_hits_last(
                            pattern.query(),
                            ct@,
                            anywhere,
                            dist,
                            n as int,
                        );
                    }
                }
            }
            let located = match task {
                AlignTask::Distance => false,
                _ => true,
            };
            let traced = match task {
                AlignTask::Alignment => true,
                _ => false,
            };
            if !located {
                let none: Vec<usize> = Vec::new();
                let ops: Vec<Operation> = Vec::new();
                let a = Alignment::pack(mode, task, d, &none, &none, &ops);
                proof {
                    let want = alignment_of(q, t, mode, task, limit_of(bound));
                    assert(a@.locations =~= want.locations);
                    assert(a@.operations =~= want.operations);
                }
                a
            } else {
                let starts = all_starts(
                    &pattern,
                    ct.as_slice(),
                    &found.ends,
                    d,
                    mode,
                    Ghost(q),
                    Ghost(t),
                );
                let ops = if traced {
                    find_path(
                        &pattern,
                        ct.as_slice(),
                        starts[0],
                        found.ends[0],
                        d,
                        Ghost(q),
                        Ghost(t),
                    )
                } else {
                    Vec::new()
                };
                let a = Alignment::pack(mode, task, d, &starts, &found.ends, &ops);
                proof {
                    let want = alignment_of(q, t, mode, task, limit_of(bound));
                    let all = places(q, t, mode);
                    assert(a@.locations =~= all) by {
                        assert forall|i: int| 0 <= i < all.len() implies a@.locations[i]
                            == all[i] by {
                            assert(found.ends@[i] as int == ends[i]);
                            assert(starts@[i] < found.ends@[i]);
                        }
                    }
                    assert(a@.locations =~= want.locations);
                    assert(a@.operations =~= want.operations) by {
                        assert(found.ends@[0] as int == ends[0]);
                        assert(starts@[0] < found.ends@[0]);
                    }
                }
                a
            }
        },
    }
}

/// Where a result holds operations, they replay: against the stretch of the
/// target at the first place and against the whole query they consume both
/// exactly, and their edits are as many as the distance.
pub open spec fn replayable(v: AlignmentView, q: Seq<u8>, t: Seq<u8>) -> bool {
    v.task is Alignment && v.distance is Some ==> {
        let p = v.locations[0];
        &&& v.locations.len() > 0
        &&& 0 <= p.0 <= p.1 <= t.len()
        &&& aligns(v.operations, q, t.subrange(p.0, p.1))
        &&& cost(v.operations) == v.distance->0
    }
}

/// Aligns `query` with `target` and hands back an exact description of the
/// optimal alignments: see `alignment_of`. With a bound, a distance above it
/// is reported as exceeded and nothing else is worked out. Neither sequence
/// may be longer than `MAX_LEN` symbols, so that every position fits the
/// 32-bit integers in which places are handed out.
pub fn align_within(
    query: &[u8],
    target: &[u8],
    mode: AlignMode,
    task: AlignTask,
    bound: Option<u64>,
) -> (a: Alignment)
    requires
        query@.len() <= MAX_LEN,
        target@.len() <= MAX_LEN,
    ensures
        a@ == alignment_of(query@, target@, mode, task, limit_of(bound)),
        a@.distance is None <==> bound is Some && mode_distance(query@, target@, mode) > bound->0,
        a@.distance is Some ==> a@.distance->0 == mode_distance(query@, target@, mode),
        replayable(a@, query@, target@),
{
    let m = query.len();
    let n = target.len();
    proof {
        if task is Alignment && alignment_of(
            query@,
            target@,
            mode,
            task,
            limit_of(bound),
        ).distance is Some {
            lemma_alignment_replays(query@, target@, mode, limit_of(bound));
        }
    }
    if m == 0 || n == 0 {
        solve_empty(m, n, mode, task, bound, Ghost(query@), Ghost(target@))
    } else {
        solve_full(query, target, mode, task, bound)
    }
}

/// Aligns `query` with `target` without a distance bound. Neither sequence
/// may be longer than `MAX_LEN` symbols.
pub fn align(query: &[u8], target: &[u8], mode: AlignMode, task: AlignTask) -> (a: Alignment)
    requires
        query@.len() <= MAX_LEN,
        target@.len() <= MAX_LEN,
    ensures
        a@ == alignment_of(query@, target@, mode, task, None),
        a@.distance == Some(mode_distance(query@, target@, mode)),
        replayable(a@, query@, target@),
{
    align_within(query, target, mode, task, None)
}

/// The bound of a call as a mathematical value, for a bound that is not negative.
pub open spec fn bound_of(bound: Option<i64>) -> Option<int> {
    match bound {
        Some(k) => Some(k as int),
        None => None,
    }
}

/// The general alignment call. A negative bound is turned down before
/// anything is computed, and so is a sequence of more than `MAX_LEN`
/// symbols; every other call succeeds.
pub fn compute_alignment(
    query: &[u8],
    target: &[u8],
    mode: AlignMode,
    task: AlignTask,
    bound: Option<i64>,
) -> (r: Result<Alignment, AlignError>)
    ensures
        match r {
            Err(AlignError::InvalidBound) => bound is Some && bound->0 < 0,
            Err(AlignError::TooLong) => !(bound is Some && bound->0 < 0) && (query@.len() > MAX_LEN
                || target@.len() > MAX_LEN),
            Ok(a) => {
                &&& !(bound is Some && bound->0 < 0)
                &&& query@.len() <= MAX_LEN
                &&& target@.len() <= MAX_LEN
                &&& a@ == alignment_of(query@, target@, mode, task, bound_of(bound))
                &&& replayable(a@, query@, target@)
            },
        },
{
    let limit: Option<u64> = match bound {
        Some(k) => {
            if k < 0 {
                return Err(AlignError::InvalidBound);
            }
            Some(k as u64)
        },
        None => None,
    };
    if query.len() > MAX_LEN || target.len() > MAX_LEN {
        return Err(AlignError::TooLong);
    }
    Ok(align_within(query, target, mode, task, limit))
}

} // verus!
