//! Edit operations, what it means for a run of them to align a query with a
//! target, and the optimal path that the aligner reports.

use crate::distance::lev;
use vstd::prelude::*;

verus! {

/// One step of an alignment between a query and a target.
#[derive(Clone, Copy, Debug, PartialEq, Eq, Structural)]
pub enum Operation {
    /// The next query symbol equals the next target symbol.
    Match,
    /// The next query symbol has no partner in the target.
    InsertionToTarget,
    /// The next target symbol has no partner in the query.
    DeletionFromTarget,
    /// The next query symbol is paired with a different target symbol.
    Mismatch,
}

impl Operation {
    /// The numeric code of the operation.
    pub open spec fn spec_code(self) -> u8 {
        match self {
            Operation::Match => 0,
            Operation::InsertionToTarget => 1,
            Operation::DeletionFromTarget => 2,
            Operation::Mismatch => 3,
        }
    }

    /// The operation that a numeric code stands for, if any.
    pub open spec fn spec_from_code(code: u8) -> Option<Operation> {
        if code == 0 {
            Some(Operation::Match)
        } else if code == 1 {
            Some(Operation::InsertionToTarget)
        } else if code == 2 {
            Some(Operation::DeletionFromTarget)
        } else if code == 3 {
            Some(Operation::Mismatch)
        } else {
            None
        }
    }

    /// The numeric code of the operation: 0 for a match, 1 for an insertion
    /// to the target, 2 for a deletion from the target, 3 for a mismatch.
    pub fn code(self) -> (c: u8)
        ensures
            c == self.spec_code(),
            c < 4,
            Operation::spec_from_code(c) == Some(self),
    {
        match self {
            Operation::Match => 0,
            Operation::InsertionToTarget => 1,
            Operation::DeletionFromTarget => 2,
            Operation::Mismatch => 3,
        }
    }

    /// Reads a numeric code back; codes above 3 stand for nothing.
    pub fn from_code(code: u8) -> (op: Option<Operation>)
        ensures
            op == Operation::spec_from_code(code),
            op is Some <==> code < 4,
            op is Some ==> op->0.spec_code() == code,
    {
        if code == 0 {
            Some(Operation::Match)
        } else if code == 1 {
            Some(Operation::InsertionToTarget)
        } else if code == 2 {
            Some(Operation::DeletionFromTarget)
        } else if code == 3 {
            Some(Operation::Mismatch)
        } else {
            None
        }
    }

    /// Whether the operation consumes a query symbol.
    pub open spec fn uses_query(self) -> bool {
        !(self is DeletionFromTarget)
    }

    /// Whether the operation consumes a target symbol.
    pub open spec fn uses_target(self) -> bool {
        !(self is InsertionToTarget)
    }

    /// What the operation adds to the distance.
    pub open spec fn price(self) -> int {
        if self is Match {
            0
        } else {
            1
        }
    }
}

/// The codes of a run of operations, one for one.
pub open spec fn codes_of(ops: Seq<Operation>) -> Seq<u8> {
    Seq::new(ops.len(), |i: int| ops[i].spec_code())
}

/// The number of edits in a run of operations: everything but the matches.
pub open spec fn cost(ops: Seq<Operation>) -> int
    decreases ops.len(),
{
    if ops.len() == 0 {
        0
    } else {
        cost(ops.drop_last()) + ops.last().price()
    }
}

/// How many operations of the run consume a query symbol.
pub open spec fn query_span(ops: Seq<Operation>) -> int
    decreases ops.len(),
{
    if ops.len() == 0 {
        0
    } else {
        query_span(ops.drop_last()) + if ops.last().uses_query() {
            1int
        } else {
            0int
        }
    }
}

/// How many operations of the run consume a target symbol.
pub open spec fn target_span(ops: Seq<Operation>) -> int
    decreases ops.len(),
{
    if ops.len() == 0 {
        0
    } else {
        target_span(ops.drop_last()) + if ops.last().uses_target() {
            1int
        } else {
            0int
        }
    }
}

/// Replaying `ops` consumes exactly `q` and exactly `t`: every match pairs
/// equal symbols, every mismatch pairs different ones, every insertion takes
/// a query symbol alone and every deletion a target symbol alone.
pub open spec fn aligns(ops: Seq<Operation>, q: Seq<u8>, t: Seq<u8>) -> bool
    decreases ops.len(),
{
    if ops.len() == 0 {
        q.len() == 0 && t.len() == 0
    } else {
        match ops.last() {
            Operation::Match => q.len() > 0 && t.len() > 0 && q.last() == t.last() && aligns(
                ops.drop_last(),
                q.drop_last(),
                t.drop_last(),
            ),
            Operation::Mismatch => q.len() > 0 && t.len() > 0 && q.last() != t.last() && aligns(
                ops.drop_last(),
                q.drop_last(),
                t.drop_last(),
            ),
            Operation::InsertionToTarget => q.len() > 0 && aligns(
                ops.drop_last(),
                q.drop_last(),
                t,
            ),
            Operation::DeletionFromTarget => t.len() > 0 && aligns(
                ops.drop_last(),
                q,
                t.drop_last(),
            ),
        }
    }
}

/// An alignment consumes as many query symbols as the query has and as many
/// target symbols as the target has.
pub proof fn lemma_aligns_spans(ops: Seq<Operation>, q: Seq<u8>, t: Seq<u8>)
    requires
        aligns(ops, q, t),
    ensures
        query_span(ops) == q.len(),
        target_span(ops) == t.len(),
        ops.len() <= q.len() + t.len(),
        ops.len() == q.len() + t.len() - (query_span(ops) + target_span(ops) - ops.len()),
    decreases ops.len(),
{
    if ops.len() != 0 {
        match ops.last() {
            Operation::Match => lemma_aligns_spans(ops.drop_last(), q.drop_last(), t.drop_last()),
            Operation::Mismatch => lemma_aligns_spans(
                ops.drop_last(),
                q.drop_last(),
                t.drop_last(),
            ),
            Operation::InsertionToTarget => lemma_aligns_spans(ops.drop_last(), q.drop_last(), t),
            Operation::DeletionFromTarget => lemma_aligns_spans(ops.drop_last(), q, t.drop_last()),
        }
    }
}

/// No alignment of `q` with `t` has fewer edits than their distance.
pub proof fn lemma_lev_is_lower_bound(ops: Seq<Operation>, q: Seq<u8>, t: Seq<u8>)
    requires
        aligns(ops, q, t),
    ensures
        lev(q, t) <= cost(ops),
    decreases ops.len(),
{
    if ops.len() != 0 {
        match ops.last() {
            Operation::Match => lemma_lev_is_lower_bound(
                ops.drop_last(),
                q.drop_last(),
                t.drop_last(),
            ),
            Operation::Mismatch => lemma_lev_is_lower_bound(
                ops.drop_last(),
                q.drop_last(),
                t.drop_last(),
            ),
            Operation::InsertionToTarget => {
                lemma_lev_is_lower_bound(ops.drop_last(), q.drop_last(), t);
            },
            Operation::DeletionFromTarget => {
                lemma_lev_is_lower_bound(ops.drop_last(), q, t.drop_last());
            },
        }
    }
}

/// The path that the aligner reports for `q` against `t`. It is read off
/// backwards from the end of both sequences: where dropping the last query
/// symbol alone accounts for the distance, it is an insertion; else where
/// dropping the last target symbol alone does, a deletion; else the two last
/// symbols are paired.
pub open spec fn best_path(q: Seq<u8>, t: Seq<u8>) -> Seq<Operation>
    decreases q.len() + t.len(),
{
    if q.len() == 0 && t.len() == 0 {
        Seq::empty()
    } else if q.len() == 0 {
        best_path(q, t.drop_last()).push(Operation::DeletionFromTarget)
    } else if t.len() == 0 {
        best_path(q.drop_last(), t).push(Operation::InsertionToTarget)
    } else if lev(q.drop_last(), t) + 1 == lev(q, t) {
        best_path(q.drop_last(), t).push(Operation::InsertionToTarget)
    } else if lev(q, t.drop_last()) + 1 == lev(q, t) {
        best_path(q, t.drop_last()).push(Operation::DeletionFromTarget)
    } else if q.last() == t.last() {
        best_path(q.drop_last(), t.drop_last()).push(Operation::Match)
    } else {
        best_path(q.drop_last(), t.drop_last()).push(Operation::Mismatch)
    }
}

/// The reported path is an alignment of `q` with `t`, and it has exactly as
/// many edits as their distance: the distance is attained.
pub proof fn lemma_best_path_optimal(q: Seq<u8>, t: Seq<u8>)
    ensures
        aligns(best_path(q, t), q, t),
        cost(best_path(q, t)) == lev(q, t),
    decreases q.len() + t.len(),
{
    let p = best_path(q, t);
    if q.len() == 0 && t.len() == 0 {
    } else if q.len() == 0 {
        lemma_best_path_optimal(q, t.drop_last());
        assert(p.drop_last() =~= best_path(q, t.drop_last()));
    } else if t.len() == 0 {
        lemma_best_path_optimal(q.drop_last(), t);
        assert(p.drop_last() =~= best_path(q.drop_last(), t));
    } else if lev(q.drop_last(), t) + 1 == lev(q, t) {
        lemma_best_path_optimal(q.drop_last(), t);
        assert(p.drop_last() =~= best_path(q.drop_last(), t));
    } else if lev(q, t.drop_last()) + 1 == lev(q, t) {
        lemma_best_path_optimal(q, t.drop_last());
        assert(p.drop_last() =~= best_path(q, t.drop_last()));
    } else {
        lemma_best_path_optimal(q.drop_last(), t.drop_last());
        assert(p.drop_last() =~= best_path(q.drop_last(), t.drop_last()));
    }
}

/// Alignments compose: one alignment after another aligns the concatenated
/// queries with the concatenated targets, at the sum of the costs.
pub proof fn lemma_aligns_concat(
    ops1: Seq<Operation>,
    q1: Seq<u8>,
    t1: Seq<u8>,
    ops2: Seq<Operation>,
    q2: Seq<u8>,
    t2: Seq<u8>,
)
    requires
        aligns(ops1, q1, t1),
        aligns(ops2, q2, t2),
    ensures
        aligns(ops1 + ops2, q1 + q2, t1 + t2),
        cost(ops1 + ops2) == cost(ops1) + cost(ops2),
    decreases ops2.len(),
{
    if ops2.len() == 0 {
        assert(ops1 + ops2 =~= ops1);
        assert(q1 + q2 =~= q1);
        assert(t1 + t2 =~= t1);
    } else {
        let o = ops1 + ops2;
        assert(o.drop_last() =~= ops1 + ops2.drop_last());
        assert(o.last() == ops2.last());
        if ops2.last().uses_query() {
            assert((q1 + q2).drop_last() =~= q1 + q2.drop_last());
            assert((q1 + q2).last() == q2.last());
        }
        if ops2.last().uses_target() {
            assert((t1 + t2).drop_last() =~= t1 + t2.drop_last());
            assert((t1 + t2).last() == t2.last());
        }
        match ops2.last() {
            Operation::Match => lemma_aligns_concat(
                ops1,
                q1,
                t1,
                ops2.drop_last(),
                q2.drop_last(),
                t2.drop_last(),
            ),
            Operation::Mismatch => lemma_aligns_concat(
                ops1,
                q1,
                t1,
                ops2.drop_last(),
                q2.drop_last(),
                t2.drop_last(),
            ),
            Operation::InsertionToTarget => lemma_aligns_concat(
                ops1,
                q1,
                t1,
                ops2.drop_last(),
                q2.drop_last(),
                t2,
            ),
            Operation::DeletionFromTarget => lemma_aligns_concat(
                ops1,
                q1,
                t1,
                ops2.drop_last(),
                q2,
                t2.drop_last(),
            ),
        }
    }
}

/// A single operation aligns the symbols it consumes.
proof fn lemma_aligns_single(op: Operation, x: u8, y: u8)
    ensures
        op is Match && x == y ==> aligns(seq![op], seq![x], seq![y]),
        op is Mismatch && x != y ==> aligns(seq![op], seq![x], seq![y]),
        op is InsertionToTarget ==> aligns(seq![op], seq![x], Seq::empty()),
        op is DeletionFromTarget ==> aligns(seq![op], Seq::empty(), seq![y]),
        cost(seq![op]) == op.price(),
{
    let one = seq![op];
    assert(one.drop_last() =~= Seq::<Operation>::empty());
    assert(one.last() == op);
    assert(seq![x].drop_last() =~= Seq::<u8>::empty());
    assert(seq![y].drop_last() =~= Seq::<u8>::empty());
    assert(cost(one.drop_last()) == 0);
    assert(aligns(one.drop_last(), Seq::<u8>::empty(), Seq::<u8>::empty()));
}

/// The reverse of a non-empty sequence starts with its last element.
proof fn lemma_reverse_last<A>(s: Seq<A>)
    requires
        s.len() > 0,
    ensures
        s.reverse() == seq![s.last()] + s.drop_last().reverse(),
{
    assert(s.reverse() =~= seq![s.last()] + s.drop_last().reverse());
}

/// An alignment read backwards aligns the reversed sequences, at the same cost.
pub proof fn lemma_aligns_reverse(ops: Seq<Operation>, q: Seq<u8>, t: Seq<u8>)
    requires
        aligns(ops, q, t),
    ensures
        aligns(ops.reverse(), q.reverse(), t.reverse()),
        cost(ops.reverse()) == cost(ops),
    decreases ops.len(),
{
    if ops.len() == 0 {
        assert(ops.reverse() =~= ops);
        assert(q.reverse() =~= q);
        assert(t.reverse() =~= t);
    } else {
        let op = ops.last();
        let one = seq![op];
        let rest = ops.drop_last();
        lemma_reverse_last(ops);
        let q0 = if op.uses_query() {
            q.drop_last()
        } else {
            q
        };
        let t0 = if op.uses_target() {
            t.drop_last()
        } else {
            t
        };
        assert(aligns(rest, q0, t0));
        lemma_aligns_reverse(rest, q0, t0);
        let qx: Seq<u8> = if op.uses_query() {
            seq![q.last()]
        } else {
            Seq::empty()
        };
        let tx: Seq<u8> = if op.uses_target() {
            seq![t.last()]
        } else {
            Seq::empty()
        };
        assert(aligns(one, qx, tx) && cost(one) == op.price()) by {
            lemma_aligns_single(op, q.last(), t.last());
        }
        assert(q.reverse() == qx + q0.reverse()) by {
            if op.uses_query() {
                lemma_reverse_last(q);
            } else {
                assert(q.reverse() =~= qx + q0.reverse());
            }
        }
        assert(t.reverse() == tx + t0.reverse()) by {
            if op.uses_target() {
                lemma_reverse_last(t);
            } else {
                assert(t.reverse() =~= tx + t0.reverse());
            }
        }
        lemma_aligns_concat(one, qx, tx, rest.reverse(), q0.reverse(), t0.reverse());
    }
}

/// Reversing both sequences leaves their distance unchanged.
pub proof fn lemma_lev_reverse(a: Seq<u8>, b: Seq<u8>)
    ensures
        lev(a.reverse(), b.reverse()) == lev(a, b),
{
    lemma_best_path_optimal(a, b);
    lemma_aligns_reverse(best_path(a, b), a, b);
    lemma_lev_is_lower_bound(best_path(a, b).reverse(), a.reverse(), b.reverse());
    let ar = a.reverse();
    let br = b.reverse();
    lemma_best_path_optimal(ar, br);
    lemma_aligns_reverse(best_path(ar, br), ar, br);
    assert(ar.reverse() =~= a);
    assert(br.reverse() =~= b);
    lemma_lev_is_lower_bound(best_path(ar, br).reverse(), a, b);
}

/// Replays `ops` against `query` and `target` and says whether they consume
/// both exactly, each match on equal symbols and each mismatch on different ones.
pub fn replays(ops: &[Operation], query: &[u8], target: &[u8]) -> (ok: bool)
    ensures
        ok == aligns(ops@, query@, target@),
{
    let mut i: usize = ops.len();
    let mut a: usize = query.len();
    let mut b: usize = target.len();
    proof {
        assert(ops@.take(i as int) =~= ops@);
        assert(query@.take(a as int) =~= query@);
        assert(target@.take(b as int) =~= target@);
    }
    while i > 0
        invariant
            0 <= i <= ops@.len(),
            0 <= a <= query@.len(),
            0 <= b <= target@.len(),
            aligns(ops@, query@, target@) == aligns(
                ops@.take(i as int),
                query@.take(a as int),
                target@.take(b as int),
            ),
        decreases i,
    {
        let op = ops[i - 1];
        let ghost o = ops@.take(i as int);
        let ghost q = query@.take(a as int);
        let ghost t = target@.take(b as int);
        proof {
            assert(o.last() == op);
            assert(o.drop_last() =~= ops@.take(i - 1));
            if a > 0 {
                assert(q.drop_last() =~= query@.take(a - 1));
            }
            if b > 0 {
                assert(t.drop_last() =~= target@.take(b - 1));
            }
        }
        match op {
            Operation::Match => {
                if a == 0 || b == 0 || query[a - 1] != target[b - 1] {
                    return false;
                }
                a = a - 1;
                b = b - 1;
            },
            Operation::Mismatch => {
                if a == 0 || b == 0 || query[a - 1] == target[b - 1] {
                    return false;
                }
                a = a - 1;
                b = b - 1;
            },
            Operation::InsertionToTarget => {
                if a == 0 {
                    return false;
                }
                a = a - 1;
            },
            Operation::DeletionFromTarget => {
                if b == 0 {
                    return false;
                }
                b = b - 1;
            },
        }
        i = i - 1;
    }
    proof {
        assert(ops@.take(0).len() == 0);
    }
    a == 0 && b == 0
}

/// Reads a run of operations from its codes; nothing where a code stands for no operation.
pub fn decode(codes: &[u8]) -> (r: Option<Vec<Operation>>)
    ensures
        r is Some <==> forall|i: int| 0 <= i < codes@.len() ==> #[trigger] codes@[i] < 4,
        r matches Some(ops) ==> codes_of(ops@) == codes@,
{
    let mut ops: Vec<Operation> = Vec::new();
    let mut i: usize = 0;
    while i < codes.len()
        invariant
            0 <= i <= codes@.len(),
            ops@.len() == i,
            forall|x: int| 0 <= x < i ==> #[trigger] codes@[x] < 4,
            forall|x: int| 0 <= x < i ==> (#[trigger] ops@[x]).spec_code() == codes@[x],
        decreases codes@.len() - i,
    {
        match Operation::from_code(codes[i]) {
            Some(op) => {
                ops.push(op);
            },
            None => {
                assert(!(codes@[i as int] < 4));
                return None;
            },
        }
        i = i + 1;
    }
    assert(codes_of(ops@) =~= codes@);
    Some(ops)
}

} // verus!
