//! Runs of equal operations: a path in compact form.

use crate::edit::Operation;
use vstd::prelude::*;

verus! {

/// A number of equal operations in a row.
#[derive(Clone, Copy, Debug, PartialEq, Eq, Structural)]
pub struct Run {
    /// How many operations the run holds.
    pub count: usize,
    /// The operation that is repeated.
    pub op: Operation,
}

/// The operations that a list of runs stands for.
pub open spec fn expand(runs: Seq<Run>) -> Seq<Operation>
    decreases runs.len(),
{
    if runs.len() == 0 {
        Seq::empty()
    } else {
        expand(runs.drop_last()) + Seq::new(runs.last().count as nat, |i: int| runs.last().op)
    }
}

/// Run `i` holds another operation than the run before it.
pub open spec fn breaks_at(runs: Seq<Run>, i: int) -> bool {
    runs[i].op != runs[i - 1].op
}

/// No run is empty and no two neighbouring runs hold the same operation.
pub open spec fn compact(runs: Seq<Run>) -> bool {
    &&& forall|i: int| 0 <= i < runs.len() ==> (#[trigger] runs[i]).count >= 1
    &&& forall|i: int| 1 <= i < runs.len() ==> #[trigger] breaks_at(runs, i)
}

/// The runs with one more operation at the end: the last run grows where it
/// holds the same operation, else a new run of one starts.
pub open spec fn add_op(runs: Seq<Run>, op: Operation) -> Seq<Run> {
    if runs.len() > 0 && runs.last().op == op {
        runs.drop_last().push(Run { count: (runs.last().count + 1) as usize, op })
    } else {
        runs.push(Run { count: 1, op })
    }
}

/// The runs of a sequence of operations, in the order in which they occur.
pub open spec fn runs_of(ops: Seq<Operation>) -> Seq<Run>
    decreases ops.len(),
{
    if ops.len() == 0 {
        Seq::empty()
    } else {
        add_op(runs_of(ops.drop_last()), ops.last())
    }
}

/// Adding an operation to compact runs adds it to what they stand for, and
/// leaves them compact.
pub proof fn lemma_add_op(runs: Seq<Run>, op: Operation)
    requires
        compact(runs),
        expand(runs).len() < usize::MAX,
        forall|i: int| 0 <= i < runs.len() ==> (#[trigger] runs[i]).count <= expand(runs).len(),
    ensures
        compact(add_op(runs, op)),
        expand(add_op(runs, op)) == expand(runs).push(op),
        forall|i: int|
            0 <= i < add_op(runs, op).len() ==> (#[trigger] add_op(runs, op)[i]).count <= expand(
                runs,
            ).len() + 1,
{
    let out = add_op(runs, op);
    if runs.len() > 0 && runs.last().op == op {
        let c = runs.last().count;
        assert(runs[runs.len() - 1].count <= expand(runs).len());
        assert(out.drop_last() =~= runs.drop_last());
        assert(expand(out) =~= expand(runs).push(op));
        assert forall|i: int| 1 <= i < out.len() implies #[trigger] breaks_at(out, i) by {
            assert(breaks_at(runs, i));
        }
        assert forall|i: int| 0 <= i < out.len() implies (#[trigger] out[i]).count >= 1
            && out[i].count <= expand(runs).len() + 1 by {
            assert(runs[i].count >= 1);
            assert(runs[i].count <= expand(runs).len());
        }
    } else {
        assert(out.drop_last() =~= runs);
        assert(expand(out) =~= expand(runs).push(op));
        assert forall|i: int| 1 <= i < out.len() implies #[trigger] breaks_at(out, i) by {
            if i < runs.len() {
                assert(breaks_at(runs, i));
            }
        }
        assert forall|i: int| 0 <= i < out.len() implies (#[trigger] out[i]).count >= 1
            && out[i].count <= expand(runs).len() + 1 by {
            if i < runs.len() {
                assert(runs[i].count >= 1);
                assert(runs[i].count <= expand(runs).len());
            }
        }
    }
}

/// The runs of a sequence of operations are compact and stand for exactly that sequence.
pub proof fn lemma_runs_of(ops: Seq<Operation>)
    requires
        ops.len() <= usize::MAX,
    ensures
        compact(runs_of(ops)),
        expand(runs_of(ops)) == ops,
        forall|i: int| 0 <= i < runs_of(ops).len() ==> (#[trigger] runs_of(ops)[i]).count <= ops.len(),
    decreases ops.len(),
{
    if ops.len() > 0 {
        lemma_runs_of(ops.drop_last());
        lemma_add_op(runs_of(ops.drop_last()), ops.last());
        assert(ops.drop_last().push(ops.last()) =~= ops);
    }
}

/// Compact runs are the runs of what they stand for: going from runs to
/// operations and back gives the same runs.
pub proof fn lemma_runs_round_trip(runs: Seq<Run>)
    requires
        compact(runs),
    ensures
        runs_of(expand(runs)) == runs,
    decreases expand(runs).len(),
{
    if runs.len() > 0 {
        let last = runs.last();
        let init = runs.drop_last();
        assert(last.count >= 1);
        let tail = Seq::new(last.count as nat, |i: int| last.op);
        let ops = expand(runs);
        assert(ops == expand(init) + tail);
        assert(ops.last() == last.op);
        if last.count == 1 {
            assert(ops.drop_last() =~= expand(init));
            assert(compact(init)) by {
                assert forall|i: int| 1 <= i < init.len() implies #[trigger] breaks_at(init, i) by {
                    assert(breaks_at(runs, i));
                }
                assert forall|i: int| 0 <= i < init.len() implies (#[trigger] init[i]).count
                    >= 1 by {
                    assert(runs[i].count >= 1);
                }
            }
            lemma_runs_round_trip(init);
            if init.len() > 0 {
                assert(breaks_at(runs, runs.len() - 1));
            }
            assert(add_op(init, last.op) =~= runs);
        } else {
            let less = init.push(Run { count: (last.count - 1) as usize, op: last.op });
            assert(less.drop_last() =~= init);
            assert(expand(less) =~= ops.drop_last());
            assert(compact(less)) by {
                assert forall|i: int| 1 <= i < less.len() implies #[trigger] breaks_at(less, i) by {
                    assert(breaks_at(runs, i));
                }
                assert forall|i: int| 0 <= i < less.len() implies (#[trigger] less[i]).count
                    >= 1 by {
                    assert(runs[i].count >= 1);
                }
            }
            lemma_runs_round_trip(less);
            assert(add_op(less, last.op) =~= runs);
        }
    }
}

/// Collapses a sequence of operations into runs: successive equal operations
/// become one run, in the order in which they occur.
pub fn encode_runs(ops: &[Operation]) -> (runs: Vec<Run>)
    ensures
        runs@ == runs_of(ops@),
        compact(runs@),
        expand(runs@) == ops@,
{
    let mut runs: Vec<Run> = Vec::new();
    let mut i: usize = 0;
    proof {
        assert(ops@.take(0) =~= Seq::<Operation>::empty());
    }
    while i < ops.len()
        invariant
            0 <= i <= ops@.len(),
            runs@ == runs_of(ops@.take(i as int)),
        decreases ops@.len() - i,
    {
        let op = ops[i];
        proof {
            lemma_runs_of(ops@.take(i as int));
            assert(ops@.take(i + 1).drop_last() =~= ops@.take(i as int));
        }
        let n = runs.len();
        if n > 0 && runs[n - 1].op == op {
            let c = runs[n - 1].count;
            runs.set(n - 1, Run { count: c + 1, op });
            assert(runs@ =~= add_op(runs_of(ops@.take(i as int)), op));
        } else {
            runs.push(Run { count: 1, op });
        }
        i = i + 1;
    }
    proof {
        assert(ops@.take(ops@.len() as int) =~= ops@);
        lemma_runs_of(ops@);
    }
    runs
}

/// Spells a list of runs out as the operations it stands for.
pub fn decode_runs(runs: &[Run]) -> (ops: Vec<Operation>)
    requires
        expand(runs@).len() <= usize::MAX,
    ensures
        ops@ == expand(runs@),
{
    let mut ops: Vec<Operation> = Vec::new();
    let mut i: usize = 0;
    proof {
        assert(runs@.take(0) =~= Seq::<Run>::empty());
    }
    while i < runs.len()
        invariant
            0 <= i <= runs@.len(),
            expand(runs@).len() <= usize::MAX,
            ops@ == expand(runs@.take(i as int)),
        decreases runs@.len() - i,
    {
        let run = runs[i];
        let ghost before = ops@;
        proof {
            assert(runs@.take(i + 1).drop_last() =~= runs@.take(i as int));
            lemma_expand_grows(runs@, i + 1);
        }
        let mut j: usize = 0;
        while j < run.count
            invariant
                0 <= j <= run.count,
                before.len() + run.count <= usize::MAX,
                ops@ == before + Seq::new(j as nat, |x: int| run.op),
            decreases run.count - j,
        {
            ops.push(run.op);
            assert(ops@ =~= before + Seq::new((j + 1) as nat, |x: int| run.op));
            j = j + 1;
        }
        i = i + 1;
    }
    proof {
        assert(runs@.take(runs@.len() as int) =~= runs@);
    }
    ops
}

/// The first runs of a list stand for no more operations than the whole list.
pub proof fn lemma_expand_grows(runs: Seq<Run>, i: int)
    requires
        0 <= i <= runs.len(),
    ensures
        expand(runs.take(i)).len() <= expand(runs).len(),
    decreases runs.len() - i,
{
    if i < runs.len() {
        lemma_expand_grows(runs, i + 1);
        assert(runs.take(i + 1).drop_last() =~= runs.take(i));
    } else {
        assert(runs.take(i) =~= runs);
    }
}

} // verus!
