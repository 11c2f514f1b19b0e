//! Runs of operations as text: for each run its count in decimal, then a
//! letter for its operation, as in `3=1X2I1D`.

use crate::edit::Operation;
use crate::runs::{encode_runs, expand, lemma_runs_of, Run, runs_of};
use vstd::prelude::*;
use vstd::string::*;

verus! {

/// The letter of an operation: `=` for a match, `X` for a mismatch, `I` for
/// an insertion to the target, `D` for a deletion from the target.
pub open spec fn symbol_of(op: Operation) -> char {
    match op {
        Operation::Match => '=',
        Operation::InsertionToTarget => 'I',
        Operation::DeletionFromTarget => 'D',
        Operation::Mismatch => 'X',
    }
}

/// The operation that a letter stands for.
pub open spec fn op_of_symbol(c: char) -> Option<Operation> {
    if c == '=' {
        Some(Operation::Match)
    } else if c == 'I' {
        Some(Operation::InsertionToTarget)
    } else if c == 'D' {
        Some(Operation::DeletionFromTarget)
    } else if c == 'X' {
        Some(Operation::Mismatch)
    } else {
        None
    }
}

/// The character of a decimal digit.
pub open spec fn digit_char(d: int) -> char {
    if d == 0 {
        '0'
    } else if d == 1 {
        '1'
    } else if d == 2 {
        '2'
    } else if d == 3 {
        '3'
    } else if d == 4 {
        '4'
    } else if d == 5 {
        '5'
    } else if d == 6 {
        '6'
    } else if d == 7 {
        '7'
    } else if d == 8 {
        '8'
    } else {
        '9'
    }
}

/// The value of a decimal digit.
pub open spec fn digit_value(c: char) -> Option<int> {
    if '0' <= c <= '9' {
        Some(c as int - '0' as int)
    } else {
        None
    }
}

/// The decimal digits of a number, without leading zeros.
pub open spec fn digits(n: nat) -> Seq<char>
    decreases n,
{
    if n < 10 {
        seq![digit_char(n as int)]
    } else {
        digits(n / 10).push(digit_char((n % 10) as int))
    }
}

/// The text of one run: its count, then its letter.
pub open spec fn run_text(run: Run) -> Seq<char> {
    digits(run.count as nat).push(symbol_of(run.op))
}

/// The text of a list of runs: the texts of the runs, one after another.
pub open spec fn text_of(runs: Seq<Run>) -> Seq<char>
    decreases runs.len(),
{
    if runs.len() == 0 {
        Seq::empty()
    } else {
        text_of(runs.drop_last()) + run_text(runs.last())
    }
}

/// Reads runs from position `i` of a text on. `n` is the count read so far
/// of the run at hand, -1 before its first digit; `runs` are the runs read
/// so far. A count starts with a digit other than zero and is at most
/// `usize::MAX`; a letter ends a run.
pub open spec fn parse_from(text: Seq<char>, i: int, n: int, runs: Seq<Run>) -> Option<Seq<Run>>
    decreases text.len() - i,
{
    if i >= text.len() {
        if n < 0 {
            Some(runs)
        } else {
            None
        }
    } else if digit_value(text[i]) is Some {
        let v = digit_value(text[i])->0;
        if n < 0 {
            if v == 0 {
                None
            } else {
                parse_from(text, i + 1, v, runs)
            }
        } else if 10 * n + v > usize::MAX {
            None
        } else {
            parse_from(text, i + 1, 10 * n + v, runs)
        }
    } else if op_of_symbol(text[i]) is Some {
        if n < 0 {
            None
        } else {
            parse_from(
                text,
                i + 1,
                -1,
                runs.push(Run { count: n as usize, op: op_of_symbol(text[i])->0 }),
            )
        }
    } else {
        None
    }
}

/// The runs that a text spells, if it spells any.
pub open spec fn parse(text: Seq<char>) -> Option<Seq<Run>> {
    parse_from(text, 0, -1, Seq::empty())
}

/// A digit given as text.
fn digit_str(d: usize) -> (s: &'static str)
    requires
        d < 10,
    ensures
        s@ == seq![digit_char(d as int)],
{
    proof {
        reveal_strlit("0");
        reveal_strlit("1");
        reveal_strlit("2");
        reveal_strlit("3");
        reveal_strlit("4");
        reveal_strlit("5");
        reveal_strlit("6");
        reveal_strlit("7");
        reveal_strlit("8");
        reveal_strlit("9");
    }
    let s = if d == 0 {
        "0"
    } else if d == 1 {
        "1"
    } else if d == 2 {
        "2"
    } else if d == 3 {
        "3"
    } else if d == 4 {
        "4"
    } else if d == 5 {
        "5"
    } else if d == 6 {
        "6"
    } else if d == 7 {
        "7"
    } else if d == 8 {
        "8"
    } else {
        "9"
    };
    assert(s@ =~= seq![digit_char(d as int)]);
    s
}

/// The letter of an operation, as text.
fn symbol_str(op: Operation) -> (s: &'static str)
    ensures
        s@ == seq![symbol_of(op)],
{
    proof {
        reveal_strlit("=");
        reveal_strlit("I");
        reveal_strlit("D");
        reveal_strlit("X");
    }
    let s = match op {
        Operation::Match => "=",
        Operation::InsertionToTarget => "I",
        Operation::DeletionFromTarget => "D",
        Operation::Mismatch => "X",
    };
    assert(s@ =~= seq![symbol_of(op)]);
    s
}

/// The characters of a list of digit values, last value first.
pub open spec fn back_digits(ds: Seq<usize>) -> Seq<char>
    decreases ds.len(),
{
    if ds.len() == 0 {
        Seq::empty()
    } else {
        seq![digit_char(ds.last() as int)] + back_digits(ds.drop_last())
    }
}

/// Appends the decimal digits of `n` to a text.
fn push_number(s: &mut String, n: usize)
    ensures
        final(s)@ == old(s)@ + digits(n as nat),
{
    let mut low: Vec<usize> = Vec::new();
    let mut rest: usize = n;
    proof {
        assert(digits(rest as nat) + back_digits(low@) =~= digits(n as nat));
    }
    while rest >= 10
        invariant
            digits(n as nat) == digits(rest as nat) + back_digits(low@),
            forall|i: int| 0 <= i < low@.len() ==> #[trigger] low@[i] < 10,
        decreases rest,
    {
        let d = rest % 10;
        proof {
            let grown = low@.push(d);
            assert(grown.drop_last() =~= low@);
            assert(digits(rest as nat) == digits((rest / 10) as nat).push(digit_char(d as int)));
            assert(digits((rest / 10) as nat) + back_digits(grown) =~= digits(rest as nat)
                + back_digits(low@));
        }
        low.push(d);
        rest = rest / 10;
    }
    let ghost start = s@;
    s.append(digit_str(rest));
    let mut i: usize = low.len();
    proof {
        assert(low@.take(i as int) =~= low@);
    }
    while i > 0
        invariant
            0 <= i <= low@.len(),
            forall|x: int| 0 <= x < low@.len() ==> #[trigger] low@[x] < 10,
            s@ + back_digits(low@.take(i as int)) == start + digits(n as nat),
        decreases i,
    {
        let ghost before = s@;
        i = i - 1;
        s.append(digit_str(low[i]));
        proof {
            let part = low@.take(i + 1);
            assert(part.drop_last() =~= low@.take(i as int));
            assert(part.last() == low@[i as int]);
            assert(s@ + back_digits(low@.take(i as int)) =~= before + back_digits(part));
        }
    }
    proof {
        assert(low@.take(0) =~= Seq::<usize>::empty());
        assert(s@ + back_digits(low@.take(0)) =~= s@);
    }
}

/// Writes a list of runs as text.
pub fn runs_to_text(runs: &[Run]) -> (s: String)
    ensures
        s@ == text_of(runs@),
{
    let mut s = String::new();
    let mut i: usize = 0;
    proof {
        assert(runs@.take(0) =~= Seq::<Run>::empty());
    }
    while i < runs.len()
        invariant
            0 <= i <= runs@.len(),
            s@ == text_of(runs@.take(i as int)),
        decreases runs@.len() - i,
    {
        let run = runs[i];
        let ghost before = s@;
        push_number(&mut s, run.count);
        s.append(symbol_str(run.op));
        proof {
            let part = runs@.take(i + 1);
            assert(part.drop_last() =~= runs@.take(i as int));
            assert(part.last() == run);
            assert(s@ =~= before + run_text(run));
        }
        i = i + 1;
    }
    proof {
        assert(runs@.take(runs@.len() as int) =~= runs@);
    }
    s
}

/// Writes a sequence of operations as text: the runs of the sequence, each
/// as its count and its letter.
pub fn encode_operations_as_text(ops: &[Operation]) -> (s: String)
    ensures
        s@ == text_of(runs_of(ops@)),
{
    let runs = encode_runs(ops);
    runs_to_text(runs.as_slice())
}

/// A text with a character that is neither a digit nor a letter of an
/// operation spells no runs.
pub proof fn lemma_bad_char(text: Seq<char>, j: int, n: int, runs: Seq<Run>, i: int)
    requires
        0 <= j <= i < text.len(),
        digit_value(text[i]) is None,
        op_of_symbol(text[i]) is None,
    ensures
        parse_from(text, j, n, runs) is None,
    decreases i - j,
{
    if j < i {
        if digit_value(text[j]) is Some {
            let v = digit_value(text[j])->0;
            if n < 0 {
                if v != 0 {
                    lemma_bad_char(text, j + 1, v, runs, i);
                }
            } else if 10 * n + v <= usize::MAX {
                lemma_bad_char(text, j + 1, 10 * n + v, runs, i);
            }
        } else if op_of_symbol(text[j]) is Some {
            if n >= 0 {
                lemma_bad_char(
                    text,
                    j + 1,
                    -1,
                    runs.push(Run { count: n as usize, op: op_of_symbol(text[j])->0 }),
                    i,
                );
            }
        }
    }
}

/// Reading the digits of a count gives the count.
proof fn lemma_parse_number(text: Seq<char>, pos: int, k: nat, acc: Seq<Run>)
    requires
        1 <= k <= usize::MAX,
        0 <= pos,
        pos + digits(k).len() <= text.len(),
        text.subrange(pos, pos + digits(k).len()) == digits(k),
    ensures
        parse_from(text, pos, -1, acc) == parse_from(text, pos + digits(k).len(), k as int, acc),
    decreases k,
{
    let len = digits(k).len() as int;
    let sub = text.subrange(pos, pos + len);
    if k < 10 {
        assert(sub[0] == text[pos]);
        assert(text[pos] == digit_char(k as int));
    } else {
        let front = digits(k / 10);
        assert(digits(k) == front.push(digit_char((k % 10) as int)));
        assert(text.subrange(pos, pos + len - 1) =~= front) by {
            assert forall|x: int| 0 <= x < len - 1 implies text[pos + x] == front[x] by {
                assert(sub[x] == text[pos + x]);
            }
        }
        lemma_parse_number(text, pos, k / 10, acc);
        assert(sub[len - 1] == text[pos + len - 1]);
        assert(text[pos + len - 1] == digit_char((k % 10) as int));
        assert(10 * (k / 10) + (k % 10) == k);
    }
}

/// Reading the text of a list of runs gives the runs.
proof fn lemma_parse_runs(text: Seq<char>, pos: int, runs: Seq<Run>, acc: Seq<Run>)
    requires
        forall|i: int| 0 <= i < runs.len() ==> (#[trigger] runs[i]).count >= 1,
        0 <= pos,
        pos + text_of(runs).len() <= text.len(),
        text.subrange(pos, pos + text_of(runs).len()) == text_of(runs),
    ensures
        parse_from(text, pos, -1, acc) == parse_from(
            text,
            pos + text_of(runs).len(),
            -1,
            acc + runs,
        ),
    decreases runs.len(),
{
    if runs.len() == 0 {
        assert(acc + runs =~= acc);
    } else {
        let init = runs.drop_last();
        let last = runs.last();
        let whole = text_of(runs);
        let head = text_of(init);
        let num = digits(last.count as nat);
        let sub = text.subrange(pos, pos + whole.len());
        assert(whole == head + num.push(symbol_of(last.op)));
        assert(text.subrange(pos, pos + head.len()) =~= head) by {
            assert forall|x: int| 0 <= x < head.len() implies text[pos + x] == head[x] by {
                assert(sub[x] == text[pos + x]);
            }
        }
        assert forall|i: int| 0 <= i < init.len() implies (#[trigger] init[i]).count >= 1 by {
            assert(runs[i].count >= 1);
        }
        lemma_parse_runs(text, pos, init, acc);
        let at = pos + head.len();
        assert(text.subrange(at, at + num.len()) =~= num) by {
            assert forall|x: int| 0 <= x < num.len() implies text[at + x] == num[x] by {
                assert(sub[head.len() + x] == text[at + x]);
            }
        }
        assert(runs[runs.len() - 1].count >= 1);
        lemma_parse_number(text, at, last.count as nat, acc + init);
        let end = at + num.len();
        assert(sub[(head.len() + num.len()) as int] == text[end]);
        assert(text[end] == symbol_of(last.op));
        assert((acc + init).push(last) =~= acc + runs);
    }
}

/// Text and runs go back and forth without loss: the text of a list of runs
/// without empty runs spells exactly that list.
pub proof fn lemma_text_round_trip(runs: Seq<Run>)
    requires
        forall|i: int| 0 <= i < runs.len() ==> (#[trigger] runs[i]).count >= 1,
    ensures
        parse(text_of(runs)) == Some(runs),
{
    let text = text_of(runs);
    assert(text.subrange(0, text.len() as int) =~= text);
    lemma_parse_runs(text, 0, runs, Seq::empty());
    assert(Seq::<Run>::empty() + runs =~= runs);
}

/// Reads a list of runs from its text. The text is a chain of runs, each a
/// count in decimal, at least 1 and without leading zeros, followed by the
/// letter of an operation; any other text is turned down.
pub fn text_to_runs(text: &str) -> (r: Option<Vec<Run>>)
    ensures
        r is Some <==> parse(text@) is Some,
        r matches Some(v) ==> parse(text@) == Some(v@),
{
    if !text.is_ascii() {
        proof {
            let i = choose|i: int| 0 <= i < text@.len() && !('\0' <= #[trigger] text@[i] <= '\u{7f}');
            lemma_bad_char(text@, 0, -1, Seq::empty(), i);
        }
        return None;
    }
    let len = text.unicode_len();
    let mut runs: Vec<Run> = Vec::new();
    let mut count: usize = 0;
    let mut started = false;
    let mut i: usize = 0;
    while i < len
        invariant
            0 <= i <= len,
            len == text@.len(),
            text.is_ascii(),
            parse(text@) == parse_from(
                text@,
                i as int,
                if started {
                    count as int
                } else {
                    -1
                },
                runs@,
            ),
        decreases len - i,
    {
        let b = text.get_ascii(i);
        let ghost c = text@[i as int];
        assert('\0' <= c <= '\u{7f}');
        if 48 <= b && b <= 57 {
            let v = (b - 48) as usize;
            assert(digit_value(c) == Some(v as int));
            if !started {
                if v == 0 {
                    return None;
                }
                count = v;
                started = true;
            } else {
                if count > (usize::MAX - v) / 10 {
                    return None;
                }
                count = 10 * count + v;
            }
        } else {
            assert(digit_value(c) is None);
            let op = if b == 61 {
                Operation::Match
            } else if b == 73 {
                Operation::InsertionToTarget
            } else if b == 68 {
                Operation::DeletionFromTarget
            } else if b == 88 {
                Operation::Mismatch
            } else {
                assert(op_of_symbol(c) is None);
                return None;
            };
            assert(op_of_symbol(c) == Some(op));
            if !started {
                return None;
            }
            runs.push(Run { count, op });
            started = false;
        }
        i = i + 1;
    }
    if started {
        None
    } else {
        Some(runs)
    }
}

/// A path goes to text and back without loss: the text of the runs of a
/// sequence of operations spells those runs, and the runs stand for the sequence.
pub proof fn lemma_path_text_round_trip(ops: Seq<Operation>)
    requires
        ops.len() <= usize::MAX,
    ensures
        parse(text_of(runs_of(ops))) == Some(runs_of(ops)),
        expand(runs_of(ops)) == ops,
{
    lemma_runs_of(ops);
    lemma_text_round_trip(runs_of(ops));
}

} // verus!
