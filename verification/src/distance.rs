//! The edit distance between two byte sequences, as a mathematical function,
//! together with the metric laws it obeys.

use vstd::prelude::*;

verus! {

/// The smaller of two integers.
pub open spec fn min2(a: int, b: int) -> int {
    if a <= b {
        a
    } else {
        b
    }
}

/// The smallest of three integers.
pub open spec fn min3(a: int, b: int, c: int) -> int {
    min2(a, min2(b, c))
}

/// The price of pairing symbol `x` with symbol `y`: nothing when they agree,
/// one substitution when they differ.
pub open spec fn sub_cost(x: u8, y: u8) -> int {
    if x == y {
        0
    } else {
        1
    }
}

/// The edit distance between `a` and `b`: the least number of single-symbol
/// insertions, deletions and substitutions that turn one into the other.
pub open spec fn lev(a: Seq<u8>, b: Seq<u8>) -> int
    decreases a.len() + b.len(),
{
    if a.len() == 0 {
        b.len() as int
    } else if b.len() == 0 {
        a.len() as int
    } else {
        min3(
            lev(a.drop_last(), b.drop_last()) + sub_cost(a.last(), b.last()),
            lev(a.drop_last(), b) + 1,
            lev(a, b.drop_last()) + 1,
        )
    }
}

/// The distance lies between the difference of the lengths and the longer length.
pub proof fn lemma_lev_bounds(a: Seq<u8>, b: Seq<u8>)
    ensures
        a.len() - b.len() <= lev(a, b),
        b.len() - a.len() <= lev(a, b),
        lev(a, b) <= a.len() || lev(a, b) <= b.len(),
        lev(a, b) <= a.len() + b.len(),
        0 <= lev(a, b),
    decreases a.len() + b.len(),
{
    if a.len() != 0 && b.len() != 0 {
        lemma_lev_bounds(a.drop_last(), b.drop_last());
        lemma_lev_bounds(a.drop_last(), b);
        lemma_lev_bounds(a, b.drop_last());
    }
}

/// Appending one symbol to the first sequence changes the distance by at most one upwards.
pub proof fn lemma_lev_push_left(a: Seq<u8>, x: u8, b: Seq<u8>)
    ensures
        lev(a.push(x), b) <= lev(a, b) + 1,
{
    assert(a.push(x).drop_last() =~= a);
}

/// Appending one symbol to the second sequence changes the distance by at most one upwards.
pub proof fn lemma_lev_push_right(a: Seq<u8>, b: Seq<u8>, y: u8)
    ensures
        lev(a, b.push(y)) <= lev(a, b) + 1,
{
    assert(b.push(y).drop_last() =~= b);
}

/// Under whole-sequence alignment the distance does not depend on which
/// sequence is called the query and which the target.
pub proof fn lemma_lev_symmetric(a: Seq<u8>, b: Seq<u8>)
    ensures
        lev(a, b) == lev(b, a),
    decreases a.len() + b.len(),
{
    if a.len() != 0 && b.len() != 0 {
        lemma_lev_symmetric(a.drop_last(), b.drop_last());
        lemma_lev_symmetric(a.drop_last(), b);
        lemma_lev_symmetric(a, b.drop_last());
    }
}

/// A sequence is at distance zero from itself.
pub proof fn lemma_lev_same(a: Seq<u8>)
    ensures
        lev(a, a) == 0,
    decreases a.len(),
{
    if a.len() != 0 {
        lemma_lev_same(a.drop_last());
        lemma_lev_bounds(a.drop_last(), a);
        lemma_lev_bounds(a, a.drop_last());
    }
}

/// Only equal sequences are at distance zero.
pub proof fn lemma_lev_zero(a: Seq<u8>, b: Seq<u8>)
    requires
        lev(a, b) == 0,
    ensures
        a == b,
    decreases a.len() + b.len(),
{
    if a.len() == 0 || b.len() == 0 {
        assert(a =~= b);
    } else {
        lemma_lev_bounds(a.drop_last(), b.drop_last());
        lemma_lev_bounds(a.drop_last(), b);
        lemma_lev_bounds(a, b.drop_last());
        lemma_lev_zero(a.drop_last(), b.drop_last());
        assert(a =~= a.drop_last().push(a.last()));
        assert(b =~= b.drop_last().push(b.last()));
    }
}

/// The triangle inequality: going from `a` to `c` directly never costs more
/// than going through `b`.
pub proof fn lemma_lev_triangle(a: Seq<u8>, b: Seq<u8>, c: Seq<u8>)
    ensures
        lev(a, c) <= lev(a, b) + lev(b, c),
    decreases a.len() + b.len() + c.len(),
{
    lemma_lev_bounds(a, b);
    lemma_lev_bounds(b, c);
    lemma_lev_bounds(a, c);
    if a.len() == 0 || b.len() == 0 || c.len() == 0 {
    } else {
        let a0 = a.drop_last();
        let b0 = b.drop_last();
        let c0 = c.drop_last();
        let ab = lev(a, b);
        let bc = lev(b, c);
        if ab == lev(a0, b) + 1 {
            lemma_lev_triangle(a0, b, c);
        } else if bc == lev(b, c0) + 1 {
            lemma_lev_triangle(a, b, c0);
        } else if ab == lev(a, b0) + 1 {
            if bc == lev(b0, c) + 1 {
                lemma_lev_triangle(a, b0, c);
            } else {
                lemma_lev_triangle(a, b0, c0);
            }
        } else {
            if bc == lev(b0, c) + 1 {
                lemma_lev_triangle(a0, b0, c);
            } else {
                lemma_lev_triangle(a0, b0, c0);
            }
        }
    }
}

} // verus!
