//! One block of a dynamic-programming column: 64 rows whose differences to
//! their neighbours are packed, one bit per row, into machine words.

use crate::distance::min3;
use vstd::prelude::*;

verus! {

/// Bit `i` of the word `w`, for a machine index.
pub open spec fn bit64(w: u64, i: u64) -> bool {
    (w >> i) & 1 == 1
}

/// Bit `i` of the word `w`.
pub open spec fn bit(w: u64, i: int) -> bool {
    bit64(w, i as u64)
}

/// The difference (+1, 0 or -1) that a pair of words records for row `i`:
/// `p` marks the rows with +1, `m` the rows with -1.
pub open spec fn delta(p: u64, m: u64, i: int) -> int {
    (if bit(p, i) {
        1int
    } else {
        0int
    }) - (if bit(m, i) {
        1int
    } else {
        0int
    })
}

/// No row is marked both +1 and -1.
pub open spec fn disjoint(p: u64, m: u64) -> bool {
    forall|i: int| 0 <= i < 64 ==> !(#[trigger] bit(p, i) && bit(m, i))
}

/// The value of a cell relative to its upper-left neighbour, given whether
/// the two symbols agree, the horizontal difference `hin` along the row above
/// and the vertical difference `vin` along the column to the left.
pub open spec fn cell_rel(eq: bool, hin: int, vin: int) -> int {
    min3(
        if eq {
            0
        } else {
            1
        },
        hin + 1,
        vin + 1,
    )
}

/// The words of one block after a column step.
#[derive(Clone, Copy, Debug)]
pub struct StepOut {
    /// Rows whose vertical difference in the new column is +1.
    pub pv: u64,
    /// Rows whose vertical difference in the new column is -1.
    pub mv: u64,
    /// Rows whose horizontal difference into the new column is +1.
    pub ph: u64,
    /// Rows whose horizontal difference into the new column is -1.
    pub mh: u64,
    /// The horizontal difference of the last row.
    pub hout: i8,
}

/// The horizontal difference that enters row `i` from above: that of the
/// block's upper neighbour for the first row, that of row `i - 1` otherwise.
pub open spec fn h_in(ph: u64, mh: u64, hin: int, i: int) -> int {
    if i == 0 {
        hin
    } else {
        delta(ph, mh, i - 1)
    }
}

/// Row `i` of a stepped block obeys the cell recurrence.
pub open spec fn row_ok(pv: u64, mv: u64, eq: u64, hin: int, out: StepOut, i: int) -> bool {
    let v = delta(pv, mv, i);
    let h = h_in(out.ph, out.mh, hin, i);
    let c = cell_rel(bit(eq, i), h, v);
    &&& delta(out.ph, out.mh, i) == c - v
    &&& delta(out.pv, out.mv, i) == c - h
}

/// The word that marks the rows which agree with the symbol or are entered
/// from above by a horizontal difference of -1. A single addition carries
/// the second condition from row to row; `hn` is 1 where the difference that
/// enters the first row is -1.
pub open spec fn xh_word(pv: u64, eq: u64, hn: u64) -> u64 {
    (((((eq | hn) & pv) as u64).wrapping_add(pv)) ^ pv) | (eq | hn)
}

/// The word that marks the rows whose horizontal difference is +1.
pub open spec fn ph_word(pv: u64, mv: u64, eq: u64, hn: u64) -> u64 {
    mv | !(xh_word(pv, eq, hn) | pv)
}

/// The word that marks the rows whose horizontal difference is -1.
pub open spec fn mh_word(pv: u64, eq: u64, hn: u64) -> u64 {
    pv & xh_word(pv, eq, hn)
}

/// The word that marks the rows whose vertical difference in the new column
/// is +1; `hp` is 1 where the difference that enters the first row is +1.
pub open spec fn pv_word(pv: u64, mv: u64, eq: u64, hp: u64, hn: u64) -> u64 {
    ((mh_word(pv, eq, hn) << 1) | hn) | !((eq | mv) | ((ph_word(pv, mv, eq, hn) << 1) | hp))
}

/// The word that marks the rows whose vertical difference in the new column is -1.
pub open spec fn mv_word(pv: u64, mv: u64, eq: u64, hp: u64, hn: u64) -> u64 {
    ((ph_word(pv, mv, eq, hn) << 1) | hp) & (eq | mv)
}

/// Bit by bit, the words of a step are what the cell recurrence asks for:
/// each bit depends on the bits of its own row and on the horizontal
/// difference of the row above.
proof fn lemma_step_bits(pv: u64, mv: u64, eq: u64, hp: u64, hn: u64, i: u64)
    by (bit_vector)
    requires
        i < 64,
        hp <= 1,
        hn <= 1,
    ensures
        bit64(ph_word(pv, mv, eq, hn), i) == (bit64(mv, i) || !(bit64(xh_word(pv, eq, hn), i)
            || bit64(pv, i))),
        bit64(mh_word(pv, eq, hn), i) == (bit64(pv, i) && bit64(xh_word(pv, eq, hn), i)),
        i > 0 ==> bit64(xh_word(pv, eq, hn), i) == (bit64(eq, i) || bit64(
            mh_word(pv, eq, hn),
            (i - 1) as u64,
        )),
        i == 0 ==> bit64(xh_word(pv, eq, hn), i) == (bit64(eq, i) || hn == 1),
        i > 0 ==> bit64(pv_word(pv, mv, eq, hp, hn), i) == (bit64(
            mh_word(pv, eq, hn),
            (i - 1) as u64,
        ) || !((bit64(eq, i) || bit64(mv, i)) || bit64(
            ph_word(pv, mv, eq, hn),
            (i - 1) as u64,
        ))),
        i == 0 ==> bit64(pv_word(pv, mv, eq, hp, hn), i) == (hn == 1 || !((bit64(eq, i) || bit64(
            mv,
            i,
        )) || hp == 1)),
        i > 0 ==> bit64(mv_word(pv, mv, eq, hp, hn), i) == (bit64(
            ph_word(pv, mv, eq, hn),
            (i - 1) as u64,
        ) && (bit64(eq, i) || bit64(mv, i))),
        i == 0 ==> bit64(mv_word(pv, mv, eq, hp, hn), i) == (hp == 1 && (bit64(eq, i) || bit64(
            mv,
            i,
        ))),
{
}

/// Advances one block by one column.
///
/// `pv` and `mv` hold the vertical differences of the block in the previous
/// column, `eq` marks the rows whose query symbol equals the column's target
/// symbol, and `hin` is the horizontal difference of the row just above the
/// block. Every row of the result obeys the cell recurrence.
pub fn step_block(pv: u64, mv: u64, eq: u64, hin: i8) -> (out: StepOut)
    requires
        disjoint(pv, mv),
        -1 <= hin <= 1,
    ensures
        disjoint(out.pv, out.mv),
        disjoint(out.ph, out.mh),
        forall|i: int| 0 <= i < 64 ==> #[trigger] row_ok(pv, mv, eq, hin as int, out, i),
        out.hout == delta(out.ph, out.mh, 63),
{
    let hp: u64 = if hin > 0 {
        1
    } else {
        0
    };
    let hn: u64 = if hin < 0 {
        1
    } else {
        0
    };
    let xv: u64 = eq | mv;
    let eq1: u64 = eq | hn;
    let xh: u64 = (((eq1 & pv).wrapping_add(pv)) ^ pv) | eq1;
    let ph: u64 = mv | !(xh | pv);
    let mh: u64 = pv & xh;
    let top_p: u64 = ph >> 63;
    let top_m: u64 = mh >> 63;
    let phs: u64 = (ph << 1) | hp;
    let mhs: u64 = (mh << 1) | hn;
    let pvo: u64 = mhs | !(xv | phs);
    let mvo: u64 = phs & xv;
    assert(top_p <= 1 && (top_p == 1 <==> bit64(ph, 63))) by (bit_vector)
        requires
            top_p == ph >> 63,
    ;
    assert(top_m <= 1 && (top_m == 1 <==> bit64(mh, 63))) by (bit_vector)
        requires
            top_m == mh >> 63,
    ;
    let hout: i8 = if top_p == 1 {
        if top_m == 1 {
            0
        } else {
            1
        }
    } else {
        if top_m == 1 {
            -1
        } else {
            0
        }
    };
    let out = StepOut { pv: pvo, mv: mvo, ph, mh, hout };
    proof {
        assert(ph == ph_word(pv, mv, eq, hn));
        assert(mh == mh_word(pv, eq, hn));
        assert(pvo == pv_word(pv, mv, eq, hp, hn));
        assert(mvo == mv_word(pv, mv, eq, hp, hn));
        assert forall|i: int| 0 <= i < 64 implies #[trigger] row_ok(
            pv,
            mv,
            eq,
            hin as int,
            out,
            i,
        ) by {
            lemma_step_bits(pv, mv, eq, hp, hn, i as u64);
            assert(!(bit(pv, i) && bit(mv, i)));
            if i > 0 {
                lemma_step_bits(pv, mv, eq, hp, hn, (i - 1) as u64);
                assert(!(bit(pv, i - 1) && bit(mv, i - 1)));
            }
        }
        assert forall|i: int| 0 <= i < 64 implies !(#[trigger] bit(ph, i) && bit(mh, i)) by {
            lemma_step_bits(pv, mv, eq, hp, hn, i as u64);
            assert(!(bit(pv, i) && bit(mv, i)));
        }
        assert forall|i: int| 0 <= i < 64 implies !(#[trigger] bit(pvo, i) && bit(mvo, i)) by {
            lemma_step_bits(pv, mv, eq, hp, hn, i as u64);
            assert(!(bit(pv, i) && bit(mv, i)));
            if i > 0 {
                lemma_step_bits(pv, mv, eq, hp, hn, (i - 1) as u64);
                assert(!(bit(pv, i - 1) && bit(mv, i - 1)));
            }
        }
    }
    out
}

} // verus!
