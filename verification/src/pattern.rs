//! The query as bit masks: for every symbol code and every block of 64 query
//! positions, a word that marks the positions holding that code.

use crate::block::{bit, bit64};
use vstd::prelude::*;

verus! {

/// The number of 64-row blocks that cover `m` rows.
pub open spec fn blocks_for(m: int) -> int {
    (m + 63) / 64
}

/// `word` marks exactly the positions of block `b` at which `codes` holds `c`.
pub open spec fn mask_ok(word: u64, codes: Seq<u8>, c: int, b: int) -> bool {
    forall|i: int|
        0 <= i < 64 ==> (#[trigger] bit(word, i) <==> (64 * b + i < codes.len() && codes[64 * b
            + i] as int == c))
}

/// The masks of a query, one row of words per symbol code.
pub struct Pattern {
    /// `masks[c][b]` marks where code `c` stands in block `b` of the query.
    pub masks: Vec<Vec<u64>>,
    /// The query itself, as codes.
    pub codes: Vec<u8>,
}

impl Pattern {
    /// The query that the masks describe.
    pub open spec fn query(&self) -> Seq<u8> {
        self.codes@
    }

    /// The number of symbol codes that the masks provide for.
    pub open spec fn size(&self) -> int {
        self.masks@.len() as int
    }

    /// The masks describe the query, and every code of the query has its row of masks.
    pub open spec fn wf(&self) -> bool {
        &&& self.describes(self.codes@, self.masks@.len() as int)
        &&& forall|i: int| 0 <= i < self.codes@.len() ==> (#[trigger] self.codes@[i] as int) < self.size()
    }

    /// The masks describe the query `codes` over an alphabet of `size` codes.
    pub open spec fn describes(&self, codes: Seq<u8>, size: int) -> bool {
        &&& self.masks@.len() == size
        &&& forall|c: int|
            0 <= c < size ==> (#[trigger] self.masks@[c])@.len() == blocks_for(codes.len() as int)
        &&& forall|c: int, b: int|
            0 <= c < size && 0 <= b < blocks_for(codes.len() as int) ==> mask_ok(
                #[trigger] self.masks@[c]@[b],
                codes,
                c,
                b,
            )
    }
}

/// Setting bit `i` of a word changes that bit alone; the zero word has no bit set.
proof fn lemma_set_bit(word: u64, i: u64, j: u64)
    by (bit_vector)
    requires
        i < 64,
        j < 64,
    ensures
        bit64(word | (1u64 << i), j) == (bit64(word, j) || j == i),
        !bit64(0u64, j),
{
}

/// The number of blocks that cover `m` rows.
pub fn block_count(m: usize) -> (n: usize)
    ensures
        n == blocks_for(m as int),
        64 * (n - 1) < m <= 64 * n,
{
    if m % 64 == 0 {
        m / 64
    } else {
        m / 64 + 1
    }
}

/// The mask of code `c` for block `b` of the query `codes`.
fn build_mask(codes: &[u8], c: u8, b: usize) -> (word: u64)
    requires
        64 * b < codes@.len(),
    ensures
        mask_ok(word, codes@, c as int, b as int),
{
    let mut word: u64 = 0;
    let mut i: usize = 0;
    let n = codes.len();
    assert(64 * b < n);
    let base: usize = 64 * b;
    assert forall|j: int| 0 <= j < 64 implies !#[trigger] bit(word, j) by {
        lemma_set_bit(0, 0, j as u64);
    }
    while i < 64 && i < codes.len() - base
        invariant
            0 <= i <= 64,
            base == 64 * b,
            base < codes@.len(),
            forall|j: int|
                0 <= j < i ==> (#[trigger] bit(word, j) <==> (base + j < codes@.len() && codes@[base
                    + j] as int == c as int)),
            forall|j: int| i <= j < 64 ==> !#[trigger] bit(word, j),
        decreases 64 - i,
    {
        if codes[base + i] == c {
            let ghost before = word;
            word = word | (1u64 << (i as u64));
            assert forall|j: int| 0 <= j < 64 implies (#[trigger] bit(word, j) <==> (bit(before, j)
                || j == i)) by {
                lemma_set_bit(before, i as u64, j as u64);
            }
        }
        i = i + 1;
    }
    word
}

/// Builds the masks of the query `codes`, whose codes all lie below `size`.
pub fn build_pattern(codes: Vec<u8>, size: usize) -> (p: Pattern)
    requires
        size <= 256,
        forall|i: int| 0 <= i < codes@.len() ==> (#[trigger] codes@[i] as int) < size,
    ensures
        p.wf(),
        p.query() == codes@,
        p.size() == size,
{
    let nb = block_count(codes.len());
    let mut masks: Vec<Vec<u64>> = Vec::new();
    let mut c: usize = 0;
    while c < size
        invariant
            0 <= c <= size <= 256,
            nb == blocks_for(codes@.len() as int),
            64 * (nb - 1) < codes@.len() <= 64 * nb,
            masks@.len() == c,
            forall|x: int| 0 <= x < c ==> (#[trigger] masks@[x])@.len() == nb,
            forall|x: int, b: int|
                0 <= x < c && 0 <= b < nb ==> mask_ok(#[trigger] masks@[x]@[b], codes@, x, b),
        decreases size - c,
    {
        let mut row: Vec<u64> = Vec::new();
        let mut b: usize = 0;
        while b < nb
            invariant
                0 <= b <= nb,
                c < 256,
                64 * (nb - 1) < codes@.len() <= 64 * nb,
                row@.len() == b,
                forall|y: int| 0 <= y < b ==> mask_ok(#[trigger] row@[y], codes@, c as int, y),
            decreases nb - b,
        {
            let word = build_mask(codes.as_slice(), c as u8, b);
            row.push(word);
            b = b + 1;
        }
        masks.push(row);
        c = c + 1;
    }
    Pattern { masks, codes }
}

} // verus!
