//! The symbol encoder: the bytes that actually occur in a pair of sequences
//! are renumbered densely, in the order in which they first appear.

use crate::distance::lev;
use crate::edit::best_path;
use crate::matrix::cell;
use vstd::prelude::*;
use vstd::set_lib::{lemma_int_range, lemma_len_subset, set_int_range};

verus! {

/// Code `x` occurs in `c` before position `p`.
pub open spec fn seen_before(c: Seq<u8>, p: int, x: int) -> bool {
    exists|r: int| 0 <= r < p && r < c.len() && #[trigger] c[r] as int == x
}

/// `c` renumbers the symbols of `s` with `size` codes: equal symbols get
/// equal codes and different symbols different codes, every code below
/// `size` is in use, and a code appears for the first time only after all
/// smaller codes have appeared.
pub open spec fn encodes(s: Seq<u8>, c: Seq<u8>, size: int) -> bool {
    &&& c.len() == s.len()
    &&& 0 <= size <= 256
    &&& forall|p: int| 0 <= p < c.len() ==> (#[trigger] c[p] as int) < size
    &&& forall|p: int, r: int|
        0 <= p < c.len() && 0 <= r < c.len() ==> ((#[trigger] c[p] == #[trigger] c[r]) <==> (s[p]
            == s[r]))
    &&& forall|p: int, x: int| 0 <= p < c.len() && 0 <= x < c[p] ==> #[trigger] seen_before(c, p, x)
    &&& forall|x: int| 0 <= x < size ==> #[trigger] seen_before(c, c.len() as int, x)
}

/// A pair of sequences after renumbering.
pub struct Encoded {
    /// The number of distinct symbols in the two sequences together.
    pub size: usize,
    /// The codes of the query, symbol for symbol.
    pub query: Vec<u8>,
    /// The codes of the target, symbol for symbol.
    pub target: Vec<u8>,
}

/// What the encoder knows after it has read the symbols `s` and given them the codes `c`.
struct Table {
    code: Vec<u8>,
    known: Vec<bool>,
    size: usize,
}

impl Table {
    /// The table holds the code of every symbol of `s`, and knows no other symbol.
    spec fn wf(&self, s: Seq<u8>, c: Seq<u8>) -> bool {
        &&& self.code.len() == 256
        &&& self.known.len() == 256
        &&& encodes(s, c, self.size as int)
        &&& forall|x: int| 0 <= x < 256 ==> (#[trigger] self.known[x] <==> s.contains(x as u8))
        &&& forall|p: int| 0 <= p < s.len() ==> self.code[s[p] as int] == #[trigger] c[p]
    }
}

/// Fewer than 256 different bytes exist besides a given one.
proof fn lemma_room_left(bytes: Seq<int>, x: int)
    requires
        bytes.no_duplicates(),
        forall|i: int| 0 <= i < bytes.len() ==> 0 <= #[trigger] bytes[i] < 256,
        0 <= x < 256,
        !bytes.contains(x),
    ensures
        bytes.len() < 256,
{
    broadcast use vstd::set::group_set_axioms;

    bytes.unique_seq_to_set();
    lemma_int_range(0, 256);
    let full = set_int_range(0, 256);
    let rest = full.remove(x);
    assert(full.contains(x));
    assert(rest.len() == 255);
    assert(bytes.to_set().subset_of(rest)) by {
        assert forall|y: int| bytes.to_set().contains(y) implies rest.contains(y) by {
            let i = choose|i: int| 0 <= i < bytes.len() && bytes[i] == y;
            assert(0 <= bytes[i] < 256);
        }
    }
    lemma_len_subset(bytes.to_set(), rest);
}

/// A position at which code `x` occurs.
spec fn place_of(c: Seq<u8>, x: int) -> int {
    choose|r: int| 0 <= r < c.len() && #[trigger] c[r] as int == x
}

/// While a symbol is still unknown, fewer than 256 codes are in use.
proof fn lemma_size_below_limit(s: Seq<u8>, c: Seq<u8>, size: int, x: u8)
    requires
        encodes(s, c, size),
        !s.contains(x),
    ensures
        size < 256,
{
    let bytes = Seq::new(size as nat, |y: int| s[place_of(c, y)] as int);
    assert forall|y: int| 0 <= y < size implies 0 <= place_of(c, y) < c.len() && c[place_of(
        c,
        y,
    )] as int == y by {
        assert(seen_before(c, c.len() as int, y));
    }
    assert forall|y: int, z: int| 0 <= y < size && 0 <= z < size && y != z implies bytes[y]
        != bytes[z] by {
        let p = place_of(c, y);
        let r = place_of(c, z);
        assert(c[p] != c[r]);
    }
    assert(!bytes.contains(x as int)) by {
        if bytes.contains(x as int) {
            let y = choose|y: int| 0 <= y < bytes.len() && bytes[y] == x as int;
            assert(s[place_of(c, y)] == x);
            assert(s.contains(x));
        }
    }
    lemma_room_left(bytes, x as int);
}

/// Reads the symbols of `src` and appends their codes to `out`, giving each
/// unknown symbol the next free code.
fn encode_more(
    table: &mut Table,
    src: &[u8],
    Ghost(s0): Ghost<Seq<u8>>,
    Ghost(c0): Ghost<Seq<u8>>,
) -> (out: Vec<u8>)
    requires
        old(table).wf(s0, c0),
    ensures
        final(table).wf(s0 + src@, c0 + out@),
        out@.len() == src@.len(),
{
    let mut out: Vec<u8> = Vec::new();
    let mut p: usize = 0;
    assert(s0 + src@.take(0) =~= s0);
    assert(c0 + out@ =~= c0);
    while p < src.len()
        invariant
            0 <= p <= src@.len(),
            out@.len() == p,
            table.wf(s0 + src@.take(p as int), c0 + out@),
        decreases src@.len() - p,
    {
        let x = src[p];
        let ghost s = s0 + src@.take(p as int);
        let ghost c = c0 + out@;
        let ghost s1 = s.push(x);
        assert(s0 + src@.take(p + 1) =~= s1);
        let y: u8;
        if table.known[x as usize] {
            y = table.code[x as usize];
            proof {
                let r = choose|r: int| 0 <= r < s.len() && s[r] == x;
                let c1 = c.push(y);
                assert(c[r] == y);
                assert forall|a: int, b: int| 0 <= a < c1.len() && 0 <= b < c1.len() implies ((
                #[trigger] c1[a] == #[trigger] c1[b]) <==> (s1[a] == s1[b])) by {
                    let a0 = if a == c.len() {
                        r
                    } else {
                        a
                    };
                    let b0 = if b == c.len() {
                        r
                    } else {
                        b
                    };
                    assert(c1[a] == c[a0] && s1[a] == s[a0]);
                    assert(c1[b] == c[b0] && s1[b] == s[b0]);
                }
                assert forall|a: int, z: int| 0 <= a < c1.len() && 0 <= z < c1[a] implies #[trigger] seen_before(
                    c1,
                    a,
                    z,
                ) by {
                    let a0 = if a == c.len() {
                        r
                    } else {
                        a
                    };
                    assert(seen_before(c, a0, z));
                    let w = choose|w: int| 0 <= w < a0 && w < c.len() && #[trigger] c[w] as int == z;
                    assert(c1[w] as int == z);
                }
                assert forall|z: int| 0 <= z < table.size implies #[trigger] seen_before(
                    c1,
                    c1.len() as int,
                    z,
                ) by {
                    assert(seen_before(c, c.len() as int, z));
                    let w = choose|w: int|
                        0 <= w < c.len() && w < c.len() && #[trigger] c[w] as int == z;
                    assert(c1[w] as int == z);
                }
                assert forall|z: int| 0 <= z < 256 implies (#[trigger] table.known[z] <==> s1.contains(
                    z as u8,
                )) by {
                    if s1.contains(z as u8) {
                        let w = choose|w: int| 0 <= w < s1.len() && s1[w] == z as u8;
                        if w < s.len() {
                            assert(s[w] == z as u8);
                        } else {
                            assert(s[r] == z as u8);
                        }
                    }
                    if s.contains(z as u8) {
                        let w = choose|w: int| 0 <= w < s.len() && s[w] == z as u8;
                        assert(s1[w] == z as u8);
                    }
                }
                assert(encodes(s1, c1, table.size as int));
            }
        } else {
            proof {
                lemma_size_below_limit(s, c, table.size as int, x);
            }
            y = table.size as u8;
            let ghost old_table = *table;
            table.code.set(x as usize, y);
            table.known.set(x as usize, true);
            table.size = table.size + 1;
            proof {
                let c1 = c.push(y);
                assert forall|a: int, b: int| 0 <= a < c1.len() && 0 <= b < c1.len() implies ((
                #[trigger] c1[a] == #[trigger] c1[b]) <==> (s1[a] == s1[b])) by {
                    if a < c.len() {
                        assert(c1[a] == c[a] && s1[a] == s[a]);
                        assert(s.contains(s[a]));
                    }
                    if b < c.len() {
                        assert(c1[b] == c[b] && s1[b] == s[b]);
                        assert(s.contains(s[b]));
                    }
                }
                assert forall|z: int| 0 <= z < table.size implies #[trigger] seen_before(
                    c1,
                    c1.len() as int,
                    z,
                ) by {
                    if z < old_table.size {
                        assert(seen_before(c, c.len() as int, z));
                        let w = choose|w: int|
                            0 <= w < c.len() && w < c.len() && #[trigger] c[w] as int == z;
                        assert(c1[w] as int == z);
                    } else {
                        assert(c1[c.len() as int] as int == z);
                    }
                }
                assert forall|a: int, z: int| 0 <= a < c1.len() && 0 <= z < c1[a] implies #[trigger] seen_before(
                    c1,
                    a,
                    z,
                ) by {
                    if a < c.len() {
                        assert(seen_before(c, a, z));
                        let w = choose|w: int|
                            0 <= w < a && w < c.len() && #[trigger] c[w] as int == z;
                        assert(c1[w] as int == z);
                    } else {
                        assert(seen_before(c, c.len() as int, z));
                        let w = choose|w: int|
                            0 <= w < c.len() && w < c.len() && #[trigger] c[w] as int == z;
                        assert(c1[w] as int == z);
                    }
                }
                assert forall|z: int| 0 <= z < 256 implies (#[trigger] table.known[z] <==> s1.contains(
                    z as u8,
                )) by {
                    if s1.contains(z as u8) {
                        let w = choose|w: int| 0 <= w < s1.len() && s1[w] == z as u8;
                        if w < s.len() {
                            assert(s[w] == z as u8);
                            assert(s.contains(z as u8));
                        }
                    }
                    if s.contains(z as u8) {
                        let w = choose|w: int| 0 <= w < s.len() && s[w] == z as u8;
                        assert(s1[w] == z as u8);
                    }
                    if z == x {
                        assert(s1[s.len() as int] == x);
                    }
                }
                assert forall|a: int| 0 <= a < s1.len() implies table.code[s1[a] as int]
                    == #[trigger] c1[a] by {
                    if a < s.len() {
                        assert(s.contains(s[a]));
                        assert(old_table.code[s[a] as int] == c[a]);
                    }
                }
                assert(encodes(s1, c1, table.size as int));
            }
        }
        out.push(y);
        assert(c0 + out@ =~= c.push(y));
        p = p + 1;
    }
    assert(src@.take(src@.len() as int) =~= src@);
    out
}

/// Renumbers the symbols of `query` and `target` together.
///
/// The codes are dense and assigned in order of first appearance, the query
/// read before the target; two positions carry the same code exactly when
/// they carry the same byte. Any byte value is accepted.
pub fn encode(query: &[u8], target: &[u8]) -> (e: Encoded)
    ensures
        encodes(query@ + target@, e.query@ + e.target@, e.size as int),
        e.query@.len() == query@.len(),
        e.target@.len() == target@.len(),
{
    let mut code: Vec<u8> = Vec::new();
    let mut known: Vec<bool> = Vec::new();
    let mut i: usize = 0;
    while i < 256
        invariant
            0 <= i <= 256,
            code.len() == i,
            known.len() == i,
            forall|x: int| 0 <= x < i ==> !#[trigger] known[x],
        decreases 256 - i,
    {
        code.push(0);
        known.push(false);
        i = i + 1;
    }
    let mut table = Table { code, known, size: 0 };
    let ghost none = Seq::<u8>::empty();
    assert(table.wf(none, none)) by {
        assert forall|x: int| 0 <= x < 256 implies (#[trigger] table.known[x] <==> none.contains(
            x as u8,
        )) by {}
    }
    let q = encode_more(&mut table, query, Ghost(none), Ghost(none));
    assert(none + query@ =~= query@);
    assert(none + q@ =~= q@);
    let t = encode_more(&mut table, target, Ghost(query@), Ghost(q@));
    Encoded { size: table.size, query: q, target: t }
}

/// The codes `cq` and `ct` agree with each other exactly where the symbols of
/// `q` and `t` agree with each other.
pub open spec fn same_pairs(q: Seq<u8>, t: Seq<u8>, cq: Seq<u8>, ct: Seq<u8>) -> bool {
    &&& cq.len() == q.len()
    &&& ct.len() == t.len()
    &&& forall|i: int, j: int|
        0 <= i < q.len() && 0 <= j < t.len() ==> ((#[trigger] cq[i] == #[trigger] ct[j]) <==> (q[i]
            == t[j]))
}

/// An encoding of two sequences together keeps which of their symbols agree.
pub proof fn lemma_encodes_pairs(q: Seq<u8>, t: Seq<u8>, cq: Seq<u8>, ct: Seq<u8>, size: int)
    requires
        encodes(q + t, cq + ct, size),
        cq.len() == q.len(),
        ct.len() == t.len(),
    ensures
        same_pairs(q, t, cq, ct),
{
    let s = q + t;
    let c = cq + ct;
    assert forall|i: int, j: int| 0 <= i < q.len() && 0 <= j < t.len() implies ((#[trigger] cq[i]
        == #[trigger] ct[j]) <==> (q[i] == t[j])) by {
        let p = i;
        let r = q.len() + j;
        assert(c[p] == cq[i] && c[r] == ct[j]);
        assert(s[p] == q[i] && s[r] == t[j]);
        assert((c[p] == c[r]) <==> (s[p] == s[r]));
    }
}

/// Sequences whose symbols agree in the same places have the same matrix.
pub proof fn lemma_same_pairs_cell(
    q: Seq<u8>,
    t: Seq<u8>,
    cq: Seq<u8>,
    ct: Seq<u8>,
    free: bool,
    i: int,
    j: int,
)
    requires
        same_pairs(q, t, cq, ct),
        0 <= i,
        0 <= j,
    ensures
        cell(q, t, free, i, j) == cell(cq, ct, free, i, j),
    decreases i + j,
{
    if i >= 1 && j >= 1 {
        lemma_same_pairs_cell(q, t, cq, ct, free, i - 1, j - 1);
        lemma_same_pairs_cell(q, t, cq, ct, free, i - 1, j);
        lemma_same_pairs_cell(q, t, cq, ct, free, i, j - 1);
        if i <= q.len() && j <= t.len() {
            assert((cq[i - 1] == ct[j - 1]) <==> (q[i - 1] == t[j - 1]));
        }
    }
}

/// Agreement in the same places carries over to a stretch of the target.
pub proof fn lemma_same_pairs_sub(
    q: Seq<u8>,
    t: Seq<u8>,
    cq: Seq<u8>,
    ct: Seq<u8>,
    s: int,
    e: int,
)
    requires
        same_pairs(q, t, cq, ct),
        0 <= s <= e <= t.len(),
    ensures
        same_pairs(q, t.subrange(s, e), cq, ct.subrange(s, e)),
{
    let t2 = t.subrange(s, e);
    let ct2 = ct.subrange(s, e);
    assert forall|i: int, j: int| 0 <= i < q.len() && 0 <= j < t2.len() implies ((#[trigger] cq[i]
        == #[trigger] ct2[j]) <==> (q[i] == t2[j])) by {
        assert(ct2[j] == ct[s + j]);
        assert((cq[i] == ct[s + j]) <==> (q[i] == t[s + j]));
    }
}

/// Agreement in the same places carries over to the sequences without their last symbols.
proof fn lemma_same_pairs_shorter(q: Seq<u8>, t: Seq<u8>, cq: Seq<u8>, ct: Seq<u8>)
    requires
        same_pairs(q, t, cq, ct),
    ensures
        q.len() > 0 ==> same_pairs(q.drop_last(), t, cq.drop_last(), ct),
        t.len() > 0 ==> same_pairs(q, t.drop_last(), cq, ct.drop_last()),
        q.len() > 0 && t.len() > 0 ==> same_pairs(
            q.drop_last(),
            t.drop_last(),
            cq.drop_last(),
            ct.drop_last(),
        ),
        q.len() > 0 && t.len() > 0 ==> ((cq.last() == ct.last()) <==> (q.last() == t.last())),
{
    if q.len() > 0 {
        let q0 = q.drop_last();
        let cq0 = cq.drop_last();
        assert forall|i: int, j: int| 0 <= i < q0.len() && 0 <= j < t.len() implies ((
        #[trigger] cq0[i] == #[trigger] ct[j]) <==> (q0[i] == t[j])) by {
            assert(cq0[i] == cq[i]);
            assert((cq[i] == ct[j]) <==> (q[i] == t[j]));
        }
    }
    if t.len() > 0 {
        let t0 = t.drop_last();
        let ct0 = ct.drop_last();
        assert forall|i: int, j: int| 0 <= i < q.len() && 0 <= j < t0.len() implies ((
        #[trigger] cq[i] == #[trigger] ct0[j]) <==> (q[i] == t0[j])) by {
            assert(ct0[j] == ct[j]);
            assert((cq[i] == ct[j]) <==> (q[i] == t[j]));
        }
    }
    if q.len() > 0 && t.len() > 0 {
        let q0 = q.drop_last();
        let cq0 = cq.drop_last();
        let t0 = t.drop_last();
        let ct0 = ct.drop_last();
        assert forall|i: int, j: int| 0 <= i < q0.len() && 0 <= j < t0.len() implies ((
        #[trigger] cq0[i] == #[trigger] ct0[j]) <==> (q0[i] == t0[j])) by {
            assert(cq0[i] == cq[i]);
            assert(ct0[j] == ct[j]);
            assert((cq[i] == ct[j]) <==> (q[i] == t[j]));
        }
        let a = q.len() - 1;
        let b = t.len() - 1;
        assert((cq[a] == ct[b]) <==> (q[a] == t[b]));
    }
}

/// Sequences whose symbols agree in the same places have the same distance
/// and the same reported path.
pub proof fn lemma_same_pairs_path(q: Seq<u8>, t: Seq<u8>, cq: Seq<u8>, ct: Seq<u8>)
    requires
        same_pairs(q, t, cq, ct),
    ensures
        lev(q, t) == lev(cq, ct),
        best_path(q, t) == best_path(cq, ct),
    decreases q.len() + t.len(),
{
    lemma_same_pairs_shorter(q, t, cq, ct);
    if q.len() > 0 {
        lemma_same_pairs_path(q.drop_last(), t, cq.drop_last(), ct);
    }
    if t.len() > 0 {
        lemma_same_pairs_path(q, t.drop_last(), cq, ct.drop_last());
    }
    if q.len() > 0 && t.len() > 0 {
        lemma_same_pairs_path(q.drop_last(), t.drop_last(), cq.drop_last(), ct.drop_last());
    }
}

} // verus!
