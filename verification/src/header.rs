//! Block headers.

use vstd::prelude::*;
use crate::hashes::BlockHash;

verus! {

/// An immutable block header. Identity is the `hash` field; `parents_by_level`
/// holds, for each DAG level it declares, the parents of at least that level
/// (level 0 being the ordinary DAG). `blue_work` is the accumulator the miner
/// claims; the processor recomputes and checks it.
pub struct Header {
    pub hash: BlockHash,
    pub parents_by_level: Vec<Vec<BlockHash>>,
    pub timestamp: u64,
    pub bits: u32,
    pub blue_work: u128,
    pub block_level: u8,
}

impl Header {
    /// The parents the header declares at `level`; levels beyond the ones it
    /// carries are empty.
    pub open spec fn spec_parents_at_level(&self, level: int) -> Seq<BlockHash> {
        if 0 <= level < self.parents_by_level@.len() {
            self.parents_by_level@[level]@
        } else {
            Seq::empty()
        }
    }

    /// The level-0 parents; empty exactly for genesis.
    pub open spec fn spec_direct_parents(&self) -> Seq<BlockHash> {
        self.spec_parents_at_level(0)
    }

    /// Copies out the parents the header declares at `level`.
    pub fn parents_at_level(&self, level: u8) -> (r: Vec<BlockHash>)
        ensures
            r@ == self.spec_parents_at_level(level as int),
    {
        let lv = level as usize;
        if lv < self.parents_by_level.len() {
            copy_hashes(&self.parents_by_level[lv])
        } else {
            Vec::new()
        }
    }

    /// Copies out the direct (level-0) parents.
    pub fn direct_parents(&self) -> (r: Vec<BlockHash>)
        ensures
            r@ == self.spec_direct_parents(),
    {
        self.parents_at_level(0)
    }
}

/// Copies a list of hashes.
pub fn copy_hashes(v: &Vec<BlockHash>) -> (r: Vec<BlockHash>)
    ensures
        r@ == v@,
{
    let mut r: Vec<BlockHash> = Vec::new();
    let n = v.len();
    for i in 0..n
        invariant
            n == v@.len(),
            r@ == v@.subrange(0, i as int),
    {
        r.push(v[i]);
        proof {
            assert(r@ =~= v@.subrange(0, i + 1));
        }
    }
    proof {
        assert(r@ =~= v@);
    }
    r
}

/// Whether a list of hashes contains `x`.
pub fn hashes_contain(v: &Vec<BlockHash>, x: BlockHash) -> (r: bool)
    ensures
        r == v@.contains(x),
{
    let n = v.len();
    for i in 0..n
        invariant
            n == v@.len(),
            forall|j: int| 0 <= j < i ==> v@[j] != x,
    {
        if v[i] == x {
            return true;
        }
    }
    false
}

/// Whether the hashes in `v` are pairwise distinct.
pub fn hashes_distinct(v: &Vec<BlockHash>) -> (r: bool)
    ensures
        r == v@.no_duplicates(),
{
    let n = v.len();
    for i in 0..n
        invariant
            n == v@.len(),
            forall|p: int, q: int| 0 <= p < q < i ==> v@[p] != v@[q],
    {
        let x = v[i];
        for j in 0..i
            invariant
                n == v@.len(),
                i < n,
                x == v@[i as int],
                forall|p: int, q: int| 0 <= p < q < i ==> v@[p] != v@[q],
                forall|p: int| 0 <= p < j ==> v@[p] != x,
        {
            if v[j] == x {
                return false;
            }
        }
    }
    true
}

/// Copies a header field by field.
pub fn clone_header(h: &Header) -> (r: Header)
    ensures
        r.hash == h.hash,
        r.timestamp == h.timestamp,
        r.bits == h.bits,
        r.blue_work == h.blue_work,
        r.block_level == h.block_level,
        r.parents_by_level@.len() == h.parents_by_level@.len(),
        forall|i: int|
            0 <= i < h.parents_by_level@.len() ==> (#[trigger] r.parents_by_level@[i])@
                == h.parents_by_level@[i]@,
        r.spec_direct_parents() == h.spec_direct_parents(),
{
    let mut pbl: Vec<Vec<BlockHash>> = Vec::new();
    let n = h.parents_by_level.len();
    for i in 0..n
        invariant
            n == h.parents_by_level@.len(),
            pbl@.len() == i,
            forall|j: int|
                0 <= j < i ==> (#[trigger] pbl@[j])@ == h.parents_by_level@[j]@,
    {
        pbl.push(copy_hashes(&h.parents_by_level[i]));
    }
    let r = Header {
        hash: h.hash,
        parents_by_level: pbl,
        timestamp: h.timestamp,
        bits: h.bits,
        blue_work: h.blue_work,
        block_level: h.block_level,
    };
    proof {
        if h.parents_by_level@.len() > 0 {
            assert(r.parents_by_level@[0]@ == h.parents_by_level@[0]@);
        }
    }
    r
}

/// Two duplicate-free lists with no common member concatenate to a
/// duplicate-free list.
pub proof fn lemma_disjoint_concat_distinct(a: Seq<BlockHash>, b: Seq<BlockHash>)
    requires
        a.no_duplicates(),
        b.no_duplicates(),
        forall|x: BlockHash| !(a.contains(x) && b.contains(x)),
    ensures
        (a + b).no_duplicates(),
{
    assert forall|i: int, j: int| 0 <= i < j < (a + b).len() implies (a + b)[i] != (a + b)[j] by {
        let al = a.len() as int;
        if i < al && j < al {
            assert((a + b)[i] == a[i] && (a + b)[j] == a[j]);
        } else if i < al && j >= al {
            assert((a + b)[i] == a[i] && (a + b)[j] == b[j - al]);
            if a[i] == b[j - al] {
                assert(a.contains(a[i]) && b.contains(a[i]));
            }
        } else {
            assert((a + b)[i] == b[i - al] && (a + b)[j] == b[j - al]);
        }
    }
}

} // verus!
