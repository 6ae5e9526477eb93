//! Per-level parent/child adjacency.
//!
//! Each DAG level has one relations store. A hash is inserted together with
//! its parent list; children are materialized as a reverse index. Insertion
//! order respects the DAG: every parent is inserted before its children,
//! which makes the entry sequence a topological order.

use vstd::prelude::*;
use crate::hashes::BlockHash;
use crate::header::copy_hashes;
use crate::keymap::{appears_before, has_key, KeyMap};
use crate::errors::StoreError;

verus! {

/// `x` lies in the past of the entry at position `i` of the relations
/// sequence `s`: it is a parent, or in the past of a parent.
pub open spec fn seq_in_past(
    s: Seq<(BlockHash, Vec<BlockHash>)>,
    x: BlockHash,
    i: int,
) -> bool
    decreases i,
{
    0 <= i < s.len() && exists|pj: int|
        #![trigger s[i].1@[pj]]
        0 <= pj < s[i].1@.len() && {
            let p = s[i].1@[pj];
            ||| p == x
            ||| exists|j: int| #![trigger s[j].0] 0 <= j < i && s[j].0 == p && seq_in_past(s, x, j)
        }
}

/// `x` lies in the recorded past of `b`.
pub open spec fn spec_in_past(
    s: Seq<(BlockHash, Vec<BlockHash>)>,
    x: BlockHash,
    b: BlockHash,
) -> bool {
    exists|i: int| 0 <= i < s.len() && s[i].0 == b && seq_in_past(s, x, i)
}

/// Every parent named at position `i` appears as a key earlier in the
/// sequence: the entry order is a topological order of the DAG.
pub open spec fn topologically_ordered(s: Seq<(BlockHash, Vec<BlockHash>)>) -> bool {
    forall|i: int, pj: int|
        #![trigger s[i].1@[pj]]
        0 <= i < s.len() && 0 <= pj < s[i].1@.len() ==> appears_before(s, s[i].1@[pj], i)
}

/// One level's relations: hash -> parents, with the reverse index.
pub struct RelationsStore {
    pub parents: KeyMap<Vec<BlockHash>>,
    pub children: KeyMap<Vec<BlockHash>>,
}

impl RelationsStore {
    pub open spec fn spec_has(&self, h: BlockHash) -> bool {
        self.parents@.contains_key(h)
    }

    /// Well-formedness: both maps share a domain, every recorded parent was
    /// inserted before its child, parent lists are duplicate-free, and the
    /// children index mirrors the parent lists exactly.
    pub open spec fn wf(&self) -> bool {
        &&& self.parents.wf()
        &&& self.children.wf()
        &&& self.children@.dom() == self.parents@.dom()
        &&& topologically_ordered(self.parents.seq())
        &&& forall|i: int|
            0 <= i < self.parents.seq().len() ==> (#[trigger] self.parents.seq()[i].1)@
                .no_duplicates()
        &&& forall|c: BlockHash, pj: int|
            #[trigger] self.parents@.contains_key(c) && 0 <= pj < self.parents@[c]@.len()
                ==> self.children@.contains_key(#[trigger] self.parents@[c]@[pj])
                    && self.children@[self.parents@[c]@[pj]]@.contains(c)
        &&& forall|p: BlockHash, k: int|
            #[trigger] self.children@.contains_key(p) && 0 <= k < self.children@[p]@.len()
                ==> self.parents@.contains_key(#[trigger] self.children@[p]@[k])
                    && self.parents@[self.children@[p]@[k]]@.contains(p)
    }

    pub fn new() -> (r: Self)
        ensures
            r.wf(),
            r.parents@ == Map::<BlockHash, Vec<BlockHash>>::empty(),
            r.children@ == Map::<BlockHash, Vec<BlockHash>>::empty(),
    {
        let r = RelationsStore { parents: KeyMap::new(), children: KeyMap::new() };
        proof {
            assert(r.children@.dom() =~= r.parents@.dom());
        }
        r
    }

    pub fn has(&self, h: BlockHash) -> (r: bool)
        requires
            self.wf(),
        ensures
            r == self.spec_has(h),
    {
        self.parents.contains_key(h)
    }

    /// The parent list of `h`.
    pub fn get_parents(&self, h: BlockHash) -> (r: Result<Vec<BlockHash>, StoreError>)
        requires
            self.wf(),
        ensures
            match r {
                Ok(v) => self.spec_has(h) && v@ == self.parents@[h]@,
                Err(e) => !self.spec_has(h) && e == StoreError::KeyNotFound,
            },
    {
        match self.parents.get(h) {
            Some(v) => Ok(copy_hashes(v)),
            None => Err(StoreError::KeyNotFound),
        }
    }

    /// The materialized children of `h`.
    pub fn get_children(&self, h: BlockHash) -> (r: Result<Vec<BlockHash>, StoreError>)
        requires
            self.wf(),
        ensures
            match r {
                Ok(v) => self.spec_has(h) && v@ == self.children@[h]@,
                Err(e) => !self.spec_has(h) && e == StoreError::KeyNotFound,
            },
    {
        match self.children.get(h) {
            Some(v) => Ok(copy_hashes(v)),
            None => Err(StoreError::KeyNotFound),
        }
    }

    /// Number of recorded hashes and of child edges' buckets.
    pub fn counts(&self) -> (r: (usize, usize))
        requires
            self.wf(),
        ensures
            r.0 == self.parents@.dom().len(),
            r.1 == self.children@.dom().len(),
    {
        (self.parents.len(), self.children.len())
    }

    /// Records `h` with its parents; every parent must already be present.
    pub fn insert(&mut self, h: BlockHash, parents_list: Vec<BlockHash>)
        requires
            old(self).wf(),
            !old(self).spec_has(h),
            forall|i: int|
                0 <= i < parents_list@.len() ==> old(self).spec_has(#[trigger] parents_list@[i]),
            parents_list@.no_duplicates(),
        ensures
            final(self).wf(),
            final(self).parents@ == old(self).parents@.insert(h, parents_list),
            final(self).parents.seq() == old(self).parents.seq().push((h, parents_list)),
            final(self).children@.dom() == old(self).children@.dom().insert(h),
            final(self).children@[h]@ == Seq::<BlockHash>::empty(),
            forall|p: BlockHash|
                #[trigger] old(self).children@.contains_key(p) ==> final(self).children@[p]@
                    == if parents_list@.contains(p) {
                    old(self).children@[p]@.push(h)
                } else {
                    old(self).children@[p]@
                },
    {
        let ghost ps = parents_list@;
        let ghost ipair: (BlockHash, Vec<BlockHash>) = (h, parents_list);
        let plist = copy_hashes(&parents_list);
        proof {
            old(self).parents.lemma_seq_view();
        }
        self.parents.insert(h, parents_list);
        self.children.insert(h, Vec::new());
        let ghost mid_children = self.children@;
        let n = plist.len();
        for i in 0..n
            invariant
                n == ps.len(),
                plist@ == ps,
                ps.no_duplicates(),
                forall|j: int| 0 <= j < n ==> old(self).children@.contains_key(#[trigger] ps[j]),
                !old(self).children@.contains_key(h),
                self.parents.wf(),
                ipair == (h, parents_list),
                self.parents.seq() == old(self).parents.seq().push(ipair),
                self.parents@ == old(self).parents@.insert(h, ipair.1),
                self.children.wf(),
                self.children@.dom() == old(self).children@.dom().insert(h),
                self.children@[h]@ == Seq::<BlockHash>::empty(),
                forall|p: BlockHash|
                    #[trigger] old(self).children@.contains_key(p) ==> self.children@[p]@
                        == if ps.subrange(0, i as int).contains(p) {
                        old(self).children@[p]@.push(h)
                    } else {
                        old(self).children@[p]@
                    },
        {
            let p = plist[i];
            proof {
                assert(!ps.subrange(0, i as int).contains(p)) by {
                    if ps.subrange(0, i as int).contains(p) {
                        let j = choose|j: int|
                            0 <= j < i && ps.subrange(0, i as int)[j] == p;
                        assert(ps[j] == ps[i as int]);
                    }
                }
            }
            let cur = self.children.get(p).unwrap();
            let mut c2 = copy_hashes(cur);
            c2.push(h);
            self.children.insert(p, c2);
            proof {
                assert forall|q: BlockHash| #[trigger]
                    old(self).children@.contains_key(q) implies self.children@[q]@
                    == if ps.subrange(0, i + 1).contains(q) {
                    old(self).children@[q]@.push(h)
                } else {
                    old(self).children@[q]@
                } by {
                    if q == p {
                        assert(ps.subrange(0, i + 1)[i as int] == p);
                    } else {
                        let s1 = ps.subrange(0, i + 1);
                        let s0 = ps.subrange(0, i as int);
                        assert(s1.contains(q) == s0.contains(q)) by {
                            if s1.contains(q) && q != p {
                                let j = choose|j: int| 0 <= j < i + 1 && s1[j] == q;
                                assert(j < i);
                                assert(s0[j] == q);
                            }
                            if s0.contains(q) {
                                let j = choose|j: int| 0 <= j < i && s0[j] == q;
                                assert(s1[j] == q);
                            }
                        }
                    }
                }
            }
        }
        proof {
            assert(ps.subrange(0, n as int) =~= ps);
            lemma_insert_wf(old(self), self, h, ps);
        }
    }
}

/// Re-establishes `wf` after an insertion.
proof fn lemma_insert_wf(
    prev: &RelationsStore,
    cur: &RelationsStore,
    h: BlockHash,
    ps: Seq<BlockHash>,
)
    requires
        prev.wf(),
        !prev.spec_has(h),
        forall|i: int| 0 <= i < ps.len() ==> prev.spec_has(#[trigger] ps[i]),
        ps.no_duplicates(),
        cur.parents.wf(),
        cur.parents.seq().len() == prev.parents.seq().len() + 1,
        cur.parents.seq() == prev.parents.seq().push(cur.parents.seq().last()),
        cur.parents.seq().last().0 == h,
        cur.parents.seq().last().1@ == ps,
        cur.parents@ == prev.parents@.insert(h, cur.parents.seq().last().1),
        cur.children.wf(),
        cur.children@.dom() == prev.children@.dom().insert(h),
        cur.children@[h]@ == Seq::<BlockHash>::empty(),
        forall|p: BlockHash|
            #[trigger] prev.children@.contains_key(p) ==> cur.children@[p]@ == if ps.contains(p) {
                prev.children@[p]@.push(h)
            } else {
                prev.children@[p]@
            },
    ensures
        cur.wf(),
{
    prev.parents.lemma_seq_view();
    cur.parents.lemma_seq_view();
    let s0 = prev.parents.seq();
    let s1 = cur.parents.seq();
    assert(cur.children@.dom() =~= cur.parents@.dom());
    assert forall|i: int, pj: int|
        #![trigger s1[i].1@[pj]]
        0 <= i < s1.len() && 0 <= pj < s1[i].1@.len() implies appears_before(
        s1,
        s1[i].1@[pj],
        i,
    ) by {
        if i < s0.len() {
            assert(s0[i] == s1[i]);
            assert(s0[i].1@[pj] == s1[i].1@[pj]);
            assert(appears_before(s0, s0[i].1@[pj], i));
            let j = choose|j: int| #![trigger s0[j].0] 0 <= j < i && s0[j].0 == s0[i].1@[pj];
            assert(s1[j].0 == s1[i].1@[pj]);
        } else {
            let p = ps[pj];
            assert(prev.parents@.contains_key(p));
            assert(has_key(s0, p));
            let j = choose|j: int| 0 <= j < s0.len() && s0[j].0 == p;
            assert(s1[j].0 == s1[i].1@[pj]);
        }
    }
    assert(cur.children@.dom() =~= cur.parents@.dom());
    assert forall|i: int| 0 <= i < s1.len() implies (#[trigger] s1[i].1)@.no_duplicates() by {
        if i < s0.len() {
            assert(s1[i].1 == s0[i].1);
            assert((s0[i].1)@.no_duplicates());
        } else {
            assert(s1[i].1@ == ps);
        }
    }
    assert forall|c: BlockHash, pj: int|
        #[trigger] cur.parents@.contains_key(c) && 0 <= pj < cur.parents@[c]@.len() implies
        cur.children@.contains_key(#[trigger] cur.parents@[c]@[pj])
            && cur.children@[cur.parents@[c]@[pj]]@.contains(c) by {
        if c == h {
            let p = ps[pj];
            assert(prev.children@.contains_key(p));
            assert(cur.children@[p]@ == prev.children@[p]@.push(h));
            assert(cur.children@[p]@.last() == h);
        } else {
            let p = prev.parents@[c]@[pj];
            assert(prev.children@.contains_key(p));
            assert(prev.children@[p]@.contains(c));
            let k = choose|k: int| 0 <= k < prev.children@[p]@.len() && prev.children@[p]@[k] == c;
            assert(cur.children@[p]@[k] == c);
        }
    }
    assert forall|p: BlockHash, k: int|
        #[trigger] cur.children@.contains_key(p) && 0 <= k < cur.children@[p]@.len() implies
        cur.parents@.contains_key(#[trigger] cur.children@[p]@[k])
            && cur.parents@[cur.children@[p]@[k]]@.contains(p) by {
        if p == h {
            assert(cur.children@[p]@.len() == 0);
        } else {
            assert(prev.children@.contains_key(p));
            if ps.contains(p) {
                if k < prev.children@[p]@.len() {
                    let c = prev.children@[p]@[k];
                    assert(prev.parents@.contains_key(c));
                    assert(c != h);
                    assert(cur.parents@[c]@.contains(p));
                } else {
                    assert(cur.children@[p]@[k] == h);
                    assert(cur.parents@[h]@ == ps);
                }
            } else {
                assert(cur.children@[p]@ == prev.children@[p]@);
                let c = prev.children@[p]@[k];
                assert(prev.parents@.contains_key(c));
                assert(c != h);
                assert(cur.parents@[c]@.contains(p));
            }
        }
    }
    assert(topologically_ordered(s1));
}

/// Every parent recorded for `c` is itself a key of the store.
pub proof fn lemma_parents_present(st: &RelationsStore, c: BlockHash)
    requires
        st.wf(),
        st.spec_has(c),
    ensures
        forall|pj: int|
            0 <= pj < st.parents@[c]@.len() ==> st.spec_has(#[trigger] st.parents@[c]@[pj]),
{
    st.parents.lemma_seq_view();
    let s = st.parents.seq();
    assert(has_key(s, c));
    crate::keymap::lemma_key_index(s, c);
    let i = crate::keymap::key_index(s, c);
    assert(st.parents@[c] == s[i].1);
    assert forall|pj: int|
        0 <= pj < st.parents@[c]@.len() implies st.spec_has(#[trigger] st.parents@[c]@[pj]) by {
        assert(s[i].1@[pj] == st.parents@[c]@[pj]);
        assert(appears_before(s, s[i].1@[pj], i));
        let j = choose|j: int| #![trigger s[j].0] 0 <= j < i && s[j].0 == s[i].1@[pj];
        assert(has_key(s, st.parents@[c]@[pj]));
    }
}

/// A view of one level out of the per-level relations stores.
pub struct MTRelationsService {
    pub stores: Vec<RelationsStore>,
    pub level: usize,
}

impl MTRelationsService {
    pub open spec fn wf(&self) -> bool {
        &&& self.level < self.stores@.len()
        &&& forall|i: int| 0 <= i < self.stores@.len() ==> (#[trigger] self.stores@[i]).wf()
    }

    pub fn new(stores: Vec<RelationsStore>, level: u8) -> (r: Self)
        requires
            (level as int) < stores@.len(),
            forall|i: int| 0 <= i < stores@.len() ==> (#[trigger] stores@[i]).wf(),
        ensures
            r.wf(),
            r.stores@ == stores@,
            r.level == level as int,
    {
        MTRelationsService { stores, level: level as usize }
    }

    pub fn get_parents(&self, h: BlockHash) -> (r: Result<Vec<BlockHash>, StoreError>)
        requires
            self.wf(),
        ensures
            match r {
                Ok(v) => self.stores@[self.level as int].spec_has(h) && v@
                    == self.stores@[self.level as int].parents@[h]@,
                Err(e) => !self.stores@[self.level as int].spec_has(h) && e
                    == StoreError::KeyNotFound,
            },
    {
        self.stores[self.level].get_parents(h)
    }

    pub fn get_children(&self, h: BlockHash) -> (r: Result<Vec<BlockHash>, StoreError>)
        requires
            self.wf(),
        ensures
            match r {
                Ok(v) => self.stores@[self.level as int].spec_has(h) && v@
                    == self.stores@[self.level as int].children@[h]@,
                Err(e) => !self.stores@[self.level as int].spec_has(h) && e
                    == StoreError::KeyNotFound,
            },
    {
        self.stores[self.level].get_children(h)
    }

    pub fn has(&self, h: BlockHash) -> (r: bool)
        requires
            self.wf(),
        ensures
            r == self.stores@[self.level as int].spec_has(h),
    {
        self.stores[self.level].has(h)
    }

    pub fn counts(&self) -> (r: (usize, usize))
        requires
            self.wf(),
        ensures
            r.0 == self.stores@[self.level as int].parents@.dom().len(),
            r.1 == self.stores@[self.level as int].children@.dom().len(),
    {
        self.stores[self.level].counts()
    }
}

} // verus!
