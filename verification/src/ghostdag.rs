//! The GHOSTDAG engine and its per-level store.
//!
//! For a new header the engine picks the selected parent (maximum blue
//! work, hash as tiebreaker), computes the mergeset (the new block's past
//! outside the selected parent's past), orders it by descending blue work,
//! and colors each member blue or red under the k-cluster bound.

use vstd::prelude::*;
use vstd::multiset::Multiset;
use vstd::pervasive::VecAdditionalExecFns;
use crate::hashes::{spec_work_lt, work_lt, BlockHash, ORIGIN};
use crate::header::{copy_hashes, hashes_contain};
use crate::keymap::{appears_before, KeyMap};
use crate::pow::{spec_work_from_bits, work_from_bits};
use crate::reachability::{spec_dag_ancestor, ReachabilityStore};
use crate::relations::RelationsStore;

verus! {

/// The GHOSTDAG record of one block at one level; write-once.
pub struct GhostdagData {
    /// Number of blue blocks in the past, this block's blues included.
    pub blue_score: u64,
    /// Cumulative work of the blue past.
    pub blue_work: u128,
    pub selected_parent: BlockHash,
    /// The blue mergeset in order; the selected parent comes first.
    pub mergeset_blues: Vec<BlockHash>,
    /// The red mergeset in the order it was examined.
    pub mergeset_reds: Vec<BlockHash>,
    /// For each new blue, the size of its anticone within the blue set.
    pub blues_anticone_sizes: Vec<(BlockHash, u16)>,
}

/// Copies a GHOSTDAG record field by field.
pub fn clone_ghostdag_data(d: &GhostdagData) -> (r: GhostdagData)
    ensures
        r.blue_score == d.blue_score,
        r.blue_work == d.blue_work,
        r.selected_parent == d.selected_parent,
        r.mergeset_blues@ == d.mergeset_blues@,
        r.mergeset_reds@ == d.mergeset_reds@,
        r.blues_anticone_sizes@ == d.blues_anticone_sizes@,
{
    let mut sizes: Vec<(BlockHash, u16)> = Vec::new();
    let n = d.blues_anticone_sizes.len();
    for i in 0..n
        invariant
            n == d.blues_anticone_sizes@.len(),
            sizes@ == d.blues_anticone_sizes@.subrange(0, i as int),
    {
        sizes.push(d.blues_anticone_sizes[i]);
        proof {
            assert(sizes@ =~= d.blues_anticone_sizes@.subrange(0, i + 1));
        }
    }
    proof {
        assert(sizes@ =~= d.blues_anticone_sizes@);
    }
    GhostdagData {
        blue_score: d.blue_score,
        blue_work: d.blue_work,
        selected_parent: d.selected_parent,
        mergeset_blues: copy_hashes(&d.mergeset_blues),
        mergeset_reds: copy_hashes(&d.mergeset_reds),
        blues_anticone_sizes: sizes,
    }
}

/// Hash -> GHOSTDAG record at one level; append-only, and every selected
/// parent was recorded before its children (or is `ORIGIN`).
pub struct GhostdagStore {
    pub map: KeyMap<GhostdagData>,
}

impl GhostdagStore {
    pub open spec fn wf(&self) -> bool {
        &&& self.map.wf()
        &&& !self.map@.contains_key(ORIGIN)
        &&& forall|i: int|
            0 <= i < self.map.seq().len() ==> (#[trigger] self.map.seq()[i]).1.selected_parent
                == ORIGIN || appears_before(
                self.map.seq(),
                self.map.seq()[i].1.selected_parent,
                i,
            )
    }

    pub open spec fn spec_has(&self, h: BlockHash) -> bool {
        self.map@.contains_key(h)
    }

    pub fn new() -> (r: Self)
        ensures
            r.wf(),
            r.map@ == Map::<BlockHash, GhostdagData>::empty(),
    {
        GhostdagStore { map: KeyMap::new() }
    }

    pub fn has(&self, h: BlockHash) -> (r: bool)
        requires
            self.wf(),
        ensures
            r == self.spec_has(h),
    {
        self.map.contains_key(h)
    }

    pub fn get(&self, h: BlockHash) -> (r: Option<&GhostdagData>)
        requires
            self.wf(),
        ensures
            match r {
                Some(d) => self.spec_has(h) && *d == self.map@[h],
                None => !self.spec_has(h),
            },
    {
        self.map.get(h)
    }

    /// Write-once insertion; the record's selected parent must already be
    /// present (or be `ORIGIN`).
    pub fn insert(&mut self, h: BlockHash, data: GhostdagData)
        requires
            old(self).wf(),
            !old(self).spec_has(h),
            h != ORIGIN,
            data.selected_parent == ORIGIN || old(self).spec_has(data.selected_parent),
        ensures
            final(self).wf(),
            final(self).map@ == old(self).map@.insert(h, data),
    {
        proof {
            old(self).map.lemma_seq_view();
        }
        self.map.insert(h, data);
        proof {
            let s0 = old(self).map.seq();
            let s1 = self.map.seq();
            assert forall|i: int|
                0 <= i < s1.len() implies (#[trigger] s1[i]).1.selected_parent == ORIGIN
                || appears_before(s1, s1[i].1.selected_parent, i) by {
                if i < s0.len() {
                    assert(s1[i] == s0[i]);
                    if s0[i].1.selected_parent != ORIGIN {
                        assert(appears_before(s0, s0[i].1.selected_parent, i));
                        let j = choose|j: int|
                            #![trigger s0[j].0]
                            0 <= j < i && s0[j].0 == s0[i].1.selected_parent;
                        assert(s1[j].0 == s1[i].1.selected_parent);
                    }
                } else {
                    if data.selected_parent != ORIGIN {
                        let j = choose|j: int|
                            #![trigger s0[j].0]
                            0 <= j < s0.len() && s0[j].0 == data.selected_parent;
                        assert(s1[j].0 == s1[i].1.selected_parent);
                    }
                }
            }
        }
    }
}

/// `sp` is a parent of maximum blue work, ties broken by the larger hash.
pub open spec fn is_selected_parent(
    gd: Map<BlockHash, GhostdagData>,
    parents: Seq<BlockHash>,
    sp: BlockHash,
) -> bool {
    parents.contains(sp) && forall|i: int|
        0 <= i < parents.len() ==> parents[i] == sp || spec_work_lt(
            gd[#[trigger] parents[i]].blue_work,
            parents[i],
            gd[sp].blue_work,
            sp,
        )
}

/// Picks the parent with maximum `(blue_work, hash)`.
pub fn find_selected_parent(store: &GhostdagStore, parents: &Vec<BlockHash>) -> (r: BlockHash)
    requires
        store.wf(),
        parents@.len() >= 1,
        forall|i: int| 0 <= i < parents@.len() ==> store.spec_has(#[trigger] parents@[i]),
    ensures
        is_selected_parent(store.map@, parents@, r),
        store.spec_has(r),
{
    let mut best = parents[0];
    let mut best_work = store.get(parents[0]).unwrap().blue_work;
    let n = parents.len();
    proof {
        assert(parents@.contains(parents@[0]));
    }
    for i in 1..n
        invariant
            store.wf(),
            n == parents@.len(),
            forall|j: int| 0 <= j < n ==> store.spec_has(#[trigger] parents@[j]),
            parents@.contains(best),
            store.spec_has(best),
            best_work == store.map@[best].blue_work,
            forall|j: int|
                0 <= j < i ==> parents@[j] == best || spec_work_lt(
                    store.map@[#[trigger] parents@[j]].blue_work,
                    parents@[j],
                    best_work,
                    best,
                ),
    {
        let cand = parents[i];
        let cand_work = store.get(cand).unwrap().blue_work;
        if work_lt(best_work, best, cand_work, cand) {
            best = cand;
            best_work = cand_work;
            proof {
                assert(parents@.contains(parents@[i as int]));
            }
        }
    }
    best
}

/// `a` comes before `b` in mergeset order: more blue work first, smaller
/// hash on ties.
pub open spec fn gd_precedes(
    gd: Map<BlockHash, GhostdagData>,
    a: BlockHash,
    b: BlockHash,
) -> bool {
    gd[a].blue_work > gd[b].blue_work || (gd[a].blue_work == gd[b].blue_work && a < b)
}

/// Strictly ordered under `gd_precedes`.
pub open spec fn sorted_by_work(gd: Map<BlockHash, GhostdagData>, s: Seq<BlockHash>) -> bool {
    forall|i: int, j: int| 0 <= i < j < s.len() ==> gd_precedes(gd, #[trigger] s[i], #[trigger] s[j])
}

/// Sorts distinct blocks into mergeset order.
pub fn sort_by_blue_work(store: &GhostdagStore, v: Vec<BlockHash>) -> (r: Vec<BlockHash>)
    requires
        store.wf(),
        v@.no_duplicates(),
        forall|i: int| 0 <= i < v@.len() ==> store.spec_has(#[trigger] v@[i]),
    ensures
        r@.to_multiset() == v@.to_multiset(),
        r@.len() == v@.len(),
        r@.no_duplicates(),
        forall|x: BlockHash| r@.contains(x) <==> v@.contains(x),
        sorted_by_work(store.map@, r@),
{
    broadcast use vstd::seq_lib::group_to_multiset_ensures;
    broadcast use vstd::multiset::group_multiset_axioms;

    let ghost orig = v@;
    proof {
        orig.lemma_multiset_has_no_duplicates();
    }
    let mut rest = v;
    let mut out: Vec<BlockHash> = Vec::new();
    while rest.len() > 0
        invariant
            store.wf(),
            out@.to_multiset().add(rest@.to_multiset()) =~= orig.to_multiset(),
            out@.len() + rest@.len() == orig.len(),
            forall|x: BlockHash| orig.to_multiset().count(x) <= 1,
            forall|i: int| 0 <= i < rest@.len() ==> store.spec_has(#[trigger] rest@[i]),
            forall|i: int| 0 <= i < out@.len() ==> store.spec_has(#[trigger] out@[i]),
            sorted_by_work(store.map@, out@),
            forall|i: int, j: int|
                0 <= i < out@.len() && 0 <= j < rest@.len() ==> gd_precedes(
                    store.map@,
                    #[trigger] out@[i],
                    #[trigger] rest@[j],
                ),
        decreases rest@.len(),
    {
        proof {
            assert forall|x: BlockHash| rest@.to_multiset().count(x) <= 1 by {
                assert(out@.to_multiset().add(rest@.to_multiset()).count(x) == out@.to_multiset()
                    .count(x) + rest@.to_multiset().count(x));
            }
            rest@.lemma_multiset_has_no_duplicates_conv();
        }
        // Find the least remaining element under the order.
        let mut m: usize = 0;
        let n = rest.len();
        for j in 1..n
            invariant
                store.wf(),
                n == rest@.len(),
                n > 0,
                m < j || (j == 1 && m == 0),
                m < n,
                rest@.no_duplicates(),
                forall|i: int| 0 <= i < rest@.len() ==> store.spec_has(#[trigger] rest@[i]),
                forall|jj: int|
                    0 <= jj < j ==> jj == m || gd_precedes(
                        store.map@,
                        rest@[m as int],
                        #[trigger] rest@[jj],
                    ),
        {
            let a = rest[m];
            let b = rest[j];
            let aw = store.get(a).unwrap().blue_work;
            let bw = store.get(b).unwrap().blue_work;
            if bw > aw || (bw == aw && b < a) {
                proof {
                    assert(gd_precedes(store.map@, rest@[j as int], rest@[m as int]));
                }
                m = j;
            } else {
                proof {
                    assert(rest@[m as int] != rest@[j as int]);
                    assert(gd_precedes(store.map@, rest@[m as int], rest@[j as int]));
                }
            }
        }
        let ghost pre = rest@;
        let x = rest.remove(m);
        proof {
            broadcast use vstd::multiset::group_multiset_axioms;

            vstd::seq_lib::to_multiset_remove(pre, m as int);
            vstd::seq_lib::to_multiset_build(out@, x);
            pre.to_multiset_ensures();
            assert(pre.contains(pre[m as int]));
            assert(pre.to_multiset().count(x) <= 1);
            assert(x == pre[m as int]);
            assert(rest@ == pre.remove(m as int));
            assert(rest@.to_multiset() =~= pre.to_multiset().remove(x));
            assert(out@.push(x).to_multiset().add(rest@.to_multiset()) =~= orig.to_multiset())
                by {
                assert forall|y: BlockHash|
                    out@.push(x).to_multiset().add(rest@.to_multiset()).count(y) == orig
                        .to_multiset().count(y) by {
                    assert(out@.push(x).to_multiset().count(y) == out@.to_multiset().insert(
                        x,
                    ).count(y));
                    assert(pre.to_multiset().count(x) >= 1);
                }
            }
            // Indexing through the removal.
            assert forall|j: int| 0 <= j < rest@.len() implies gd_precedes(
                store.map@,
                x,
                #[trigger] rest@[j],
            ) by {
                if j < m {
                    assert(rest@[j] == pre[j]);
                } else {
                    assert(rest@[j] == pre[j + 1]);
                }
            }
            assert forall|i: int, j: int|
                0 <= i < out@.len() && 0 <= j < rest@.len() implies gd_precedes(
                store.map@,
                #[trigger] out@[i],
                #[trigger] rest@[j],
            ) by {
                if j < m {
                    assert(rest@[j] == pre[j]);
                } else {
                    assert(rest@[j] == pre[j + 1]);
                }
            }
            assert forall|i: int| 0 <= i < rest@.len() implies store.spec_has(
                #[trigger] rest@[i],
            ) by {
                if i < m {
                    assert(rest@[i] == pre[i]);
                } else {
                    assert(rest@[i] == pre[i + 1]);
                }
            }
        }
        out.push(x);
    }
    proof {
        assert(rest@.to_multiset() =~= Multiset::<BlockHash>::empty());
        assert(out@.to_multiset() =~= orig.to_multiset());
        out@.lemma_multiset_has_no_duplicates_conv();
        assert forall|x: BlockHash| out@.contains(x) <==> orig.contains(x) by {
            assert(out@.contains(x) <==> out@.to_multiset().count(x) > 0);
            assert(orig.contains(x) <==> orig.to_multiset().count(x) > 0);
        }
    }
    out
}


/// `x` is reachable backward from the non-selected parents within `n`
/// steps, never entering the selected parent's recorded past: the mergeset
/// membership relation.
pub open spec fn spec_anticone_step(
    rel: RelationsStore,
    reach: ReachabilityStore,
    sp: BlockHash,
    parents: Seq<BlockHash>,
    x: BlockHash,
    n: nat,
) -> bool
    decreases n,
{
    if n == 0 {
        parents.contains(x) && x != sp
    } else {
        spec_anticone_step(rel, reach, sp, parents, x, (n - 1) as nat) || (exists|y: BlockHash|
            #![trigger rel.parents@[y]@.contains(x)]
            spec_anticone_step(rel, reach, sp, parents, y, (n - 1) as nat) && rel.spec_has(y)
                && rel.parents@[y]@.contains(x)) && !spec_dag_ancestor(reach.nodes@, x, sp) && x
            != sp && x != ORIGIN
    }
}

/// `x` has a backward derivation from the parents avoiding the selected
/// parent's past: it belongs to the mergeset.
pub open spec fn has_derivation(
    rel: RelationsStore,
    reach: ReachabilityStore,
    sp: BlockHash,
    parents: Seq<BlockHash>,
    x: BlockHash,
) -> bool {
    exists|n: nat| spec_anticone_step(rel, reach, sp, parents, x, n)
}

/// Every recorded parent of `y` is already classified: in the mergeset, in
/// the selected parent's past, or the selected parent itself.
pub open spec fn expanded_ok(
    rel: RelationsStore,
    reach: ReachabilityStore,
    sp: BlockHash,
    mergeset: Seq<BlockHash>,
    y: BlockHash,
) -> bool {
    forall|pj: int|
        0 <= pj < rel.parents@[y]@.len() ==> mergeset.contains(#[trigger] rel.parents@[y]@[pj])
            || spec_dag_ancestor(reach.nodes@, rel.parents@[y]@[pj], sp) || rel.parents@[y]@[pj]
            == sp
}

/// Classification survives the mergeset growing.
proof fn lemma_expanded_monotone(
    rel: RelationsStore,
    reach: ReachabilityStore,
    sp: BlockHash,
    s0: Seq<BlockHash>,
    s1: Seq<BlockHash>,
    y: BlockHash,
)
    requires
        expanded_ok(rel, reach, sp, s0, y),
        forall|x: BlockHash| s0.contains(x) ==> s1.contains(x),
    ensures
        expanded_ok(rel, reach, sp, s1, y),
{
    assert forall|pj: int|
        0 <= pj < rel.parents@[y]@.len() implies s1.contains(#[trigger] rel.parents@[y]@[pj])
        || spec_dag_ancestor(reach.nodes@, rel.parents@[y]@[pj], sp) || rel.parents@[y]@[pj]
        == sp by {
        assert(s0.contains(rel.parents@[y]@[pj]) || spec_dag_ancestor(
            reach.nodes@,
            rel.parents@[y]@[pj],
            sp,
        ) || rel.parents@[y]@[pj] == sp);
    }
}

/// A closed, start-covering set contains the whole backward closure.
proof fn lemma_bfs_complete(
    rel: RelationsStore,
    reach: ReachabilityStore,
    sp: BlockHash,
    parents: Seq<BlockHash>,
    result: Seq<BlockHash>,
    x: BlockHash,
    n: nat,
)
    requires
        spec_anticone_step(rel, reach, sp, parents, x, n),
        forall|p: BlockHash| parents.contains(p) && p != sp ==> result.contains(p),
        forall|y: BlockHash|
            #[trigger] result.contains(y) ==> rel.spec_has(y) && expanded_ok(
                rel,
                reach,
                sp,
                result,
                y,
            ),
    ensures
        result.contains(x),
    decreases n,
{
    if n == 0 {
        assert(parents.contains(x) && x != sp);
    } else {
        if spec_anticone_step(rel, reach, sp, parents, x, (n - 1) as nat) {
            lemma_bfs_complete(rel, reach, sp, parents, result, x, (n - 1) as nat);
        } else {
            let y = choose|y: BlockHash|
                #![trigger rel.parents@[y]@.contains(x)]
                spec_anticone_step(rel, reach, sp, parents, y, (n - 1) as nat) && rel.spec_has(y)
                    && rel.parents@[y]@.contains(x);
            lemma_bfs_complete(rel, reach, sp, parents, result, y, (n - 1) as nat);
            assert(result.contains(y));
            assert(expanded_ok(rel, reach, sp, result, y));
            let pj = choose|pj: int| 0 <= pj < rel.parents@[y]@.len() && rel.parents@[y]@[pj] == x;
            assert(result.contains(rel.parents@[y]@[pj]) || spec_dag_ancestor(
                reach.nodes@,
                rel.parents@[y]@[pj],
                sp,
            ) || rel.parents@[y]@[pj] == sp);
        }
    }
}

/// Appending a fresh element on either side of a concatenation keeps it
/// duplicate-free.
proof fn lemma_concat_push_distinct(a: Seq<BlockHash>, b: Seq<BlockHash>, x: BlockHash)
    requires
        (a + b).no_duplicates(),
        !(a + b).contains(x),
    ensures
        (a.push(x) + b).no_duplicates(),
        (a + b.push(x)).no_duplicates(),
{
    let ab = a + b;
    let s1 = a.push(x) + b;
    assert forall|i: int, j: int| 0 <= i < j < s1.len() implies s1[i] != s1[j] by {
        let al = a.len() as int;
        if i < al && j < al {
            assert(s1[i] == ab[i] && s1[j] == ab[j]);
        } else if i < al && j == al {
            assert(s1[i] == ab[i] && s1[j] == x);
            assert(ab.contains(ab[i]));
        } else if i < al && j > al {
            assert(s1[i] == ab[i] && s1[j] == ab[j - 1]);
        } else if i == al {
            assert(s1[i] == x && s1[j] == ab[j - 1]);
            assert(ab.contains(ab[j - 1]));
        } else {
            assert(s1[i] == ab[i - 1] && s1[j] == ab[j - 1]);
        }
    }
    let s2 = a + b.push(x);
    assert forall|i: int, j: int| 0 <= i < j < s2.len() implies s2[i] != s2[j] by {
        let last = s2.len() - 1;
        if j < last {
            assert(s2[i] == ab[i] && s2[j] == ab[j]);
        } else {
            assert(s2[j] == x);
            if i < a.len() {
                assert(s2[i] == ab[i]);
            } else {
                assert(s2[i] == ab[i]);
            }
            assert(ab.contains(ab[i]));
        }
    }
}

/// A fresh element keeps a sequence duplicate-free.
pub proof fn lemma_push_distinct_export(s: Seq<BlockHash>, x: BlockHash)
    requires
        s.no_duplicates(),
        !s.contains(x),
    ensures
        s.push(x).no_duplicates(),
{
    lemma_push_distinct(s, x);
}

/// A fresh element keeps a sequence duplicate-free.
proof fn lemma_push_distinct(s: Seq<BlockHash>, x: BlockHash)
    requires
        s.no_duplicates(),
        !s.contains(x),
    ensures
        s.push(x).no_duplicates(),
{
    assert forall|i: int, j: int| 0 <= i < j < s.push(x).len() implies s.push(x)[i] != s.push(
        x,
    )[j] by {
        if j == s.len() as int {
            assert(s.push(x)[i] == s[i]);
            assert(s.contains(s[i]));
        }
    }
}

/// What a push does not contain.
proof fn lemma_push_not_contains(s: Seq<BlockHash>, x: BlockHash, y: BlockHash)
    requires
        !s.contains(y),
        y != x,
    ensures
        !s.push(x).contains(y),
{
    if s.push(x).contains(y) {
        let k = choose|k: int| 0 <= k < s.push(x).len() && s.push(x)[k] == y;
        if k < s.len() {
            assert(s[k] == y);
        }
    }
}

/// Pushing keeps previous members.
proof fn lemma_push_contains(s: Seq<BlockHash>, x: BlockHash, y: BlockHash)
    requires
        s.contains(y),
    ensures
        s.push(x).contains(y),
{
    let k = choose|k: int| 0 <= k < s.len() && s[k] == y;
    assert(s.push(x)[k] == y);
}

/// Bound on how many distinct hashes the traversal can visit.
proof fn lemma_visited_bound(dom: Set<BlockHash>, s: Seq<BlockHash>)
    requires
        dom.finite(),
        s.no_duplicates(),
        forall|i: int| 0 <= i < s.len() ==> dom.contains(#[trigger] s[i]),
    ensures
        s.len() <= dom.len(),
{
    s.unique_seq_to_set();
    assert(s.to_set().subset_of(dom));
    vstd::set_lib::lemma_len_subset(s.to_set(), dom);
}

/// The new block's mergeset, unordered: every block reachable backward from
/// the non-selected parents without entering the selected parent's past.
pub fn unordered_mergeset(
    rel: &RelationsStore,
    reach: &ReachabilityStore,
    sp: BlockHash,
    parents: &Vec<BlockHash>,
) -> (r: Vec<BlockHash>)
    requires
        rel.wf(),
        reach.wf(),
        reach.spec_has(sp),
        parents@.no_duplicates(),
        forall|i: int|
            0 <= i < parents@.len() ==> rel.spec_has(#[trigger] parents@[i]) && parents@[i]
                != ORIGIN,
        forall|h: BlockHash| #[trigger] rel.spec_has(h) ==> reach.spec_has(h),
    ensures
        r@.no_duplicates(),
        forall|i: int|
            0 <= i < r@.len() ==> rel.spec_has(#[trigger] r@[i]) && reach.spec_has(r@[i]) && r@[i]
                != sp && r@[i] != ORIGIN,
        forall|i: int|
            0 <= i < r@.len() ==> (parents@.contains(#[trigger] r@[i]) && r@[i] != sp)
                || !spec_dag_ancestor(reach.nodes@, r@[i], sp),
        forall|p: BlockHash| parents@.contains(p) && p != sp ==> r@.contains(p),
        forall|x: BlockHash, n: nat|
            spec_anticone_step(*rel, *reach, sp, parents@, x, n) ==> r@.contains(x),
        forall|x: BlockHash|
            #[trigger] r@.contains(x) ==> has_derivation(*rel, *reach, sp, parents@, x),
{
    let ghost dom = rel.parents@.dom();
    proof {
        rel.parents.lemma_len();
    }
    let mut mergeset: Vec<BlockHash> = Vec::new();
    let mut queue: Vec<BlockHash> = Vec::new();
    let mut past: Vec<BlockHash> = Vec::new();
    let n = parents.len();
    for i in 0..n
        invariant
            n == parents@.len(),
            parents@.no_duplicates(),
            forall|j: int|
                0 <= j < n ==> rel.spec_has(#[trigger] parents@[j]) && parents@[j] != ORIGIN,
            mergeset@.no_duplicates(),
            queue@ == mergeset@,
            forall|j: int|
                0 <= j < mergeset@.len() ==> parents@.contains(#[trigger] mergeset@[j])
                    && mergeset@[j] != sp && mergeset@[j] != ORIGIN,
            forall|jj: int| i <= jj < n ==> !mergeset@.contains(#[trigger] parents@[jj]),
            forall|j: int|
                0 <= j < i ==> parents@[j] == sp || mergeset@.contains(#[trigger] parents@[j]),
            forall|j: int|
                0 <= j < mergeset@.len() ==> spec_anticone_step(
                    *rel,
                    *reach,
                    sp,
                    parents@,
                    #[trigger] mergeset@[j],
                    0,
                ),
    {
        let p = parents[i];
        if p != sp {
            let ghost pre = mergeset@;
            proof {
                assert(!pre.contains(parents@[i as int]));
            }
            mergeset.push(p);
            queue.push(p);
            proof {
                lemma_push_distinct(pre, p);
                assert(parents@[i as int] == p);
                assert(parents@.contains(p));
                assert forall|j: int|
                    0 <= j < mergeset@.len() implies parents@.contains(#[trigger] mergeset@[j])
                    && mergeset@[j] != sp && mergeset@[j] != ORIGIN by {
                    if j < pre.len() {
                        assert(mergeset@[j] == pre[j]);
                    } else {
                        assert(mergeset@[j] == p);
                    }
                }
                assert forall|jj: int| i + 1 <= jj < n implies !mergeset@.contains(
                    #[trigger] parents@[jj],
                ) by {
                    lemma_push_not_contains(pre, p, parents@[jj]);
                }
                assert forall|j: int|
                    0 <= j < i + 1 implies parents@[j] == sp || mergeset@.contains(
                    #[trigger] parents@[j],
                ) by {
                    if j < i as int {
                        if parents@[j] != sp {
                            lemma_push_contains(pre, p, parents@[j]);
                        }
                    } else {
                        assert(mergeset@.last() == p);
                    }
                }
                assert forall|j: int|
                    0 <= j < mergeset@.len() implies spec_anticone_step(
                    *rel,
                    *reach,
                    sp,
                    parents@,
                    #[trigger] mergeset@[j],
                    0,
                ) by {
                    if j < pre.len() {
                        assert(mergeset@[j] == pre[j]);
                    } else {
                        assert(mergeset@[j] == p);
                        assert(parents@.contains(p));
                    }
                }
            }
        }
    }
    proof {
        assert(mergeset@ + past@ =~= mergeset@);
        assert forall|j: int|
            0 <= j < mergeset@.len() implies has_derivation(
            *rel,
            *reach,
            sp,
            parents@,
            #[trigger] mergeset@[j],
        ) by {
            assert(spec_anticone_step(*rel, *reach, sp, parents@, mergeset@[j], 0));
        }
    }
    while queue.len() > 0
        invariant
            rel.wf(),
            reach.wf(),
            reach.spec_has(sp),
            dom == rel.parents@.dom(),
            dom.finite(),
            forall|h: BlockHash| #[trigger] rel.spec_has(h) ==> reach.spec_has(h),
            (mergeset@ + past@).no_duplicates(),
            forall|j: int|
                0 <= j < mergeset@.len() ==> rel.spec_has(#[trigger] mergeset@[j]) && mergeset@[j]
                    != sp && mergeset@[j] != ORIGIN,
            forall|j: int|
                0 <= j < past@.len() ==> rel.spec_has(#[trigger] past@[j]) && spec_dag_ancestor(
                    reach.nodes@,
                    past@[j],
                    sp,
                ),
            forall|j: int|
                0 <= j < mergeset@.len() ==> (parents@.contains(#[trigger] mergeset@[j])
                    && mergeset@[j] != sp) || !spec_dag_ancestor(
                    reach.nodes@,
                    mergeset@[j],
                    sp,
                ),
            forall|j: int| 0 <= j < queue@.len() ==> mergeset@.contains(#[trigger] queue@[j]),
            queue@.no_duplicates(),
            forall|p: BlockHash| parents@.contains(p) && p != sp ==> mergeset@.contains(p),
            forall|y: BlockHash|
                mergeset@.contains(y) && !queue@.contains(y) ==> expanded_ok(
                    *rel,
                    *reach,
                    sp,
                    mergeset@,
                    y,
                ),
            forall|j: int|
                0 <= j < mergeset@.len() ==> has_derivation(
                    *rel,
                    *reach,
                    sp,
                    parents@,
                    #[trigger] mergeset@[j],
                ),
        decreases dom.len() - mergeset@.len() - past@.len(), queue@.len(),
    {
        proof {
            assert forall|i: int| 0 <= i < (mergeset@ + past@).len() implies dom.contains(
                #[trigger] (mergeset@ + past@)[i],
            ) by {
                if i < mergeset@.len() {
                    assert((mergeset@ + past@)[i] == mergeset@[i]);
                } else {
                    assert((mergeset@ + past@)[i] == past@[i - mergeset@.len()]);
                }
            }
            lemma_visited_bound(dom, mergeset@ + past@);
        }
        let ghost pre_visited: int = mergeset@.len() + past@.len() as int;
        let ghost pre_queue: int = queue@.len() as int;
        let ghost queue_before = queue@;
        let current = queue.pop().unwrap();
        proof {
            assert(queue_before.last() == current);
            assert(queue_before.contains(current));
            assert(mergeset@.contains(current));
            assert(!queue@.contains(current)) by {
                if queue@.contains(current) {
                    let k = choose|k: int| 0 <= k < queue@.len() && queue@[k] == current;
                    assert(queue_before[k] == queue_before[queue_before.len() - 1]);
                }
            }
            assert forall|y: BlockHash|
                mergeset@.contains(y) && !queue@.contains(y) && y != current implies expanded_ok(
                *rel,
                *reach,
                sp,
                mergeset@,
                y,
            ) by {
                assert(!queue_before.contains(y)) by {
                    if queue_before.contains(y) {
                        let k = choose|k: int|
                            0 <= k < queue_before.len() && queue_before[k] == y;
                        assert(k < queue_before.len() - 1 ==> queue@[k] == y);
                    }
                }
            }
        }
        let ps = rel.get_parents(current).unwrap();
        proof {
            crate::relations::lemma_parents_present(rel, current);
            let jidx = choose|jidx: int|
                0 <= jidx < mergeset@.len() && mergeset@[jidx] == current;
            assert(has_derivation(*rel, *reach, sp, parents@, current));
        }
        let pn = ps.len();
        for pi in 0..pn
            invariant
                rel.wf(),
                reach.wf(),
                reach.spec_has(sp),
                dom == rel.parents@.dom(),
                dom.finite(),
                forall|h: BlockHash| #[trigger] rel.spec_has(h) ==> reach.spec_has(h),
                pn == ps@.len(),
                ps@ == rel.parents@[current]@,
                mergeset@.contains(current),
                !queue@.contains(current),
                queue@.no_duplicates(),
                forall|pj: int|
                    0 <= pj < pi ==> mergeset@.contains(#[trigger] ps@[pj]) || spec_dag_ancestor(
                        reach.nodes@,
                        ps@[pj],
                        sp,
                    ) || ps@[pj] == sp,
                forall|y: BlockHash|
                    mergeset@.contains(y) && !queue@.contains(y) && y != current ==> expanded_ok(
                        *rel,
                        *reach,
                        sp,
                        mergeset@,
                        y,
                    ),
                has_derivation(*rel, *reach, sp, parents@, current),
                forall|j: int|
                    0 <= j < mergeset@.len() ==> has_derivation(
                        *rel,
                        *reach,
                        sp,
                        parents@,
                        #[trigger] mergeset@[j],
                    ),
                forall|j: int| 0 <= j < ps@.len() ==> rel.spec_has(#[trigger] ps@[j]),
                (mergeset@ + past@).no_duplicates(),
                forall|j: int|
                    0 <= j < mergeset@.len() ==> rel.spec_has(#[trigger] mergeset@[j])
                        && mergeset@[j] != sp && mergeset@[j] != ORIGIN,
                forall|j: int|
                    0 <= j < past@.len() ==> rel.spec_has(#[trigger] past@[j])
                        && spec_dag_ancestor(reach.nodes@, past@[j], sp),
                forall|j: int|
                    0 <= j < mergeset@.len() ==> (parents@.contains(#[trigger] mergeset@[j])
                        && mergeset@[j] != sp) || !spec_dag_ancestor(
                        reach.nodes@,
                        mergeset@[j],
                        sp,
                    ),
                forall|j: int| 0 <= j < queue@.len() ==> mergeset@.contains(#[trigger] queue@[j]),
                forall|p: BlockHash| parents@.contains(p) && p != sp ==> mergeset@.contains(p),
                mergeset@.len() + past@.len() >= pre_visited,
                queue@.len() >= pre_queue - 1,
                mergeset@.len() + past@.len() > pre_visited || queue@.len() == pre_queue - 1,
        {
            let p = ps[pi];
            let ghost pre_ms0 = mergeset@;
            let ghost pre_q0 = queue@;
            let in_mergeset = hashes_contain(&mergeset, p);
            let in_past = hashes_contain(&past, p);
            if !in_mergeset && !in_past {
                proof {
                    assert(!(mergeset@ + past@).contains(p)) by {
                        if (mergeset@ + past@).contains(p) {
                            let j = choose|j: int|
                                0 <= j < (mergeset@ + past@).len() && (mergeset@ + past@)[j] == p;
                            if j < mergeset@.len() {
                                assert(mergeset@[j] == p);
                            } else {
                                assert(past@[j - mergeset@.len()] == p);
                            }
                        }
                    }
                }
                if reach.is_dag_ancestor_of(p, sp) {
                    proof {
                        lemma_concat_push_distinct(mergeset@, past@, p);
                    }
                    past.push(p);
                    proof {
                        assert(past@.last() == p);
                    }
                } else {
                    if p != sp {
                        proof {
                            lemma_concat_push_distinct(mergeset@, past@, p);
                            assert(p != ORIGIN) by {
                                if p == ORIGIN {
                                    crate::reachability::lemma_origin_reaches(reach, sp);
                                }
                            }
                        }
                        let ghost pre_ms = mergeset@;
                        let ghost pre_q = queue@;
                        mergeset.push(p);
                        queue.push(p);
                        proof {
                            assert forall|j: int|
                                0 <= j < queue@.len() implies mergeset@.contains(
                                #[trigger] queue@[j],
                            ) by {
                                if j < pre_q.len() {
                                    assert(queue@[j] == pre_q[j]);
                                    lemma_push_contains(pre_ms, p, pre_q[j]);
                                } else {
                                    assert(mergeset@.last() == p);
                                }
                            }
                            assert forall|q: BlockHash|
                                parents@.contains(q) && q != sp implies mergeset@.contains(
                                q,
                            ) by {
                                lemma_push_contains(pre_ms, p, q);
                            }
                            assert(!pre_q0.contains(p));
                            lemma_push_distinct(pre_q0, p);
                            lemma_push_contains(pre_ms0, p, current);
                            assert(has_derivation(*rel, *reach, sp, parents@, current));
                            let nc = choose|nc: nat|
                                spec_anticone_step(*rel, *reach, sp, parents@, current, nc);
                            assert(spec_anticone_step(
                                *rel,
                                *reach,
                                sp,
                                parents@,
                                p,
                                (nc + 1) as nat,
                            )) by {
                                assert(rel.spec_has(current));
                                assert(rel.parents@[current]@.contains(p)) by {
                                    assert(ps@[pi as int] == p);
                                }
                            }
                            assert forall|j: int|
                                0 <= j < mergeset@.len() implies has_derivation(
                                *rel,
                                *reach,
                                sp,
                                parents@,
                                #[trigger] mergeset@[j],
                            ) by {
                                if j < pre_ms0.len() {
                                    assert(mergeset@[j] == pre_ms0[j]);
                                    assert(has_derivation(
                                        *rel,
                                        *reach,
                                        sp,
                                        parents@,
                                        pre_ms0[j],
                                    ));
                                } else {
                                    assert(mergeset@[j] == p);
                                    assert(spec_anticone_step(
                                        *rel,
                                        *reach,
                                        sp,
                                        parents@,
                                        mergeset@[j],
                                        (nc + 1) as nat,
                                    ));
                                }
                            }
                            assert forall|x: BlockHash|
                                pre_ms0.contains(x) implies mergeset@.contains(x) by {
                                lemma_push_contains(pre_ms0, p, x);
                            }
                            assert forall|pj: int|
                                0 <= pj < pi + 1 implies mergeset@.contains(#[trigger] ps@[pj])
                                || spec_dag_ancestor(reach.nodes@, ps@[pj], sp) || ps@[pj]
                                == sp by {
                                if pj < pi as int {
                                    if pre_ms0.contains(ps@[pj]) {
                                        lemma_push_contains(pre_ms0, p, ps@[pj]);
                                    }
                                } else {
                                    assert(mergeset@.last() == p);
                                }
                            }
                            assert forall|y: BlockHash|
                                mergeset@.contains(y) && !queue@.contains(y) && y
                                != current implies expanded_ok(
                                *rel,
                                *reach,
                                sp,
                                mergeset@,
                                y,
                            ) by {
                                assert(y != p) by {
                                    if y == p {
                                        assert(queue@.last() == p);
                                    }
                                }
                                assert(pre_ms0.contains(y)) by {
                                    let k = choose|k: int|
                                        0 <= k < mergeset@.len() && mergeset@[k] == y;
                                    assert(k < pre_ms0.len());
                                }
                                assert(!pre_q0.contains(y)) by {
                                    if pre_q0.contains(y) {
                                        let k = choose|k: int|
                                            0 <= k < pre_q0.len() && pre_q0[k] == y;
                                        assert(queue@[k] == y);
                                    }
                                }
                                lemma_expanded_monotone(*rel, *reach, sp, pre_ms0, mergeset@, y);
                            }
                            assert(!queue@.contains(current)) by {
                                if queue@.contains(current) {
                                    let k = choose|k: int|
                                        0 <= k < queue@.len() && queue@[k] == current;
                                    if k < pre_q0.len() {
                                        assert(pre_q0[k] == current);
                                    } else {
                                        assert(queue@[k] == p);
                                        assert(pre_ms0.contains(current));
                                    }
                                }
                            }
                        }
                    } else {
                        // The selected parent reaches itself, so this branch
                        // cannot run; the check keeps the reasoning local.
                        proof {
                            assert(spec_dag_ancestor(reach.nodes@, sp, sp));
                        }
                    }
                }
            }
        }
        proof {
            assert(expanded_ok(*rel, *reach, sp, mergeset@, current));
            assert forall|y: BlockHash|
                mergeset@.contains(y) && !queue@.contains(y) implies expanded_ok(
                *rel,
                *reach,
                sp,
                mergeset@,
                y,
            ) by {}
            assert forall|i: int| 0 <= i < (mergeset@ + past@).len() implies dom.contains(
                #[trigger] (mergeset@ + past@)[i],
            ) by {
                if i < mergeset@.len() {
                    assert((mergeset@ + past@)[i] == mergeset@[i]);
                } else {
                    assert((mergeset@ + past@)[i] == past@[i - mergeset@.len()]);
                }
            }
            lemma_visited_bound(dom, mergeset@ + past@);
        }
    }
    proof {
        assert forall|x: BlockHash, n: nat|
            spec_anticone_step(*rel, *reach, sp, parents@, x, n) implies mergeset@.contains(
            x,
        ) by {
            assert forall|y: BlockHash| #[trigger]
                mergeset@.contains(y) implies rel.spec_has(y) && expanded_ok(
                *rel,
                *reach,
                sp,
                mergeset@,
                y,
            ) by {
                assert(!queue@.contains(y));
            }
            lemma_bfs_complete(*rel, *reach, sp, parents@, mergeset@, x, n);
        }
        assert forall|j: int| 0 <= j < mergeset@.len() implies rel.spec_has(
            #[trigger] mergeset@[j],
        ) && reach.spec_has(mergeset@[j]) && mergeset@[j] != sp by {}
        assert(mergeset@.no_duplicates()) by {
            assert forall|i: int, j: int|
                0 <= i < j < mergeset@.len() implies mergeset@[i] != mergeset@[j] by {
                assert((mergeset@ + past@)[i] == mergeset@[i]);
                assert((mergeset@ + past@)[j] == mergeset@[j]);
            }
        }
    }
    mergeset
}

/// Saturating sum used for blue score.
pub open spec fn sat_add_u64(a: int, b: int) -> u64 {
    if a + b > u64::MAX {
        u64::MAX
    } else {
        (a + b) as u64
    }
}

/// Saturating sum used for blue work.
pub open spec fn sat_add_u128(a: int, b: int) -> u128 {
    if a + b > u128::MAX {
        u128::MAX
    } else {
        (a + b) as u128
    }
}

/// The cumulative work of the listed blocks, by their stored bits.
pub open spec fn spec_sum_work(
    headers: Map<BlockHash, crate::stores::StoredHeader>,
    s: Seq<BlockHash>,
) -> int
    decreases s.len(),
{
    if s.len() == 0 {
        0
    } else {
        spec_sum_work(headers, s.drop_last()) + spec_work_from_bits(
            headers[s.last()].header.bits,
        )
    }
}

proof fn lemma_sum_work_nonneg(headers: Map<BlockHash, crate::stores::StoredHeader>, s: Seq<BlockHash>)
    ensures
        spec_sum_work(headers, s) >= 0,
    decreases s.len(),
{
    if s.len() > 0 {
        lemma_sum_work_nonneg(headers, s.drop_last());
    }
}


/// First-match lookup in an association list of anticone sizes.
pub open spec fn spec_assoc_get(s: Seq<(BlockHash, u16)>, k: BlockHash) -> Option<u16>
    decreases s.len(),
{
    if s.len() == 0 {
        None
    } else if s.first().0 == k {
        Some(s.first().1)
    } else {
        spec_assoc_get(s.drop_first(), k)
    }
}

/// First-match update (or append) in an association list.
pub open spec fn spec_assoc_bump(s: Seq<(BlockHash, u16)>, k: BlockHash, v: u16) -> Seq<
    (BlockHash, u16),
>
    decreases s.len(),
{
    if s.len() == 0 {
        seq![(k, v)]
    } else if s.first().0 == k {
        seq![(k, v)] + s.drop_first()
    } else {
        seq![s.first()] + spec_assoc_bump(s.drop_first(), k, v)
    }
}

/// The freshest recorded blue-anticone size of `b` along the chain from
/// `cur`: zero when no record mentions it.
pub open spec fn spec_chain_size(store: GhostdagStore, b: BlockHash, cur: BlockHash) -> u16
    decreases (if store.spec_has(cur) {
        crate::keymap::key_index(store.map.seq(), cur) + 1
    } else {
        0
    }),
{
    if !store.spec_has(cur) {
        0
    } else {
        match spec_assoc_get(store.map@[cur].blues_anticone_sizes@, b) {
            Some(sz) => sz,
            None => {
                let next = store.map@[cur].selected_parent;
                if store.spec_has(next) && 0 <= crate::keymap::key_index(store.map.seq(), next)
                    && crate::keymap::key_index(store.map.seq(), next) < crate::keymap::key_index(
                    store.map.seq(),
                    cur,
                ) {
                    spec_chain_size(store, b, next)
                } else {
                    0
                }
            },
        }
    }
}

/// What `blue_anticone_size` computes: the pending record first, then the
/// chain from `walk_from`.
pub open spec fn spec_blue_anticone_size(
    store: GhostdagStore,
    sizes: Seq<(BlockHash, u16)>,
    walk_from: BlockHash,
    b: BlockHash,
) -> u16 {
    match spec_assoc_get(sizes, b) {
        Some(sz) => sz,
        None => spec_chain_size(store, b, walk_from),
    }
}

/// One sweep of the k-cluster check over a list of blues: counts the
/// listed blues in the candidate's anticone and records their sizes,
/// stopping as soon as the rule is violated. Returns (still blue, count,
/// collected sizes).
pub open spec fn spec_scan_blues(
    store: GhostdagStore,
    reach: ReachabilityStore,
    sizes: Seq<(BlockHash, u16)>,
    k: u16,
    walk_from: BlockHash,
    candidate: BlockHash,
    items: Seq<BlockHash>,
    count: int,
    collected: Seq<(BlockHash, u16)>,
) -> (bool, int, Seq<(BlockHash, u16)>)
    decreases items.len(),
{
    if items.len() == 0 {
        (true, count, collected)
    } else {
        let b = items.first();
        if spec_dag_ancestor(reach.nodes@, b, candidate) {
            spec_scan_blues(
                store,
                reach,
                sizes,
                k,
                walk_from,
                candidate,
                items.drop_first(),
                count,
                collected,
            )
        } else {
            let sz = spec_blue_anticone_size(store, sizes, walk_from, b);
            if count + 1 > k {
                (false, count + 1, collected)
            } else if sz >= k {
                (false, count + 1, collected)
            } else {
                spec_scan_blues(
                    store,
                    reach,
                    sizes,
                    k,
                    walk_from,
                    candidate,
                    items.drop_first(),
                    count + 1,
                    collected.push((b, sz)),
                )
            }
        }
    }
}

/// The chain phase of the k-cluster check: walk the selected-parent chain
/// from `cur`, sweeping each chain block's blues, until a chain block lies
/// in the candidate's past.
pub open spec fn spec_check_chain(
    store: GhostdagStore,
    reach: ReachabilityStore,
    sizes: Seq<(BlockHash, u16)>,
    k: u16,
    candidate: BlockHash,
    cur: BlockHash,
    count: int,
    collected: Seq<(BlockHash, u16)>,
) -> (bool, Seq<(BlockHash, u16)>)
    decreases (if store.spec_has(cur) {
        crate::keymap::key_index(store.map.seq(), cur) + 1
    } else {
        0
    }),
{
    if !store.spec_has(cur) {
        (true, collected)
    } else if spec_dag_ancestor(reach.nodes@, cur, candidate) {
        (true, collected)
    } else {
        let swept = spec_scan_blues(
            store,
            reach,
            sizes,
            k,
            cur,
            candidate,
            store.map@[cur].mergeset_blues@,
            count,
            collected,
        );
        if !swept.0 {
            (false, swept.2)
        } else {
            let next = store.map@[cur].selected_parent;
            if next == ORIGIN {
                (true, swept.2)
            } else if store.spec_has(next) && 0 <= crate::keymap::key_index(
                store.map.seq(),
                next,
            ) && crate::keymap::key_index(store.map.seq(), next) < crate::keymap::key_index(
                store.map.seq(),
                cur,
            ) {
                spec_check_chain(store, reach, sizes, k, candidate, next, swept.1, swept.2)
            } else {
                (true, swept.2)
            }
        }
    }
}

/// The full k-cluster decision for one candidate: the new blues first,
/// then the chain from the selected parent.
pub open spec fn spec_check_blue(
    store: GhostdagStore,
    reach: ReachabilityStore,
    k: u16,
    sp: BlockHash,
    blues: Seq<BlockHash>,
    sizes: Seq<(BlockHash, u16)>,
    candidate: BlockHash,
) -> (bool, Seq<(BlockHash, u16)>) {
    let swept = spec_scan_blues(
        store,
        reach,
        sizes,
        k,
        sp,
        candidate,
        blues,
        0,
        Seq::empty(),
    );
    if !swept.0 {
        (false, swept.2)
    } else {
        spec_check_chain(store, reach, sizes, k, candidate, sp, swept.1, swept.2)
    }
}

/// Refreshes the recorded sizes of the counted blues, one increment each.
pub open spec fn spec_bump_all(
    sizes: Seq<(BlockHash, u16)>,
    collected: Seq<(BlockHash, u16)>,
) -> Seq<(BlockHash, u16)>
    decreases collected.len(),
{
    if collected.len() == 0 {
        sizes
    } else {
        spec_bump_all(
            spec_assoc_bump(sizes, collected.first().0, (collected.first().1 + 1) as u16),
            collected.drop_first(),
        )
    }
}

/// The whole blue/red classification: examine the ordered mergeset one
/// candidate at a time, growing the blues, the reds, and the anticone-size
/// record. Returns (blues, reds, sizes).
pub open spec fn spec_color(
    store: GhostdagStore,
    reach: ReachabilityStore,
    k: u16,
    sp: BlockHash,
    rest: Seq<BlockHash>,
    blues: Seq<BlockHash>,
    reds: Seq<BlockHash>,
    sizes: Seq<(BlockHash, u16)>,
) -> (Seq<BlockHash>, Seq<BlockHash>, Seq<(BlockHash, u16)>)
    decreases rest.len(),
{
    if rest.len() == 0 {
        (blues, reds, sizes)
    } else {
        let c = rest.first();
        let decide = if blues.len() > k {
            (false, Seq::<(BlockHash, u16)>::empty())
        } else {
            spec_check_blue(store, reach, k, sp, blues, sizes, c)
        };
        if decide.0 {
            spec_color(
                store,
                reach,
                k,
                sp,
                rest.drop_first(),
                blues.push(c),
                reds,
                spec_bump_all(sizes, decide.1).push((c, decide.1.len() as u16)),
            )
        } else {
            spec_color(store, reach, k, sp, rest.drop_first(), blues, reds.push(c), sizes)
        }
    }
}

/// The selected parent as a value: the unique maximum under the blue-work
/// order (`lemma_selected_parent_unique` in the processor module).
pub open spec fn spec_selected_parent(
    gd: Map<BlockHash, GhostdagData>,
    parents: Seq<BlockHash>,
) -> BlockHash {
    choose|sp: BlockHash| is_selected_parent(gd, parents, sp)
}

/// The ordered mergeset as a value: the unique duplicate-free list, sorted
/// by the blue-work order, of exactly the blocks with a backward
/// derivation (`lemma_sorted_unique` shows uniqueness).
pub open spec fn spec_ordered_mergeset(
    rel: RelationsStore,
    reach: ReachabilityStore,
    store: GhostdagStore,
    sp: BlockHash,
    parents: Seq<BlockHash>,
) -> Seq<BlockHash> {
    choose|s: Seq<BlockHash>|
        s.no_duplicates() && sorted_by_work(store.map@, s) && (forall|x: BlockHash|
            #[trigger] s.contains(x) <==> has_derivation(rel, reach, sp, parents, x))
}

/// The classification the engine commits to, as a value.
pub open spec fn spec_colored(
    rel: RelationsStore,
    reach: ReachabilityStore,
    store: GhostdagStore,
    k: u16,
    sp: BlockHash,
    parents: Seq<BlockHash>,
) -> (Seq<BlockHash>, Seq<BlockHash>, Seq<(BlockHash, u16)>) {
    spec_color(
        store,
        reach,
        k,
        sp,
        spec_ordered_mergeset(rel, reach, store, sp, parents),
        seq![sp],
        Seq::empty(),
        seq![(sp, 0u16)],
    )
}

/// Looks up `k` in an association list of anticone sizes.
fn assoc_get(v: &Vec<(BlockHash, u16)>, k: BlockHash) -> (r: Option<u16>)
    ensures
        r == spec_assoc_get(v@, k),
        r is Some <==> crate::keymap::has_key(v@, k),
{
    let n = v.len();
    proof {
        assert(v@.skip(0) =~= v@);
    }
    for i in 0..n
        invariant
            n == v@.len(),
            forall|j: int| 0 <= j < i ==> v@[j].0 != k,
            spec_assoc_get(v@, k) == spec_assoc_get(v@.skip(i as int), k),
    {
        proof {
            assert(v@.skip(i as int).first() == v@[i as int]);
            assert(v@.skip(i as int).drop_first() =~= v@.skip(i + 1));
        }
        if v[i].0 == k {
            proof {
                assert(crate::keymap::has_key(v@, k));
            }
            return Some(v[i].1);
        }
    }
    proof {
        assert(v@.skip(n as int) =~= Seq::<(BlockHash, u16)>::empty());
        assert(!crate::keymap::has_key(v@, k));
    }
    None
}

/// The selected-parent chain steps strictly down the insertion order.
pub proof fn lemma_chain_step(store: &GhostdagStore, cur: BlockHash)
    requires
        store.wf(),
        store.spec_has(cur),
        store.map@[cur].selected_parent != ORIGIN,
    ensures
        store.spec_has(store.map@[cur].selected_parent),
        0 <= crate::keymap::key_index(store.map.seq(), store.map@[cur].selected_parent)
            < crate::keymap::key_index(store.map.seq(), cur) < store.map.seq().len(),
{
    store.map.lemma_seq_view();
    let s = store.map.seq();
    crate::keymap::lemma_key_index(s, cur);
    let i = crate::keymap::key_index(s, cur);
    assert(s[i].1 == store.map@[cur]);
    assert(appears_before(s, s[i].1.selected_parent, i));
    let j = choose|j: int| #![trigger s[j].0] 0 <= j < i && s[j].0 == s[i].1.selected_parent;
    assert(crate::keymap::has_key(s, store.map@[cur].selected_parent));
    crate::keymap::lemma_key_index(s, store.map@[cur].selected_parent);
}

/// The freshest recorded blue-anticone size of `b`: the pending record is
/// consulted first, then the selected-parent chain from `sp` down. A blue
/// with no record anywhere counts as zero.
fn blue_anticone_size(
    store: &GhostdagStore,
    new_sizes: &Vec<(BlockHash, u16)>,
    sp: BlockHash,
    b: BlockHash,
) -> (r: u16)
    requires
        store.wf(),
        sp == ORIGIN || store.spec_has(sp),
    ensures
        r == spec_blue_anticone_size(*store, new_sizes@, sp, b),
{
    match assoc_get(new_sizes, b) {
        Some(sz) => sz,
        None => {
            let mut cur = sp;
            proof {
                if cur != ORIGIN {
                    store.map.lemma_seq_view();
                    crate::keymap::lemma_key_index(store.map.seq(), cur);
                }
            }
            loop
                invariant
                    store.wf(),
                    cur == ORIGIN || (store.spec_has(cur) && 0 <= crate::keymap::key_index(
                        store.map.seq(),
                        cur,
                    ) < store.map.seq().len()),
                    spec_assoc_get(new_sizes@, b) is None,
                    spec_chain_size(*store, b, sp) == spec_chain_size(*store, b, cur),
                decreases (if cur != ORIGIN {
                    crate::keymap::key_index(store.map.seq(), cur) + 1
                } else {
                    0
                }),
            {
                if cur == ORIGIN {
                    proof {
                        assert(!store.spec_has(ORIGIN));
                    }
                    return 0;
                }
                let d = store.get(cur).unwrap();
                match assoc_get(&d.blues_anticone_sizes, b) {
                    Some(sz) => {
                        return sz;
                    },
                    None => {
                        proof {
                            if d.selected_parent != ORIGIN {
                                lemma_chain_step(store, cur);
                            } else {
                                assert(!store.spec_has(ORIGIN));
                            }
                        }
                        cur = d.selected_parent;
                    },
                }
            }
        },
    }
}

/// Checks the k-cluster rule for one candidate: walks the new blues and
/// then the selected-parent chain, counting blues in the candidate's
/// anticone. Returns whether the candidate is blue, together with each
/// counted blue and its current anticone size.
fn check_blue_candidate(
    store: &GhostdagStore,
    reach: &ReachabilityStore,
    k: u16,
    sp: BlockHash,
    blues: &Vec<BlockHash>,
    sizes: &Vec<(BlockHash, u16)>,
    candidate: BlockHash,
) -> (r: (bool, Vec<(BlockHash, u16)>))
    requires
        store.wf(),
        reach.wf(),
        reach.spec_has(candidate),
        sp != ORIGIN,
        store.spec_has(sp),
        forall|i: int| 0 <= i < blues@.len() ==> reach.spec_has(#[trigger] blues@[i]),
        forall|h: BlockHash| #[trigger] store.spec_has(h) ==> reach.spec_has(h),
        forall|h: BlockHash, i: int|
            #[trigger] store.spec_has(h) && 0 <= i < store.map@[h].mergeset_blues@.len()
                ==> reach.spec_has(#[trigger] store.map@[h].mergeset_blues@[i]),
    ensures
        r.0 == spec_check_blue(*store, *reach, k, sp, blues@, sizes@, candidate).0,
        r.1@ == spec_check_blue(*store, *reach, k, sp, blues@, sizes@, candidate).1,
        r.0 ==> r.1@.len() <= k,
        forall|i: int| 0 <= i < r.1@.len() ==> (#[trigger] r.1@[i]).1 < k,
{
    let ghost full = spec_check_blue(*store, *reach, k, sp, blues@, sizes@, candidate);
    let mut count: u32 = 0;
    let mut collected: Vec<(BlockHash, u16)> = Vec::new();
    // Phase one: the blues already chosen for the new block.
    let n = blues.len();
    proof {
        assert(blues@.skip(0) =~= blues@);
        assert(collected@ =~= Seq::<(BlockHash, u16)>::empty());
    }
    for i in 0..n
        invariant
            store.wf(),
            reach.wf(),
            reach.spec_has(candidate),
            sp != ORIGIN,
            store.spec_has(sp),
            n == blues@.len(),
            forall|j: int| 0 <= j < blues@.len() ==> reach.spec_has(#[trigger] blues@[j]),
            count <= k,
            collected@.len() == count,
            forall|j: int| 0 <= j < collected@.len() ==> (#[trigger] collected@[j]).1 < k,
            full == spec_check_blue(*store, *reach, k, sp, blues@, sizes@, candidate),
            spec_scan_blues(
                *store,
                *reach,
                sizes@,
                k,
                sp,
                candidate,
                blues@,
                0,
                Seq::empty(),
            ) == spec_scan_blues(
                *store,
                *reach,
                sizes@,
                k,
                sp,
                candidate,
                blues@.skip(i as int),
                count as int,
                collected@,
            ),
    {
        proof {
            assert(blues@.skip(i as int).first() == blues@[i as int]);
            assert(blues@.skip(i as int).drop_first() =~= blues@.skip(i + 1));
        }
        if !reach.is_dag_ancestor_of(blues[i], candidate) {
            let sz = blue_anticone_size(store, sizes, sp, blues[i]);
            count = count + 1;
            if count > k as u32 {
                proof {
                    assert(!spec_scan_blues(
                        *store,
                        *reach,
                        sizes@,
                        k,
                        sp,
                        candidate,
                        blues@,
                        0,
                        Seq::empty(),
                    ).0);
                    assert(full == (false, collected@));
                }
                return (false, collected);
            }
            if sz >= k {
                proof {
                    assert(!spec_scan_blues(
                        *store,
                        *reach,
                        sizes@,
                        k,
                        sp,
                        candidate,
                        blues@,
                        0,
                        Seq::empty(),
                    ).0);
                    assert(full == (false, collected@));
                }
                return (false, collected);
            }
            collected.push((blues[i], sz));
        }
    }
    proof {
        assert(blues@.skip(n as int) =~= Seq::<BlockHash>::empty());
        assert(spec_scan_blues(
            *store,
            *reach,
            sizes@,
            k,
            sp,
            candidate,
            blues@,
            0,
            Seq::empty(),
        ) == (true, count as int, collected@));
        assert(full == spec_check_chain(
            *store,
            *reach,
            sizes@,
            k,
            candidate,
            sp,
            count as int,
            collected@,
        ));
    }
    // Phase two: the blues of each chain block, walking down from the
    // selected parent until one is found in the candidate's past.
    let mut cur = sp;
    loop
        invariant
            store.wf(),
            reach.wf(),
            reach.spec_has(candidate),
            store.spec_has(cur),
            forall|h: BlockHash| #[trigger] store.spec_has(h) ==> reach.spec_has(h),
            forall|h: BlockHash, i: int|
                #[trigger] store.spec_has(h) && 0 <= i < store.map@[h].mergeset_blues@.len()
                    ==> reach.spec_has(#[trigger] store.map@[h].mergeset_blues@[i]),
            count <= k,
            collected@.len() == count,
            forall|j: int| 0 <= j < collected@.len() ==> (#[trigger] collected@[j]).1 < k,
            full == spec_check_blue(*store, *reach, k, sp, blues@, sizes@, candidate),
            full == spec_check_chain(
                *store,
                *reach,
                sizes@,
                k,
                candidate,
                cur,
                count as int,
                collected@,
            ),
        decreases crate::keymap::key_index(store.map.seq(), cur),
    {
        if reach.is_dag_ancestor_of(cur, candidate) {
            proof {
                assert(full == (true, collected@));
            }
            return (true, collected);
        }
        let d = store.get(cur).unwrap();
        let m = d.mergeset_blues.len();
        let ghost count0: int = count as int;
        let ghost collected0 = collected@;
        let ghost curh = cur;
        proof {
            assert(store.map@[cur].mergeset_blues@.skip(0) =~= store.map@[cur].mergeset_blues@);
        }
        for i in 0..m
            invariant
                store.wf(),
                reach.wf(),
                reach.spec_has(candidate),
                store.spec_has(curh),
                cur == curh,
                d == &store.map@[curh],
                m == d.mergeset_blues@.len(),
                forall|j: int|
                    0 <= j < d.mergeset_blues@.len() ==> reach.spec_has(
                        #[trigger] d.mergeset_blues@[j],
                    ),
                count <= k,
                collected@.len() == count,
                forall|j: int| 0 <= j < collected@.len() ==> (#[trigger] collected@[j]).1 < k,
                !spec_dag_ancestor(reach.nodes@, curh, candidate),
                full == spec_check_blue(*store, *reach, k, sp, blues@, sizes@, candidate),
                full == spec_check_chain(
                    *store,
                    *reach,
                    sizes@,
                    k,
                    candidate,
                    curh,
                    count0,
                    collected0,
                ),
                spec_scan_blues(
                    *store,
                    *reach,
                    sizes@,
                    k,
                    curh,
                    candidate,
                    store.map@[curh].mergeset_blues@,
                    count0,
                    collected0,
                ) == spec_scan_blues(
                    *store,
                    *reach,
                    sizes@,
                    k,
                    curh,
                    candidate,
                    store.map@[curh].mergeset_blues@.skip(i as int),
                    count as int,
                    collected@,
                ),
        {
            proof {
                assert(store.map@[curh].mergeset_blues@.skip(i as int).first()
                    == store.map@[curh].mergeset_blues@[i as int]);
                assert(store.map@[curh].mergeset_blues@.skip(i as int).drop_first()
                    =~= store.map@[curh].mergeset_blues@.skip(i + 1));
            }
            if !reach.is_dag_ancestor_of(d.mergeset_blues[i], candidate) {
                let sz = blue_anticone_size(store, sizes, cur, d.mergeset_blues[i]);
                count = count + 1;
                if count > k as u32 {
                    proof {
                        assert(!spec_scan_blues(
                            *store,
                            *reach,
                            sizes@,
                            k,
                            curh,
                            candidate,
                            store.map@[curh].mergeset_blues@,
                            count0,
                            collected0,
                        ).0);
                        assert(full == (false, collected@));
                    }
                    return (false, collected);
                }
                if sz >= k {
                    proof {
                        assert(!spec_scan_blues(
                            *store,
                            *reach,
                            sizes@,
                            k,
                            curh,
                            candidate,
                            store.map@[curh].mergeset_blues@,
                            count0,
                            collected0,
                        ).0);
                        assert(full == (false, collected@));
                    }
                    return (false, collected);
                }
                collected.push((d.mergeset_blues[i], sz));
            }
        }
        proof {
            assert(store.map@[curh].mergeset_blues@.skip(m as int)
                =~= Seq::<BlockHash>::empty());
            assert(spec_scan_blues(
                *store,
                *reach,
                sizes@,
                k,
                curh,
                candidate,
                store.map@[curh].mergeset_blues@,
                count0,
                collected0,
            ) == (true, count as int, collected@));
        }
        if d.selected_parent == ORIGIN {
            // The whole recorded chain lies in the candidate's anticone
            // bound; nothing more can violate the rule.
            proof {
                assert(full == (true, collected@));
            }
            return (true, collected);
        }
        proof {
            lemma_chain_step(store, cur);
        }
        cur = d.selected_parent;
    }
}

/// Stores the engine reads, in a consistent state: relations members are
/// known to reachability, GHOSTDAG and headers; recorded blues are known to
/// reachability.
pub open spec fn ghostdag_prereqs(
    rel: RelationsStore,
    reach: ReachabilityStore,
    store: GhostdagStore,
    headers: crate::stores::HeadersStore,
) -> bool {
    &&& rel.wf()
    &&& reach.wf()
    &&& store.wf()
    &&& headers.wf()
    &&& forall|h: BlockHash| #[trigger] rel.spec_has(h) ==> reach.spec_has(h)
    &&& forall|h: BlockHash|
        #[trigger] rel.spec_has(h) && h != ORIGIN ==> store.spec_has(h)
            && headers.map@.contains_key(h)
    &&& forall|h: BlockHash| #[trigger] store.spec_has(h) ==> reach.spec_has(h)
    &&& forall|h: BlockHash, i: int|
        #[trigger] store.spec_has(h) && 0 <= i < store.map@[h].mergeset_blues@.len()
            ==> reach.spec_has(#[trigger] store.map@[h].mergeset_blues@[i])
}

/// What the engine promises of a record computed for `parents`.
pub open spec fn ghostdag_post(
    rel: RelationsStore,
    reach: ReachabilityStore,
    store: GhostdagStore,
    headers: crate::stores::HeadersStore,
    k: u16,
    parents: Seq<BlockHash>,
    r: GhostdagData,
) -> bool {
    if parents =~= seq![ORIGIN] {
        &&& r.selected_parent == ORIGIN
        &&& r.blue_score == 0
        &&& r.blue_work == 0
        &&& r.mergeset_blues@.len() == 0
        &&& r.mergeset_reds@.len() == 0
        &&& r.blues_anticone_sizes@.len() == 0
    } else {
        let sp = r.selected_parent;
        &&& is_selected_parent(store.map@, parents, sp)
        &&& store.spec_has(sp)
        &&& r.mergeset_blues@.len() >= 1
        &&& r.mergeset_blues@[0] == sp
        &&& r.mergeset_blues@.len() <= k + 1
        &&& r.mergeset_blues@.no_duplicates()
        &&& r.mergeset_reds@.no_duplicates()
        &&& forall|x: BlockHash| !(r.mergeset_blues@.contains(x) && r.mergeset_reds@.contains(x))
        &&& forall|i: int|
            1 <= i < r.mergeset_blues@.len() ==> in_mergeset_of(
                rel,
                reach,
                parents,
                sp,
                #[trigger] r.mergeset_blues@[i],
            )
        &&& forall|i: int|
            0 <= i < r.mergeset_reds@.len() ==> in_mergeset_of(
                rel,
                reach,
                parents,
                sp,
                #[trigger] r.mergeset_reds@[i],
            )
        &&& forall|p: BlockHash|
            parents.contains(p) && p != sp ==> r.mergeset_blues@.contains(p)
                || r.mergeset_reds@.contains(p)
        &&& forall|x: BlockHash, n: nat|
            spec_anticone_step(rel, reach, sp, parents, x, n) ==> r.mergeset_blues@.contains(x)
                || r.mergeset_reds@.contains(x)
        &&& r.blue_score == sat_add_u64(
            store.map@[sp].blue_score as int,
            r.mergeset_blues@.len() as int,
        )
        &&& r.blue_work == sat_add_u128(
            store.map@[sp].blue_work as int,
            spec_sum_work(headers.map@, r.mergeset_blues@),
        )
        &&& forall|i: int|
            0 <= i < r.mergeset_blues@.len() ==> crate::keymap::has_key(
                r.blues_anticone_sizes@,
                #[trigger] r.mergeset_blues@[i],
            )
        &&& r.mergeset_blues@ == spec_colored(rel, reach, store, k, sp, parents).0
        &&& r.mergeset_reds@ == spec_colored(rel, reach, store, k, sp, parents).1
        &&& r.blues_anticone_sizes@ == spec_colored(rel, reach, store, k, sp, parents).2
    }
}

/// The engine is deterministic: two records meeting the contract for the
/// same stores and parents agree on every observable field.
pub proof fn lemma_ghostdag_unique(
    rel: RelationsStore,
    reach: ReachabilityStore,
    store: GhostdagStore,
    headers: crate::stores::HeadersStore,
    k: u16,
    parents: Seq<BlockHash>,
    r1: GhostdagData,
    r2: GhostdagData,
)
    requires
        ghostdag_post(rel, reach, store, headers, k, parents, r1),
        ghostdag_post(rel, reach, store, headers, k, parents, r2),
    ensures
        r1.selected_parent == r2.selected_parent,
        r1.blue_score == r2.blue_score,
        r1.blue_work == r2.blue_work,
        r1.mergeset_blues@ == r2.mergeset_blues@,
        r1.mergeset_reds@ == r2.mergeset_reds@,
        r1.blues_anticone_sizes@ == r2.blues_anticone_sizes@,
{
    if parents =~= seq![ORIGIN] {
        assert(r1.mergeset_blues@ =~= r2.mergeset_blues@);
        assert(r1.mergeset_reds@ =~= r2.mergeset_reds@);
        assert(r1.blues_anticone_sizes@ =~= r2.blues_anticone_sizes@);
    } else {
        assert(r1.selected_parent == r2.selected_parent) by {
            if r1.selected_parent != r2.selected_parent {
                let a = r1.selected_parent;
                let b = r2.selected_parent;
                assert(spec_work_lt(
                    store.map@[a].blue_work,
                    a,
                    store.map@[b].blue_work,
                    b,
                ));
                assert(spec_work_lt(
                    store.map@[b].blue_work,
                    b,
                    store.map@[a].blue_work,
                    a,
                ));
            }
        }
    }
}

/// Membership in the computed mergeset: an admitted non-selected block that
/// is a direct parent or lies outside the selected parent's recorded past.
pub open spec fn in_mergeset_of(
    rel: RelationsStore,
    reach: ReachabilityStore,
    parents: Seq<BlockHash>,
    sp: BlockHash,
    x: BlockHash,
) -> bool {
    &&& rel.spec_has(x)
    &&& reach.spec_has(x)
    &&& x != sp
    &&& (parents.contains(x) || !spec_dag_ancestor(reach.nodes@, x, sp))
}

/// Computes the GHOSTDAG record of a new block from its non-pruned parents.
pub fn ghostdag(
    k: u16,
    rel: &RelationsStore,
    reach: &ReachabilityStore,
    store: &GhostdagStore,
    headers: &crate::stores::HeadersStore,
    parents: &Vec<BlockHash>,
) -> (r: GhostdagData)
    requires
        ghostdag_prereqs(*rel, *reach, *store, *headers),
        parents@.len() >= 1,
        parents@.no_duplicates(),
        (parents@ =~= seq![ORIGIN]) || forall|i: int|
            0 <= i < parents@.len() ==> #[trigger] parents@[i] != ORIGIN && rel.spec_has(
                parents@[i],
            ),
    ensures
        ghostdag_post(*rel, *reach, *store, *headers, k, parents@, r),
{
    if parents.len() == 1 && parents[0] == ORIGIN {
        proof {
            assert(parents@ =~= seq![ORIGIN]);
        }
        return GhostdagData {
            blue_score: 0,
            blue_work: 0,
            selected_parent: ORIGIN,
            mergeset_blues: Vec::new(),
            mergeset_reds: Vec::new(),
            blues_anticone_sizes: Vec::new(),
        };
    }
    proof {
        assert(!(parents@ =~= seq![ORIGIN])) by {
            if parents@ =~= seq![ORIGIN] {
                assert(parents@[0] == ORIGIN);
                assert(parents@.len() == 1);
            }
        }
    }
    let sp = find_selected_parent(store, parents);
    proof {
        assert(reach.spec_has(sp)) by {
            assert(parents@.contains(sp));
        }
        assert(sp != ORIGIN) by {
            let j = choose|j: int| 0 <= j < parents@.len() && parents@[j] == sp;
        }
    }
    let ms = unordered_mergeset(rel, reach, sp, parents);
    proof {
        assert forall|i: int| 0 <= i < ms@.len() implies store.spec_has(#[trigger] ms@[i]) by {}
    }
    let ordered = sort_by_blue_work(store, ms);
    proof {
        assert forall|j: int|
            0 <= j < ordered@.len() implies in_mergeset_of(
            *rel,
            *reach,
            parents@,
            sp,
            #[trigger] ordered@[j],
        ) by {
            assert(ordered@.contains(ordered@[j]));
            assert(ms@.contains(ordered@[j]));
            let jj = choose|jj: int| 0 <= jj < ms@.len() && ms@[jj] == ordered@[j];
        }
    }
    let mut blues: Vec<BlockHash> = Vec::new();
    let mut reds: Vec<BlockHash> = Vec::new();
    let mut sizes: Vec<(BlockHash, u16)> = Vec::new();
    blues.push(sp);
    sizes.push((sp, 0));
    let n = ordered.len();
    proof {
        assert(blues@ =~= seq![sp]);
        assert(sizes@ =~= seq![(sp, 0u16)]);
        assert(reds@ =~= Seq::<BlockHash>::empty());
        assert(ordered@.skip(0) =~= ordered@);
        assert(sizes@[0].0 == sp);
        assert(crate::keymap::has_key(sizes@, sp));
    }
    let ghost color_full = spec_color(
        *store,
        *reach,
        k,
        sp,
        ordered@,
        seq![sp],
        Seq::empty(),
        seq![(sp, 0u16)],
    );
    for i in 0..n
        invariant
            color_full == spec_color(
                *store,
                *reach,
                k,
                sp,
                ordered@,
                seq![sp],
                Seq::empty(),
                seq![(sp, 0u16)],
            ),
            color_full == spec_color(
                *store,
                *reach,
                k,
                sp,
                ordered@.skip(i as int),
                blues@,
                reds@,
                sizes@,
            ),
            ghostdag_prereqs(*rel, *reach, *store, *headers),
            store.spec_has(sp),
            sp != ORIGIN,
            reach.spec_has(sp),
            n == ordered@.len(),
            ordered@.no_duplicates(),
            forall|j: int|
                0 <= j < ordered@.len() ==> in_mergeset_of(
                    *rel,
                    *reach,
                    parents@,
                    sp,
                    #[trigger] ordered@[j],
                ),
            blues@.len() >= 1,
            blues@[0] == sp,
            blues@.len() <= k + 1,
            blues@.no_duplicates(),
            reds@.no_duplicates(),
            forall|x: BlockHash| #[trigger] blues@.contains(x) ==> x == sp || ordered@.contains(x),
            forall|x: BlockHash| #[trigger] reds@.contains(x) ==> ordered@.contains(x),
            forall|jj: int|
                i <= jj < n ==> !blues@.contains(#[trigger] ordered@[jj]) && !reds@.contains(
                    ordered@[jj],
                ),
            forall|x: BlockHash| !(blues@.contains(x) && reds@.contains(x)),
            forall|j: int|
                0 <= j < i ==> blues@.contains(#[trigger] ordered@[j]) || reds@.contains(
                    ordered@[j],
                ),
            forall|j: int|
                0 <= j < blues@.len() ==> crate::keymap::has_key(sizes@, #[trigger] blues@[j]),
            forall|j: int| 0 <= j < blues@.len() ==> reach.spec_has(#[trigger] blues@[j]),
    {
        let candidate = ordered[i];
        let ghost pre_blues = blues@;
        let ghost pre_reds = reds@;
        let ghost pre_sizes = sizes@;
        proof {
            assert(in_mergeset_of(*rel, *reach, parents@, sp, ordered@[i as int]));
            assert(!blues@.contains(candidate));
            assert(!reds@.contains(candidate));
        }
        proof {
            assert(ordered@.skip(i as int).first() == ordered@[i as int]);
            assert(ordered@.skip(i as int).drop_first() =~= ordered@.skip(i + 1));
        }
        let decide = if blues.len() > k as usize {
            (false, Vec::new())
        } else {
            check_blue_candidate(store, reach, k, sp, &blues, &sizes, candidate)
        };
        proof {
            if blues@.len() > k {
                assert(decide.1@ =~= Seq::<(BlockHash, u16)>::empty());
            }
        }
        if decide.0 {
            let collected = decide.1;
            // Refresh the anticone sizes of the counted blues and record the
            // candidate with its own count.
            let cn = collected.len();
            proof {
                assert(collected@.skip(0) =~= collected@);
            }
            for ci in 0..cn
                invariant
                    cn == collected@.len(),
                    forall|j: int| 0 <= j < collected@.len() ==> (#[trigger] collected@[j]).1 < k,
                    forall|x: BlockHash|
                        crate::keymap::has_key(pre_sizes, x) ==> crate::keymap::has_key(
                            sizes@,
                            x,
                        ),
                    spec_bump_all(pre_sizes, collected@) == spec_bump_all(
                        sizes@,
                        collected@.skip(ci as int),
                    ),
            {
                proof {
                    assert(collected@.skip(ci as int).first() == collected@[ci as int]);
                    assert(collected@.skip(ci as int).drop_first() =~= collected@.skip(ci + 1));
                }
                let (b, sz) = collected[ci];
                assoc_bump(&mut sizes, b, sz + 1);
            }
            proof {
                assert(collected@.skip(cn as int) =~= Seq::<(BlockHash, u16)>::empty());
                assert(sizes@ == spec_bump_all(pre_sizes, collected@));
            }
            proof {
                assert(collected@.len() <= k);
            }
            let ghost postbump = sizes@;
            sizes.push((candidate, collected.len() as u16));
            blues.push(candidate);
            proof {
                lemma_push_distinct(pre_blues, candidate);
                assert(blues@.last() == candidate);
                assert(blues@[0] == sp);
                assert(ordered@.contains(candidate)) by {
                    assert(ordered@[i as int] == candidate);
                }
                assert forall|x: BlockHash| #[trigger]
                    blues@.contains(x) implies x == sp || ordered@.contains(x) by {
                    let j = choose|j: int| 0 <= j < blues@.len() && blues@[j] == x;
                    if j < pre_blues.len() {
                        assert(pre_blues.contains(pre_blues[j]));
                    }
                }
                assert forall|jj: int|
                    i + 1 <= jj < n implies !blues@.contains(#[trigger] ordered@[jj])
                    && !reds@.contains(ordered@[jj]) by {
                    assert(ordered@[jj] != candidate);
                    lemma_push_not_contains(pre_blues, candidate, ordered@[jj]);
                }
                assert forall|x: BlockHash| !(blues@.contains(x) && reds@.contains(x)) by {
                    if blues@.contains(x) && reds@.contains(x) {
                        let j = choose|j: int| 0 <= j < blues@.len() && blues@[j] == x;
                        if j < pre_blues.len() {
                            assert(pre_blues.contains(pre_blues[j]));
                        }
                    }
                }
                assert forall|j: int|
                    0 <= j < i + 1 implies blues@.contains(#[trigger] ordered@[j])
                    || reds@.contains(ordered@[j]) by {
                    if j < i as int {
                        if pre_blues.contains(ordered@[j]) {
                            lemma_push_contains(pre_blues, candidate, ordered@[j]);
                        }
                    } else {
                        assert(blues@.last() == candidate);
                        assert(blues@.contains(candidate));
                    }
                }
                assert forall|j: int|
                    0 <= j < blues@.len() implies crate::keymap::has_key(
                    sizes@,
                    #[trigger] blues@[j],
                ) by {
                    if j < pre_blues.len() {
                        assert(blues@[j] == pre_blues[j]);
                        assert(crate::keymap::has_key(pre_sizes, pre_blues[j]));
                        assert(crate::keymap::has_key(postbump, pre_blues[j]));
                        let j2 = choose|j2: int|
                            0 <= j2 < postbump.len() && postbump[j2].0 == pre_blues[j];
                        assert(sizes@[j2].0 == blues@[j]);
                    } else {
                        assert(blues@[j] == candidate);
                        assert(sizes@[sizes@.len() - 1].0 == candidate);
                    }
                }
            }
        } else {
            reds.push(candidate);
            proof {
                lemma_push_distinct(pre_reds, candidate);
                assert(reds@.last() == candidate);
                assert(ordered@.contains(candidate)) by {
                    assert(ordered@[i as int] == candidate);
                }
                assert forall|x: BlockHash| #[trigger]
                    reds@.contains(x) implies ordered@.contains(x) by {
                    let j = choose|j: int| 0 <= j < reds@.len() && reds@[j] == x;
                    if j < pre_reds.len() {
                        assert(pre_reds.contains(pre_reds[j]));
                    }
                }
                assert forall|jj: int|
                    i + 1 <= jj < n implies !blues@.contains(#[trigger] ordered@[jj])
                    && !reds@.contains(ordered@[jj]) by {
                    assert(ordered@[jj] != candidate);
                    lemma_push_not_contains(pre_reds, candidate, ordered@[jj]);
                }
                assert forall|x: BlockHash| !(blues@.contains(x) && reds@.contains(x)) by {
                    if blues@.contains(x) && reds@.contains(x) {
                        let j = choose|j: int| 0 <= j < reds@.len() && reds@[j] == x;
                        if j < pre_reds.len() {
                            assert(pre_reds.contains(pre_reds[j]));
                        }
                    }
                }
                assert forall|j: int|
                    0 <= j < i + 1 implies blues@.contains(#[trigger] ordered@[j])
                    || reds@.contains(ordered@[j]) by {
                    if j < i as int {
                        if pre_reds.contains(ordered@[j]) {
                            lemma_push_contains(pre_reds, candidate, ordered@[j]);
                        }
                    } else {
                        assert(reds@.last() == candidate);
                        assert(reds@.contains(candidate));
                    }
                }
            }
        }
    }
    // Blue score and work accumulate over the chosen blues.
    let spd = store.get(sp).unwrap();
    let blue_score = if u64::MAX - spd.blue_score < blues.len() as u64 {
        u64::MAX
    } else {
        spd.blue_score + blues.len() as u64
    };
    proof {
        assert forall|j: int|
            0 <= j < blues@.len() implies headers.map@.contains_key(#[trigger] blues@[j]) by {
            assert(blues@.contains(blues@[j]));
            if blues@[j] == sp {
                let jp = choose|jp: int| 0 <= jp < parents@.len() && parents@[jp] == sp;
                assert(rel.spec_has(parents@[jp]));
            } else {
                assert(ordered@.contains(blues@[j]));
                let jj = choose|jj: int| 0 <= jj < ordered@.len() && ordered@[jj] == blues@[j];
                assert(in_mergeset_of(*rel, *reach, parents@, sp, ordered@[jj]));
            }
        }
    }
    let work_sum = sum_work(headers, &blues);
    let blue_work = if work_sum == u128::MAX || u128::MAX - spd.blue_work < work_sum {
        proof {
            lemma_sum_work_nonneg(headers.map@, blues@);
        }
        u128::MAX
    } else {
        spd.blue_work + work_sum
    };
    proof {
        assert forall|j: int|
            1 <= j < blues@.len() implies in_mergeset_of(
            *rel,
            *reach,
            parents@,
            sp,
            #[trigger] blues@[j],
        ) by {
            assert(blues@.contains(blues@[j]));
            assert(blues@[j] != sp) by {
                if blues@[j] == blues@[0] {
                    assert(false);
                }
            }
            assert(ordered@.contains(blues@[j]));
            let jj = choose|jj: int| 0 <= jj < ordered@.len() && ordered@[jj] == blues@[j];
            assert(in_mergeset_of(*rel, *reach, parents@, sp, ordered@[jj]));
        }
        assert forall|j: int|
            0 <= j < reds@.len() implies in_mergeset_of(
            *rel,
            *reach,
            parents@,
            sp,
            #[trigger] reds@[j],
        ) by {
            assert(reds@.contains(reds@[j]));
            assert(ordered@.contains(reds@[j]));
            let jj = choose|jj: int| 0 <= jj < ordered@.len() && ordered@[jj] == reds@[j];
            assert(in_mergeset_of(*rel, *reach, parents@, sp, ordered@[jj]));
        }
        assert forall|p: BlockHash|
            parents@.contains(p) && p != sp implies blues@.contains(p) || reds@.contains(
            p,
        ) by {
            assert(ordered@.contains(p));
            let jj = choose|jj: int| 0 <= jj < ordered@.len() && ordered@[jj] == p;
        }
        assert forall|x: BlockHash, n2: nat|
            spec_anticone_step(*rel, *reach, sp, parents@, x, n2) implies blues@.contains(x)
            || reds@.contains(x) by {
            assert(ms@.contains(x));
            assert(ordered@.contains(x));
            let jj = choose|jj: int| 0 <= jj < ordered@.len() && ordered@[jj] == x;
        }
    }
    proof {
        assert(ordered@.skip(n as int) =~= Seq::<BlockHash>::empty());
        assert(color_full == (blues@, reds@, sizes@));
        // The exec ordering is the unique sorted duplicate-free list of the
        // derivable blocks, so it equals the ordering the contract names.
        assert forall|x: BlockHash|
            #[trigger] ordered@.contains(x) <==> has_derivation(
            *rel,
            *reach,
            sp,
            parents@,
            x,
        ) by {
            if ordered@.contains(x) {
                assert(ms@.contains(x));
            }
            if has_derivation(*rel, *reach, sp, parents@, x) {
                let nx = choose|nx: nat| spec_anticone_step(*rel, *reach, sp, parents@, x, nx);
                assert(spec_anticone_step(*rel, *reach, sp, parents@, x, nx));
                assert(ms@.contains(x));
            }
        }
        let som = spec_ordered_mergeset(*rel, *reach, *store, sp, parents@);
        assert(som.no_duplicates() && sorted_by_work(store.map@, som) && (forall|x: BlockHash|
            #[trigger] som.contains(x) <==> has_derivation(*rel, *reach, sp, parents@, x)))
            by {
            assert(ordered@.no_duplicates() && sorted_by_work(store.map@, ordered@) && (
            forall|x: BlockHash|
                #[trigger] ordered@.contains(x) <==> has_derivation(
                    *rel,
                    *reach,
                    sp,
                    parents@,
                    x,
                )));
        }
        assert forall|x: BlockHash| ordered@.contains(x) <==> som.contains(x) by {}
        lemma_sorted_unique(store.map@, ordered@, som);
        assert(ordered@ == som);
        assert(blues@ == spec_colored(*rel, *reach, *store, k, sp, parents@).0);
        assert(reds@ == spec_colored(*rel, *reach, *store, k, sp, parents@).1);
        assert(sizes@ == spec_colored(*rel, *reach, *store, k, sp, parents@).2);
    }
    GhostdagData {
        blue_score,
        blue_work,
        selected_parent: sp,
        mergeset_blues: blues,
        mergeset_reds: reds,
        blues_anticone_sizes: sizes,
    }
}


/// A first-match update realizes `spec_assoc_bump`.
proof fn lemma_assoc_bump_update(s: Seq<(BlockHash, u16)>, k: BlockHash, v: u16, i: int)
    requires
        0 <= i < s.len(),
        s[i].0 == k,
        forall|j: int| 0 <= j < i ==> s[j].0 != k,
    ensures
        spec_assoc_bump(s, k, v) == s.update(i, (k, v)),
    decreases i,
{
    if i == 0 {
        assert(spec_assoc_bump(s, k, v) =~= s.update(0, (k, v)));
    } else {
        assert(s.first().0 != k);
        let d = s.drop_first();
        assert(d[i - 1].0 == k);
        assert forall|j: int| 0 <= j < i - 1 implies d[j].0 != k by {
            assert(d[j] == s[j + 1]);
        }
        lemma_assoc_bump_update(d, k, v, i - 1);
        assert(spec_assoc_bump(s, k, v) =~= s.update(i, (k, v)));
    }
}

/// An append realizes `spec_assoc_bump` when the key is absent.
proof fn lemma_assoc_bump_push(s: Seq<(BlockHash, u16)>, k: BlockHash, v: u16)
    requires
        forall|j: int| 0 <= j < s.len() ==> s[j].0 != k,
    ensures
        spec_assoc_bump(s, k, v) == s.push((k, v)),
    decreases s.len(),
{
    if s.len() == 0 {
        assert(spec_assoc_bump(s, k, v) =~= s.push((k, v)));
    } else {
        let d = s.drop_first();
        assert forall|j: int| 0 <= j < d.len() implies d[j].0 != k by {
            assert(d[j] == s[j + 1]);
        }
        lemma_assoc_bump_push(d, k, v);
        assert(spec_assoc_bump(s, k, v) =~= s.push((k, v)));
    }
}

/// Raises the recorded size of `b` to `sz`, inserting it when absent.
fn assoc_bump(v: &mut Vec<(BlockHash, u16)>, b: BlockHash, sz: u16)
    ensures
        final(v)@ == spec_assoc_bump(old(v)@, b, sz),
        forall|x: BlockHash|
            crate::keymap::has_key(old(v)@, x) ==> crate::keymap::has_key(final(v)@, x),
        crate::keymap::has_key(final(v)@, b),
{
    let n = v.len();
    for i in 0..n
        invariant
            n == v@.len(),
            *v == *old(v),
            forall|j: int| 0 <= j < i ==> (#[trigger] v@[j]).0 != b,
    {
        if v[i].0 == b {
            proof {
                lemma_assoc_bump_update(v@, b, sz, i as int);
            }
            v.set(i, (b, sz));
            proof {
                assert(v@[i as int].0 == b);
                assert forall|x: BlockHash|
                    crate::keymap::has_key(old(v)@, x) implies crate::keymap::has_key(
                    v@,
                    x,
                ) by {
                    let j = choose|j: int| 0 <= j < old(v)@.len() && old(v)@[j].0 == x;
                    assert(v@[j].0 == x || j == i as int);
                    if j == i as int {
                        assert(v@[i as int].0 == b);
                    }
                }
                assert(crate::keymap::has_key(v@, b));
            }
            return ;
        }
    }
    proof {
        lemma_assoc_bump_push(v@, b, sz);
    }
    v.push((b, sz));
    proof {
        assert(v@[v@.len() - 1].0 == b);
        assert(crate::keymap::has_key(v@, b));
        assert forall|x: BlockHash|
            crate::keymap::has_key(old(v)@, x) implies crate::keymap::has_key(v@, x) by {
            let j = choose|j: int| 0 <= j < old(v)@.len() && old(v)@[j].0 == x;
            assert(v@[j].0 == x);
        }
    }
}

/// Sums the work of the listed blocks.
fn sum_work(headers: &crate::stores::HeadersStore, blocks: &Vec<BlockHash>) -> (r: u128)
    requires
        headers.wf(),
        forall|i: int|
            0 <= i < blocks@.len() ==> headers.map@.contains_key(#[trigger] blocks@[i]),
    ensures
        r as int == spec_sum_work(headers.map@, blocks@) || (spec_sum_work(headers.map@, blocks@)
            > u128::MAX && r == u128::MAX),
{
    let mut acc: u128 = 0;
    let n = blocks.len();
    for i in 0..n
        invariant
            headers.wf(),
            n == blocks@.len(),
            forall|j: int|
                0 <= j < blocks@.len() ==> headers.map@.contains_key(#[trigger] blocks@[j]),
            acc as int == spec_sum_work(headers.map@, blocks@.subrange(0, i as int)) || (
            spec_sum_work(headers.map@, blocks@.subrange(0, i as int)) > u128::MAX && acc
                == u128::MAX),
    {
        let e = headers.get(blocks[i]).unwrap();
        let w = work_from_bits(e.header.bits);
        proof {
            let pre = blocks@.subrange(0, i as int);
            let cur = blocks@.subrange(0, i + 1);
            assert(cur.drop_last() =~= pre);
            assert(cur.last() == blocks@[i as int]);
            lemma_sum_work_nonneg(headers.map@, pre);
        }
        if u128::MAX - acc < w {
            acc = u128::MAX;
        } else {
            acc = acc + w;
        }
    }
    proof {
        assert(blocks@.subrange(0, n as int) =~= blocks@);
    }
    acc
}

/// The mergeset order is pinned: the order is strict and total, so two
/// duplicate-free sorted lists with the same members are the same list.
/// With the membership of the mergeset fixed by `ghostdag`'s contract,
/// reruns over equal stores produce the identical ordered mergeset.
pub proof fn lemma_sorted_unique(
    gd: Map<BlockHash, GhostdagData>,
    a: Seq<BlockHash>,
    b: Seq<BlockHash>,
)
    requires
        sorted_by_work(gd, a),
        sorted_by_work(gd, b),
        a.no_duplicates(),
        b.no_duplicates(),
        forall|x: BlockHash| a.contains(x) <==> b.contains(x),
    ensures
        a == b,
    decreases a.len(),
{
    if a.len() == 0 {
        assert(b.len() == 0) by {
            if b.len() > 0 {
                assert(b.contains(b[0]));
                assert(a.contains(b[0]));
            }
        }
        assert(a =~= b);
    } else {
        assert(a.contains(a[0]));
        assert(b.contains(a[0]));
        let j = choose|j: int| 0 <= j < b.len() && b[j] == a[0];
        assert(a[0] == b[0]) by {
            if j > 0 {
                assert(gd_precedes(gd, b[0], b[j]));
                assert(b.contains(b[0]));
                assert(a.contains(b[0]));
                let k = choose|k: int| 0 <= k < a.len() && a[k] == b[0];
                if k > 0 {
                    assert(gd_precedes(gd, a[0], a[k]));
                }
            }
        }
        let at = a.drop_first();
        let bt = b.drop_first();
        assert(at.no_duplicates()) by {
            assert forall|p: int, q: int| 0 <= p < q < at.len() implies at[p] != at[q] by {
                assert(at[p] == a[p + 1] && at[q] == a[q + 1]);
            }
        }
        assert(bt.no_duplicates()) by {
            assert forall|p: int, q: int| 0 <= p < q < bt.len() implies bt[p] != bt[q] by {
                assert(bt[p] == b[p + 1] && bt[q] == b[q + 1]);
            }
        }
        assert(sorted_by_work(gd, at)) by {
            assert forall|p: int, q: int|
                0 <= p < q < at.len() implies gd_precedes(gd, #[trigger] at[p], #[trigger] at[q]) by {
                assert(at[p] == a[p + 1] && at[q] == a[q + 1]);
            }
        }
        assert(sorted_by_work(gd, bt)) by {
            assert forall|p: int, q: int|
                0 <= p < q < bt.len() implies gd_precedes(gd, #[trigger] bt[p], #[trigger] bt[q]) by {
                assert(bt[p] == b[p + 1] && bt[q] == b[q + 1]);
            }
        }
        assert forall|x: BlockHash| at.contains(x) <==> bt.contains(x) by {
            if at.contains(x) {
                let p = choose|p: int| 0 <= p < at.len() && at[p] == x;
                assert(a[p + 1] == x);
                assert(a.contains(x));
                assert(x != a[0]);
                assert(b.contains(x));
                let q = choose|q: int| 0 <= q < b.len() && b[q] == x;
                assert(q != 0);
                assert(bt[q - 1] == x);
                assert(bt.contains(x));
            }
            if bt.contains(x) {
                let p = choose|p: int| 0 <= p < bt.len() && bt[p] == x;
                assert(b[p + 1] == x);
                assert(b.contains(x));
                assert(x != b[0]);
                assert(a.contains(x));
                let q = choose|q: int| 0 <= q < a.len() && a[q] == x;
                assert(q != 0);
                assert(at[q - 1] == x);
                assert(at.contains(x));
            }
        }
        lemma_sorted_unique(gd, at, bt);
        assert(a =~= b) by {
            assert(a.len() == bt.len() + 1);
            assert forall|i: int| 0 <= i < a.len() implies a[i] == b[i] by {
                if i > 0 {
                    assert(at[i - 1] == bt[i - 1]);
                }
            }
        }
    }
}

} // verus!
