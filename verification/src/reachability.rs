//! The reachability index: ancestry queries over the admitted DAG.
//!
//! Each admitted block is a node of a tree rooted at `ORIGIN`; a block's
//! tree parent is its selected parent (or `ORIGIN`). Cross-tree ancestry
//! is answered through per-node future covering sets: `a` reaches `b`
//! exactly when `a` is a tree ancestor of `b` or some member of `a`'s
//! future covering set is. Mutations go through a staging layer that is
//! applied to the live store in one step.

use vstd::prelude::*;
use crate::hashes::{BlockHash, ORIGIN};
use crate::keymap::KeyMap;

verus! {

/// A node of the reachability tree.
pub struct ReachabilityNode {
    /// The tree parent; `ORIGIN` is its own parent.
    pub parent: BlockHash,
    /// Distance from `ORIGIN` along tree edges.
    pub depth: u64,
    /// Blocks in this node's future that cover its non-tree descendants.
    pub future_covering_set: Vec<BlockHash>,
}

/// `a` lies on the tree-parent chain of `b` (reflexively).
pub open spec fn spec_chain_ancestor(
    m: Map<BlockHash, ReachabilityNode>,
    a: BlockHash,
    b: BlockHash,
) -> bool
    decreases (if m.contains_key(b) { m[b].depth as int } else { 0 }),
{
    a == b || {
        &&& m.contains_key(b)
        &&& m.contains_key(m[b].parent)
        &&& m[m[b].parent].depth < m[b].depth
        &&& spec_chain_ancestor(m, a, m[b].parent)
    }
}

/// `a` reaches `b` in the DAG as recorded by the index: along the tree, or
/// through a future-covering entry of `a`.
pub open spec fn spec_dag_ancestor(
    m: Map<BlockHash, ReachabilityNode>,
    a: BlockHash,
    b: BlockHash,
) -> bool {
    spec_chain_ancestor(m, a, b) || exists|i: int|
        0 <= i < m[a].future_covering_set@.len() && spec_chain_ancestor(
            m,
            m[a].future_covering_set@[i],
            b,
        )
}

/// The live reachability store.
pub struct ReachabilityStore {
    pub nodes: KeyMap<ReachabilityNode>,
    /// A hint naming the presumptive virtual selected parent; performance
    /// metadata only, no query depends on it.
    pub virtual_hint: BlockHash,
}

impl ReachabilityStore {
    /// Well-formedness: a tree rooted at `ORIGIN` whose depths grow by one
    /// along edges and stay below the node count, with future covering
    /// sets that only name known nodes.
    pub open spec fn wf(&self) -> bool {
        &&& self.nodes.wf()
        &&& self.nodes@.contains_key(ORIGIN)
        &&& self.nodes@[ORIGIN].parent == ORIGIN
        &&& self.nodes@[ORIGIN].depth == 0
        &&& forall|h: BlockHash|
            #[trigger] self.nodes@.contains_key(h) && h != ORIGIN ==> {
                &&& self.nodes@.contains_key(self.nodes@[h].parent)
                &&& self.nodes@[h].depth == self.nodes@[self.nodes@[h].parent].depth + 1
            }
        &&& forall|h: BlockHash|
            #[trigger] self.nodes@.contains_key(h) ==> self.nodes@[h].depth
                < self.nodes@.dom().len()
        &&& forall|h: BlockHash, i: int|
            #[trigger] self.nodes@.contains_key(h) && 0 <= i
                < self.nodes@[h].future_covering_set@.len() ==> self.nodes@.contains_key(
                #[trigger] self.nodes@[h].future_covering_set@[i],
            )
    }

    pub open spec fn spec_has(&self, h: BlockHash) -> bool {
        self.nodes@.contains_key(h)
    }

    /// A fresh index holding only `ORIGIN`.
    pub fn new() -> (r: Self)
        ensures
            r.wf(),
            r.nodes@.dom() == Set::<BlockHash>::empty().insert(ORIGIN),
            r.nodes@[ORIGIN].parent == ORIGIN,
            r.nodes@[ORIGIN].depth == 0,
            r.nodes@[ORIGIN].future_covering_set@ == Seq::<BlockHash>::empty(),
            r.virtual_hint == ORIGIN,
    {
        let mut nodes: KeyMap<ReachabilityNode> = KeyMap::new();
        proof {
            nodes.lemma_len();
        }
        nodes.insert(
            ORIGIN,
            ReachabilityNode { parent: ORIGIN, depth: 0, future_covering_set: Vec::new() },
        );
        proof {
            nodes.lemma_len();
        }
        let r = ReachabilityStore { nodes, virtual_hint: ORIGIN };
        proof {
            assert(r.nodes@.dom() =~= Set::<BlockHash>::empty().insert(ORIGIN));
        }
        r
    }

    pub fn has(&self, h: BlockHash) -> (r: bool)
        requires
            self.wf(),
        ensures
            r == self.spec_has(h),
    {
        self.nodes.contains_key(h)
    }

    /// Walks the tree-parent chain of `b` looking for `a`.
    pub fn is_chain_ancestor_of(&self, a: BlockHash, b: BlockHash) -> (r: bool)
        requires
            self.wf(),
            self.spec_has(b),
        ensures
            r == spec_chain_ancestor(self.nodes@, a, b),
    {
        let ghost m = self.nodes@;
        let mut cur = b;
        loop
            invariant
                self.wf(),
                m == self.nodes@,
                self.spec_has(cur),
                spec_chain_ancestor(m, a, b) == spec_chain_ancestor(m, a, cur),
            decreases m[cur].depth,
        {
            if cur == a {
                return true;
            }
            if cur == ORIGIN {
                proof {
                    assert(!spec_chain_ancestor(m, a, ORIGIN));
                }
                return false;
            }
            let node = self.nodes.get(cur).unwrap();
            cur = node.parent;
        }
    }

    /// Full DAG ancestry: the tree chain, then the future covering set.
    pub fn is_dag_ancestor_of(&self, a: BlockHash, b: BlockHash) -> (r: bool)
        requires
            self.wf(),
            self.spec_has(a),
            self.spec_has(b),
        ensures
            r == spec_dag_ancestor(self.nodes@, a, b),
    {
        if self.is_chain_ancestor_of(a, b) {
            return true;
        }
        let ghost m = self.nodes@;
        let node = self.nodes.get(a).unwrap();
        let n = node.future_covering_set.len();
        for i in 0..n
            invariant
                self.wf(),
                m == self.nodes@,
                self.spec_has(a),
                self.spec_has(b),
                node == self.nodes@[a],
                n == node.future_covering_set@.len(),
                forall|j: int|
                    0 <= j < i ==> !spec_chain_ancestor(m, node.future_covering_set@[j], b),
        {
            if self.is_chain_ancestor_of(node.future_covering_set[i], b) {
                return true;
            }
        }
        false
    }

    /// Inserts a fresh leaf under `parent`.
    fn insert_node(&mut self, h: BlockHash, parent: BlockHash)
        requires
            old(self).wf(),
            !old(self).spec_has(h),
            old(self).spec_has(parent),
        ensures
            final(self).wf(),
            final(self).nodes@.dom() == old(self).nodes@.dom().insert(h),
            final(self).nodes@[h].parent == parent,
            final(self).nodes@[h].depth == old(self).nodes@[parent].depth + 1,
            final(self).nodes@[h].future_covering_set@ == Seq::<BlockHash>::empty(),
            forall|x: BlockHash|
                x != h && old(self).nodes@.contains_key(x) ==> final(self).nodes@[x] == old(
                    self,
                ).nodes@[x],
            final(self).virtual_hint == old(self).virtual_hint,
    {
        let n = self.nodes.len();
        let pdepth = self.nodes.get(parent).unwrap().depth;
        proof {
            assert(pdepth < n);
        }
        let node = ReachabilityNode { parent, depth: pdepth + 1, future_covering_set: Vec::new() };
        self.nodes.insert(h, node);
        proof {
            self.nodes.lemma_len();
            old(self).nodes.lemma_len();
            let m0 = old(self).nodes@;
            let m1 = self.nodes@;
            vstd::set::axiom_set_insert_len(m0.dom(), h);
            assert(m1.dom() =~= m0.dom().insert(h));
            assert(h != ORIGIN);
            assert forall|x: BlockHash| #[trigger] m1.contains_key(x) && x != ORIGIN implies {
                &&& m1.contains_key(m1[x].parent)
                &&& m1[x].depth == m1[m1[x].parent].depth + 1
            } by {
                if x != h {
                    assert(m0.contains_key(x));
                }
            }
            assert(final(self).wf());
        }
    }

    /// Records `item` in the future covering set of `h`.
    fn add_future_covering_item(&mut self, h: BlockHash, item: BlockHash)
        requires
            old(self).wf(),
            old(self).spec_has(h),
            old(self).spec_has(item),
        ensures
            final(self).wf(),
            final(self).nodes@.dom() == old(self).nodes@.dom(),
            final(self).nodes@[h].parent == old(self).nodes@[h].parent,
            final(self).nodes@[h].depth == old(self).nodes@[h].depth,
            final(self).nodes@[h].future_covering_set@ == old(
                self,
            ).nodes@[h].future_covering_set@.push(item),
            forall|x: BlockHash|
                x != h && old(self).nodes@.contains_key(x) ==> final(self).nodes@[x] == old(
                    self,
                ).nodes@[x],
            final(self).virtual_hint == old(self).virtual_hint,
    {
        let node = self.nodes.get(h).unwrap();
        let mut fcs = crate::header::copy_hashes(&node.future_covering_set);
        fcs.push(item);
        let parent = node.parent;
        let depth = node.depth;
        self.nodes.insert(
            h,
            ReachabilityNode { parent, depth, future_covering_set: fcs },
        );
        proof {
            let m0 = old(self).nodes@;
            let m1 = self.nodes@;
            assert(m1.dom() =~= m0.dom());
            assert(final(self).wf());
        }
    }
}

/// Replacing future covering sets and adding fresh nodes leaves the chain
/// relation among the old nodes unchanged, since it reads only parents and
/// depths.
pub proof fn lemma_chain_ancestor_frame(
    m0: Map<BlockHash, ReachabilityNode>,
    m1: Map<BlockHash, ReachabilityNode>,
    a: BlockHash,
    b: BlockHash,
)
    requires
        m0.contains_key(b),
        forall|x: BlockHash| #[trigger]
            m0.contains_key(x) ==> m1.contains_key(x) && m1[x].parent == m0[x].parent
                && m1[x].depth == m0[x].depth,
        forall|x: BlockHash| #[trigger] m0.contains_key(x) ==> m0.contains_key(m0[x].parent),
    ensures
        spec_chain_ancestor(m1, a, b) == spec_chain_ancestor(m0, a, b),
    decreases m0[b].depth,
{
    if a != b {
        let p = m0[b].parent;
        if m0[p].depth < m0[b].depth {
            lemma_chain_ancestor_frame(m0, m1, a, p);
        }
    }
}

/// `ORIGIN` is a tree ancestor of every node.
pub proof fn lemma_origin_reaches(store: &ReachabilityStore, b: BlockHash)
    requires
        store.wf(),
        store.spec_has(b),
    ensures
        spec_chain_ancestor(store.nodes@, ORIGIN, b),
    decreases store.nodes@[b].depth,
{
    if b != ORIGIN {
        lemma_origin_reaches(store, store.nodes@[b].parent);
    }
}

/// Accumulated reachability mutations: at most one fresh node, a list of
/// future-covering additions, and an optional new virtual hint. Queries see
/// the live store overlaid with the staged node; `commit` applies everything
/// to the live store in one step.
pub struct StagingReachability {
    pub new_node: Option<(BlockHash, BlockHash)>,
    pub fcs_adds: Vec<(BlockHash, BlockHash)>,
    pub hint: Option<BlockHash>,
}

impl StagingReachability {
    pub open spec fn spec_new_node(&self) -> Option<(BlockHash, BlockHash)> {
        self.new_node
    }

    pub open spec fn spec_fcs_targets(&self) -> Seq<BlockHash> {
        self.fcs_adds@.map_values(|p: (BlockHash, BlockHash)| p.0)
    }

    pub open spec fn spec_hint(&self) -> Option<BlockHash> {
        self.hint
    }

    /// The staged mutations can be applied on top of `live`.
    pub open spec fn valid_for(&self, live: &ReachabilityStore) -> bool {
        match self.new_node {
            None => self.fcs_adds@.len() == 0,
            Some((h, p)) => {
                &&& !live.spec_has(h)
                &&& live.spec_has(p)
                &&& forall|i: int|
                    0 <= i < self.fcs_adds@.len() ==> live.spec_has(#[trigger] self.fcs_adds@[i].0)
                        && self.fcs_adds@[i].1 == h
                &&& self.spec_fcs_targets().no_duplicates()
            },
        }
    }

    pub fn new() -> (r: Self)
        ensures
            r.spec_new_node() is None,
            r.spec_fcs_targets() == Seq::<BlockHash>::empty(),
            r.spec_hint() is None,
    {
        let r = StagingReachability { new_node: None, fcs_adds: Vec::new(), hint: None };
        proof {
            assert(r.spec_fcs_targets() =~= Seq::<BlockHash>::empty());
        }
        r
    }

    /// Whether `h` is visible through the overlay.
    pub fn has(&self, live: &ReachabilityStore, h: BlockHash) -> (r: bool)
        requires
            live.wf(),
        ensures
            r == (live.spec_has(h) || match self.spec_new_node() {
                Some((nh, _)) => nh == h,
                None => false,
            }),
    {
        if live.has(h) {
            return true;
        }
        match &self.new_node {
            Some((nh, _)) => *nh == h,
            None => false,
        }
    }

    /// Stages the insertion of `hash` with tree parent `parent`, entering it
    /// into the future covering set of every mergeset member.
    pub fn add_block(
        &mut self,
        live: &ReachabilityStore,
        hash: BlockHash,
        parent: BlockHash,
        mergeset: &Vec<BlockHash>,
    )
        requires
            old(self).spec_new_node() is None,
            old(self).fcs_adds@.len() == 0,
            live.wf(),
            !live.spec_has(hash),
            live.spec_has(parent),
            forall|i: int| 0 <= i < mergeset@.len() ==> live.spec_has(#[trigger] mergeset@[i]),
            mergeset@.no_duplicates(),
        ensures
            final(self).spec_new_node() == Some((hash, parent)),
            final(self).spec_fcs_targets() == mergeset@,
            forall|i: int|
                0 <= i < final(self).fcs_adds@.len() ==> #[trigger] final(self).fcs_adds@[i]
                    == (mergeset@[i], hash),
            final(self).spec_hint() == old(self).spec_hint(),
            final(self).valid_for(live),
    {
        self.new_node = Some((hash, parent));
        let n = mergeset.len();
        for i in 0..n
            invariant
                n == mergeset@.len(),
                self.fcs_adds@.len() == i,
                forall|j: int|
                    0 <= j < i ==> #[trigger] self.fcs_adds@[j] == (mergeset@[j], hash),
                self.new_node == Some((hash, parent)),
                self.hint == old(self).hint,
        {
            self.fcs_adds.push((mergeset[i], hash));
        }
        proof {
            assert(self.spec_fcs_targets() =~= mergeset@);
        }
    }

    /// Stages a new virtual-selected-parent hint.
    pub fn hint_virtual_selected_parent(&mut self, h: BlockHash)
        ensures
            final(self).spec_hint() == Some(h),
            final(self).spec_new_node() == old(self).spec_new_node(),
            final(self).fcs_adds == old(self).fcs_adds,
    {
        self.hint = Some(h);
    }

    /// Applies the staged mutations to the live store.
    pub fn commit(self, live: &mut ReachabilityStore)
        requires
            old(live).wf(),
            self.valid_for(old(live)),
        ensures
            final(live).wf(),
            match self.spec_new_node() {
                None => final(live).nodes@ == old(live).nodes@,
                Some((h, p)) => {
                    &&& final(live).nodes@.dom() == old(live).nodes@.dom().insert(h)
                    &&& final(live).nodes@[h].parent == p
                    &&& final(live).nodes@[h].depth == old(live).nodes@[p].depth + 1
                    &&& final(live).nodes@[h].future_covering_set@ == Seq::<BlockHash>::empty()
                    &&& forall|x: BlockHash| #[trigger]
                        old(live).nodes@.contains_key(x) ==> {
                            &&& final(live).nodes@[x].parent == old(live).nodes@[x].parent
                            &&& final(live).nodes@[x].depth == old(live).nodes@[x].depth
                            &&& final(live).nodes@[x].future_covering_set@ == if self
                                .spec_fcs_targets()
                                .contains(x) {
                                old(live).nodes@[x].future_covering_set@.push(h)
                            } else {
                                old(live).nodes@[x].future_covering_set@
                            }
                        }
                },
            },
            final(live).virtual_hint == match self.spec_hint() {
                Some(t) => t,
                None => old(live).virtual_hint,
            },
    {
        let StagingReachability { new_node, fcs_adds, hint } = self;
        let ghost targets = fcs_adds@.map_values(|p: (BlockHash, BlockHash)| p.0);
        match new_node {
            None => {},
            Some((h, p)) => {
                live.insert_node(h, p);
                let n = fcs_adds.len();
                for i in 0..n
                    invariant
                        n == fcs_adds@.len(),
                        targets == fcs_adds@.map_values(|q: (BlockHash, BlockHash)| q.0),
                        targets.no_duplicates(),
                        forall|j: int|
                            0 <= j < n ==> old(live).nodes@.contains_key(
                                #[trigger] fcs_adds@[j].0,
                            ) && fcs_adds@[j].1 == h,
                        live.wf(),
                        live.nodes@.dom() == old(live).nodes@.dom().insert(h),
                        live.nodes@[h].parent == p,
                        live.nodes@[h].depth == old(live).nodes@[p].depth + 1,
                        live.nodes@[h].future_covering_set@ == Seq::<BlockHash>::empty(),
                        !old(live).nodes@.contains_key(h),
                        forall|x: BlockHash| #[trigger]
                            old(live).nodes@.contains_key(x) ==> {
                                &&& live.nodes@[x].parent == old(live).nodes@[x].parent
                                &&& live.nodes@[x].depth == old(live).nodes@[x].depth
                                &&& live.nodes@[x].future_covering_set@ == if targets.subrange(
                                    0,
                                    i as int,
                                ).contains(x) {
                                    old(live).nodes@[x].future_covering_set@.push(h)
                                } else {
                                    old(live).nodes@[x].future_covering_set@
                                }
                            },
                        live.virtual_hint == old(live).virtual_hint,
                {
                    let (target, item) = fcs_adds[i];
                    proof {
                        assert(targets[i as int] == target);
                        assert(!targets.subrange(0, i as int).contains(target)) by {
                            if targets.subrange(0, i as int).contains(target) {
                                let j = choose|j: int|
                                    0 <= j < i && targets.subrange(0, i as int)[j] == target;
                                assert(targets[j] == targets[i as int]);
                            }
                        }
                    }
                    live.add_future_covering_item(target, item);
                    proof {
                        assert forall|x: BlockHash| #[trigger]
                            old(live).nodes@.contains_key(x) implies {
                            live.nodes@[x].future_covering_set@ == if targets.subrange(
                                0,
                                i + 1,
                            ).contains(x) {
                                old(live).nodes@[x].future_covering_set@.push(h)
                            } else {
                                old(live).nodes@[x].future_covering_set@
                            }
                        } by {
                            if x == target {
                                assert(targets.subrange(0, i + 1)[i as int] == target);
                            } else {
                                assert(targets.subrange(0, i + 1).contains(x)
                                    == targets.subrange(0, i as int).contains(x)) by {
                                    let s1 = targets.subrange(0, i + 1);
                                    let s0 = targets.subrange(0, i as int);
                                    if s1.contains(x) && x != target {
                                        let j = choose|j: int| 0 <= j < i + 1 && s1[j] == x;
                                        assert(j < i);
                                        assert(s0[j] == x);
                                    }
                                    if s0.contains(x) {
                                        let j = choose|j: int| 0 <= j < i && s0[j] == x;
                                        assert(s1[j] == x);
                                    }
                                }
                            }
                        }
                    }
                }
                proof {
                    assert(targets.subrange(0, n as int) =~= targets);
                }
            },
        }
        match hint {
            None => {},
            Some(t) => {
                live.virtual_hint = t;
            },
        }
    }
}

} // verus!
