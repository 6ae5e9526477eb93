//! The header processor: admits headers into the DAG.
//!
//! `process_header` validates a header, runs GHOSTDAG per level, and
//! commits all stores together; `consistent` is the cross-store invariant
//! every operation preserves.

use vstd::prelude::*;
use crate::config::Config;
use crate::errors::RuleError;
use crate::ghostdag::{ghostdag, ghostdag_post, ghostdag_prereqs, GhostdagData, GhostdagStore};
use crate::hashes::{spec_work_lt, work_lt, BlockHash, ORIGIN};
use crate::header::{copy_hashes, hashes_contain, hashes_distinct, Header};
use crate::keymap::{key_index, lemma_key_index};
use crate::pow::{calc_block_level, pow_passes, spec_block_level, spec_pow_passes};
use crate::reachability::{ReachabilityStore, StagingReachability};
use crate::relations::RelationsStore;
use crate::status::BlockStatus;
use crate::stores::{
    DaaStore, DepthInfo, DepthStore, HeadersSelectedTipStore, HeadersStore, PruningPointInfo,
    PruningStore, SortableBlock, StatusesStore, StoredHeader,
};

verus! {

/// Observability counters; statistics only, never used for decisions.
pub struct ProcessingCounters {
    /// Headers admitted.
    pub header_counts: u64,
    /// Direct-parent edges observed on admitted headers.
    pub dep_counts: u64,
    /// Headers marked invalid.
    pub invalidation_counts: u64,
}

impl ProcessingCounters {
    pub fn new() -> (r: Self)
        ensures
            r.header_counts == 0,
            r.dep_counts == 0,
            r.invalidation_counts == 0,
    {
        ProcessingCounters { header_counts: 0, dep_counts: 0, invalidation_counts: 0 }
    }
}

/// The pipeline stage owning every store the header path touches.
pub struct HeaderProcessor {
    // Configuration.
    pub genesis_hash: BlockHash,
    pub genesis_timestamp: u64,
    pub genesis_bits: u32,
    pub timestamp_deviation_tolerance: u64,
    pub target_time_per_block: u64,
    pub max_block_parents: u8,
    pub difficulty_window_size: usize,
    pub mergeset_size_limit: u64,
    pub skip_proof_of_work: bool,
    pub max_block_level: u8,
    pub process_genesis: bool,
    pub k_per_level: Vec<u16>,
    // Stores.
    pub relations_stores: Vec<RelationsStore>,
    pub reachability_store: ReachabilityStore,
    pub ghostdag_stores: Vec<GhostdagStore>,
    pub statuses_store: StatusesStore,
    pub pruning_store: PruningStore,
    pub daa_store: DaaStore,
    pub headers_store: HeadersStore,
    pub headers_selected_tip_store: HeadersSelectedTipStore,
    pub depth_store: DepthStore,
    // Counters.
    pub counters: ProcessingCounters,
}

impl HeaderProcessor {
    /// Number of DAG levels.
    pub open spec fn levels(&self) -> int {
        self.max_block_level as int + 1
    }

    /// `h` carries a status other than `Invalid`.
    pub open spec fn admitted(&self, h: BlockHash) -> bool {
        self.statuses_store.map@.contains_key(h)
            && self.statuses_store.map@[h].spec_is_admitted()
    }

    /// Per-store well-formedness and matching level counts.
    pub open spec fn stores_wf(&self) -> bool {
        &&& self.relations_stores@.len() == self.levels()
        &&& self.ghostdag_stores@.len() == self.levels()
        &&& self.k_per_level@.len() == self.levels()
        &&& forall|l: int| 0 <= l < self.levels() ==> (#[trigger] self.relations_stores@[l]).wf()
        &&& forall|l: int| 0 <= l < self.levels() ==> (#[trigger] self.ghostdag_stores@[l]).wf()
        &&& self.reachability_store.wf()
        &&& self.statuses_store.wf()
        &&& self.headers_store.wf()
        &&& self.daa_store.wf()
        &&& self.depth_store.wf()
        &&& self.genesis_hash != ORIGIN
    }

    /// `ORIGIN` was inserted with empty parents at every level.
    pub open spec fn origin_ready(&self) -> bool {
        forall|l: int|
            0 <= l < self.levels() ==> (#[trigger] self.relations_stores@[l]).spec_has(ORIGIN)
    }

    /// `ORIGIN` is either everywhere or nowhere, always with empty parents;
    /// every other relations entry names at least one parent.
    pub open spec fn origin_uniform(&self) -> bool {
        &&& forall|l: int|
            0 <= l < self.levels() ==> (#[trigger] self.relations_stores@[l].spec_has(ORIGIN)
                <==> self.relations_stores@[0].spec_has(ORIGIN))
        &&& forall|l: int|
            0 <= l < self.levels() && #[trigger] self.relations_stores@[l].spec_has(ORIGIN)
                ==> self.relations_stores@[l].parents@[ORIGIN]@.len() == 0
        &&& forall|l: int, h: BlockHash|
            0 <= l < self.levels() && #[trigger] self.relations_stores@[l].spec_has(h) && h
                != ORIGIN ==> self.relations_stores@[l].parents@[h]@.len() >= 1
    }

    /// Cross-store coherence: what relations know, the reachability index,
    /// the GHOSTDAG stores, and the headers store know as well.
    pub open spec fn coherent(&self) -> bool {
        &&& forall|l: int, h: BlockHash|
            0 <= l < self.levels() && #[trigger] self.relations_stores@[l].spec_has(h)
                ==> self.reachability_store.spec_has(h)
        &&& forall|l: int, h: BlockHash|
            0 <= l < self.levels() && #[trigger] self.relations_stores@[l].spec_has(h) && h
                != ORIGIN ==> self.ghostdag_stores@[l].spec_has(h)
                && self.headers_store.map@.contains_key(h)
        &&& forall|l: int, h: BlockHash|
            0 <= l < self.levels() && #[trigger] self.ghostdag_stores@[l].spec_has(h)
                ==> self.reachability_store.spec_has(h) && self.headers_store.map@.contains_key(h)
        &&& forall|l: int, h: BlockHash, i: int|
            0 <= l < self.levels() && #[trigger] self.ghostdag_stores@[l].spec_has(h) && 0 <= i
                < self.ghostdag_stores@[l].map@[h].mergeset_blues@.len()
                ==> self.reachability_store.spec_has(
                #[trigger] self.ghostdag_stores@[l].map@[h].mergeset_blues@[i],
            )
    }

    /// Every admitted hash is present in the headers store, the reachability
    /// index, and — up to its block level — in relations and GHOSTDAG;
    /// relations hold nothing else; recorded parents are admitted; the
    /// reachability tree parent is the level-0 selected parent.
    pub open spec fn admitted_closed(&self) -> bool {
        &&& forall|h: BlockHash|
            #[trigger] self.admitted(h) ==> h != ORIGIN && self.headers_store.map@.contains_key(h)
                && self.headers_store.map@[h].block_level <= self.max_block_level
                && self.reachability_store.spec_has(h)
        &&& forall|h: BlockHash, l: int|
            #[trigger] self.admitted(h) && 0 <= l <= self.headers_store.map@[h].block_level
                ==> #[trigger] self.relations_stores@[l].spec_has(h)
                && self.ghostdag_stores@[l].spec_has(h)
        &&& forall|l: int, h: BlockHash|
            0 <= l < self.levels() && #[trigger] self.relations_stores@[l].spec_has(h) ==> h
                == ORIGIN || self.admitted(h)
        &&& forall|h: BlockHash, pj: int|
            #[trigger] self.admitted(h) && 0 <= pj
                < self.relations_stores@[0].parents@[h]@.len() ==> (
            #[trigger] self.relations_stores@[0].parents@[h]@[pj]) == ORIGIN || self.admitted(
                self.relations_stores@[0].parents@[h]@[pj],
            )
        &&& forall|h: BlockHash|
            #[trigger] self.admitted(h) ==> self.reachability_store.nodes@[h].parent
                == self.ghostdag_stores@[0].map@[h].selected_parent
        &&& forall|h: BlockHash|
            #[trigger] self.headers_store.map@.contains_key(h) ==> self.admitted(h)
        &&& forall|l: int, h: BlockHash|
            0 <= l < self.levels() && #[trigger] self.ghostdag_stores@[l].spec_has(h)
                ==> self.admitted(h)
        &&& forall|h: BlockHash|
            #[trigger] self.reachability_store.spec_has(h) ==> h == ORIGIN || self.admitted(h)
        &&& forall|h: BlockHash|
            #[trigger] self.daa_store.map@.contains_key(h) ==> self.admitted(h)
        &&& forall|h: BlockHash|
            #[trigger] self.depth_store.map@.contains_key(h) ==> self.admitted(h)
    }

    /// The headers-selected-tip is the admitted header of maximum
    /// `(blue_work, hash)`, or the origin sentinel before any was admitted.
    pub open spec fn tip_ok(&self) -> bool {
        match self.headers_selected_tip_store.tip {
            None => forall|h: BlockHash| !(#[trigger] self.admitted(h)),
            Some(t) => {
                &&& ((t.hash == ORIGIN && t.blue_work == 0) || (self.admitted(t.hash)
                    && self.headers_store.map@[t.hash].header.blue_work == t.blue_work))
                &&& forall|h: BlockHash|
                    #[trigger] self.admitted(h) ==> !spec_work_lt(
                        t.blue_work,
                        t.hash,
                        self.headers_store.map@[h].header.blue_work,
                        h,
                    )
            },
        }
    }

    /// The whole-system invariant; every public operation preserves it.
    pub open spec fn consistent(&self) -> bool {
        &&& self.stores_wf()
        &&& self.origin_uniform()
        &&& self.coherent()
        &&& self.admitted_closed()
        &&& self.tip_ok()
    }

    /// Builds a processor with empty stores from a configuration.
    pub fn new(config: &Config) -> (r: Self)
        requires
            config.params.wf(),
        ensures
            r.consistent(),
            r.statuses_store.map@ == Map::<BlockHash, BlockStatus>::empty(),
            r.headers_selected_tip_store.tip is None,
            !r.relations_stores@[0].spec_has(ORIGIN),
            r.genesis_hash == config.params.genesis_hash,
            r.max_block_level == config.params.max_block_level,
            r.skip_proof_of_work == config.params.skip_proof_of_work,
            r.process_genesis == config.process_genesis,
            r.genesis_bits == config.params.genesis_bits,
            r.genesis_timestamp == config.params.genesis_timestamp,
            r.mergeset_size_limit == config.params.mergeset_size_limit,
            r.max_block_parents == config.params.max_block_parents,
            r.difficulty_window_size == config.params.difficulty_window_size,
            r.timestamp_deviation_tolerance == config.params.timestamp_deviation_tolerance,
            r.k_per_level@ == config.params.k_per_level@,
            r.pruning_store.info is None,
            r.counters.header_counts == 0,
    {
        let levels = config.params.max_block_level as usize + 1;
        let mut relations_stores: Vec<RelationsStore> = Vec::new();
        let mut ghostdag_stores: Vec<GhostdagStore> = Vec::new();
        for i in 0..levels
            invariant
                relations_stores@.len() == i,
                ghostdag_stores@.len() == i,
                forall|l: int|
                    0 <= l < i ==> (#[trigger] relations_stores@[l]).wf()
                        && relations_stores@[l].parents@ =~= Map::<
                        BlockHash,
                        Vec<BlockHash>,
                    >::empty(),
                forall|l: int|
                    0 <= l < i ==> (#[trigger] ghostdag_stores@[l]).wf()
                        && ghostdag_stores@[l].map@ =~= Map::<BlockHash, GhostdagData>::empty(),
        {
            relations_stores.push(RelationsStore::new());
            ghostdag_stores.push(GhostdagStore::new());
        }
        let r = HeaderProcessor {
            genesis_hash: config.params.genesis_hash,
            genesis_timestamp: config.params.genesis_timestamp,
            genesis_bits: config.params.genesis_bits,
            timestamp_deviation_tolerance: config.params.timestamp_deviation_tolerance,
            target_time_per_block: config.params.target_time_per_block,
            max_block_parents: config.params.max_block_parents,
            difficulty_window_size: config.params.difficulty_window_size,
            mergeset_size_limit: config.params.mergeset_size_limit,
            skip_proof_of_work: config.params.skip_proof_of_work,
            max_block_level: config.params.max_block_level,
            process_genesis: config.process_genesis,
            k_per_level: copy_k(&config.params.k_per_level),
            relations_stores,
            reachability_store: ReachabilityStore::new(),
            ghostdag_stores,
            statuses_store: StatusesStore::new(),
            pruning_store: PruningStore::new(),
            daa_store: DaaStore::new(),
            headers_store: HeadersStore::new(),
            headers_selected_tip_store: HeadersSelectedTipStore::new(),
            depth_store: DepthStore::new(),
            counters: ProcessingCounters::new(),
        };
        r
    }

    /// Whether `h` already carries any status.
    pub fn header_was_processed(&self, h: BlockHash) -> (r: bool)
        requires
            self.consistent(),
        ensures
            r == self.statuses_store.map@.contains_key(h),
    {
        self.statuses_store.has(h)
    }

    /// Bootstrap: insert `ORIGIN` with empty parents at every level and
    /// point the selected tip at it. Idempotent.
    pub fn process_origin_if_needed(&mut self)
        requires
            old(self).consistent(),
        ensures
            final(self).consistent(),
            final(self).origin_ready(),
            final(self).headers_selected_tip_store.tip is Some,
            old(self).origin_ready() && old(self).headers_selected_tip_store.tip is Some
                ==> *final(self) == *old(self),
            final(self).statuses_store == old(self).statuses_store,
            final(self).headers_store == old(self).headers_store,
            final(self).ghostdag_stores == old(self).ghostdag_stores,
            final(self).reachability_store == old(self).reachability_store,
            final(self).config_unchanged(old(self)),
            !old(self).origin_ready() ==> final(self).headers_selected_tip_store.tip == Some(
                SortableBlock { hash: ORIGIN, blue_work: 0 },
            ),
    {
        if self.relations_stores[0].has(ORIGIN) {
            proof {
                assert(self.origin_ready()) by {
                    assert forall|l: int|
                        0 <= l < self.levels() implies (
                    #[trigger] self.relations_stores@[l]).spec_has(ORIGIN) by {}
                }
            }
            match self.headers_selected_tip_store.get() {
                Ok(_) => {},
                Err(_) => {
                    // An origin-only state whose tip was never set: point it
                    // at the sentinel. No header is admitted in this state.
                    proof {
                        assert(forall|h: BlockHash| !#[trigger] self.admitted(h));
                    }
                    let ghost before = *self;
                    self.headers_selected_tip_store.set(
                        SortableBlock { hash: ORIGIN, blue_work: 0 },
                    );
                    proof {
                        assert(forall|h: BlockHash|
                            #[trigger] self.admitted(h) == before.admitted(h));
                        assert(self.tip_ok());
                    }
                },
            }
            return ;
        }
        proof {
            lemma_no_admitted_without_origin(self);
        }
        let levels = self.max_block_level as usize + 1;
        let ghost pre = *self;
        let mut l: usize = 0;
        while l < levels
            invariant
                levels == pre.levels(),
                l <= levels,
                self.relations_stores@.len() == levels,
                pre.consistent(),
                !pre.relations_stores@[0].spec_has(ORIGIN),
                self.genesis_hash == pre.genesis_hash,
                self.max_block_level == pre.max_block_level,
                self.skip_proof_of_work == pre.skip_proof_of_work,
                self.process_genesis == pre.process_genesis,
                self.k_per_level == pre.k_per_level,
                self.ghostdag_stores == pre.ghostdag_stores,
                self.statuses_store == pre.statuses_store,
                self.headers_store == pre.headers_store,
                self.reachability_store == pre.reachability_store,
                self.daa_store == pre.daa_store,
                self.depth_store == pre.depth_store,
                self.headers_selected_tip_store == pre.headers_selected_tip_store,
                self.pruning_store == pre.pruning_store,
                self.counters == pre.counters,
                self.genesis_timestamp == pre.genesis_timestamp,
                self.genesis_bits == pre.genesis_bits,
                self.timestamp_deviation_tolerance == pre.timestamp_deviation_tolerance,
                self.target_time_per_block == pre.target_time_per_block,
                self.max_block_parents == pre.max_block_parents,
                self.difficulty_window_size == pre.difficulty_window_size,
                self.mergeset_size_limit == pre.mergeset_size_limit,
                forall|j: int|
                    l <= j < levels ==> #[trigger] self.relations_stores@[j]
                        == pre.relations_stores@[j],
                forall|j: int|
                    0 <= j < l ==> (#[trigger] self.relations_stores@[j]).wf()
                        && self.relations_stores@[j].spec_has(ORIGIN)
                        && self.relations_stores@[j].parents@[ORIGIN]@.len() == 0
                        && (forall|h: BlockHash|
                        #[trigger] self.relations_stores@[j].spec_has(h) ==> h == ORIGIN
                            || pre.relations_stores@[j].spec_has(h))
                        && (forall|h: BlockHash|
                        #[trigger] pre.relations_stores@[j].spec_has(h)
                            ==> self.relations_stores@[j].spec_has(h)
                            && self.relations_stores@[j].parents@[h]
                            == pre.relations_stores@[j].parents@[h]),
            decreases levels - l,
        {
            let ghost before = self.relations_stores@;
            let mut store = self.relations_stores.remove(l);
            proof {
                assert(store == pre.relations_stores@[l as int]);
                assert(!store.spec_has(ORIGIN)) by {
                    assert(pre.relations_stores@[l as int].spec_has(ORIGIN)
                        <==> pre.relations_stores@[0].spec_has(ORIGIN));
                }
            }
            store.insert(ORIGIN, Vec::new());
            self.relations_stores.insert(l, store);
            proof {
                assert(self.relations_stores@ =~= before.update(l as int, store));
            }
            l = l + 1;
        }
        self.headers_selected_tip_store.set(SortableBlock { hash: ORIGIN, blue_work: 0 });
        proof {
            lemma_origin_bootstrap(&pre, self);
        }
    }


    /// Commit protocol: writes the new header to every store as one step.
    /// All stores are updated together, so the consistency invariant holds
    /// again when the function returns; nothing is visible in between.
    pub fn commit_header(
        &mut self,
        header: &Header,
        non_pruned_parents: &Vec<Vec<BlockHash>>,
        gd_data: Vec<GhostdagData>,
        block_level: u8,
        mergeset_non_daa: Vec<BlockHash>,
        depth_info: DepthInfo,
    )
        requires
            old(self).consistent(),
            old(self).origin_ready(),
            old(self).headers_selected_tip_store.tip is Some,
            header.hash != ORIGIN,
            !old(self).statuses_store.map@.contains_key(header.hash),
            !old(self).headers_store.map@.contains_key(header.hash),
            !old(self).reachability_store.spec_has(header.hash),
            !old(self).daa_store.map@.contains_key(header.hash),
            !old(self).depth_store.map@.contains_key(header.hash),
            forall|l: int|
                0 <= l < old(self).levels() ==> !#[trigger] old(self).relations_stores@[l].spec_has(header.hash) && !old(self).ghostdag_stores@[l].spec_has(header.hash),
            block_level <= old(self).max_block_level,
            non_pruned_parents@.len() == block_level as int + 1,
            gd_data@.len() == block_level as int + 1,
            forall|l: int|
                0 <= l <= block_level as int ==> ((#[trigger] non_pruned_parents@[l])@.len() >= 1
                    && non_pruned_parents@[l]@.no_duplicates() && ((non_pruned_parents@[l]@
                    =~= seq![ORIGIN]) || (forall|i: int|
                    0 <= i < non_pruned_parents@[l]@.len() ==> #[trigger] non_pruned_parents@[l]@[i]
                        != ORIGIN && old(self).relations_stores@[l].spec_has(
                        non_pruned_parents@[l]@[i],
                    )))),
            forall|l: int|
                0 <= l <= block_level as int ==> ghostdag_post(
                    old(self).relations_stores@[l],
                    old(self).reachability_store,
                    old(self).ghostdag_stores@[l],
                    old(self).headers_store,
                    old(self).k_per_level@[l],
                    non_pruned_parents@[l]@,
                    #[trigger] gd_data@[l],
                ),
        ensures
            final(self).consistent(),
            final(self).origin_ready(),
            final(self).config_unchanged(old(self)),
            final(self).statuses_store.map@ == old(self).statuses_store.map@.insert(
                header.hash,
                BlockStatus::HeaderOnly,
            ),
            final(self).headers_store.map@.dom() == old(self).headers_store.map@.dom().insert(
                header.hash,
            ),
            final(self).headers_store.map@[header.hash].block_level == block_level,
            final(self).headers_store.map@[header.hash].header.hash == header.hash,
            final(self).headers_store.map@[header.hash].header.blue_work == header.blue_work,
            final(self).headers_store.map@[header.hash].header.timestamp == header.timestamp,
            final(self).headers_store.map@[header.hash].header.bits == header.bits,
            forall|x: BlockHash|
                x != header.hash && old(self).headers_store.map@.contains_key(x) ==> final(self).headers_store.map@[x] == old(self).headers_store.map@[x],
            forall|l: int|
                #![trigger non_pruned_parents@[l]]
                0 <= l <= block_level as int ==> final(self).relations_stores@[l].spec_has(
                    header.hash,
                ) && final(self).relations_stores@[l].parents@[header.hash]@
                    == non_pruned_parents@[l]@ && final(self).ghostdag_stores@[l].map@ == old(self).ghostdag_stores@[l].map@.insert(header.hash, gd_data@[l]),
            forall|l: int|
                (block_level as int) < l && l < old(self).levels() ==> (#[trigger] final(self).relations_stores@[l]) == old(self).relations_stores@[l] && final(self).ghostdag_stores@[l] == old(self).ghostdag_stores@[l],
            final(self).reachability_store.nodes@.dom() == old(self).reachability_store.nodes@.dom().insert(header.hash),
            final(self).reachability_store.nodes@[header.hash].parent
                == gd_data@[0].selected_parent,
            forall|x: BlockHash|
                #[trigger] old(self).reachability_store.nodes@.contains_key(x) ==> final(self).reachability_store.nodes@[x].parent == old(self).reachability_store.nodes@[x].parent && final(self).reachability_store.nodes@[x].depth == old(self).reachability_store.nodes@[x].depth,
            match old(self).headers_selected_tip_store.tip {
                Some(t0) => final(self).headers_selected_tip_store.tip == Some(
                    if spec_work_lt(t0.blue_work, t0.hash, header.blue_work, header.hash) {
                        SortableBlock { hash: header.hash, blue_work: header.blue_work }
                    } else {
                        t0
                    },
                ),
                None => false,
            },
            final(self).daa_store.map@ == old(self).daa_store.map@.insert(
                header.hash,
                mergeset_non_daa,
            ),
            final(self).depth_store.map@ == old(self).depth_store.map@.insert(
                header.hash,
                depth_info,
            ),
            // Future covering sets: every level-0 mergeset member gains the
            // new hash; everyone else keeps its set.
            forall|x: BlockHash|
                #[trigger] old(self).reachability_store.nodes@.contains_key(x) ==> final(self).reachability_store.nodes@[x].future_covering_set@ == (if (gd_data@[0]
                    .mergeset_blues@.len() > 0 && gd_data@[0].mergeset_blues@.drop_first()
                    .contains(x)) || gd_data@[0].mergeset_reds@.contains(x) {
                    old(self).reachability_store.nodes@[x].future_covering_set@.push(header.hash)
                } else {
                    old(self).reachability_store.nodes@[x].future_covering_set@
                }),
            final(self).pruning_store == old(self).pruning_store,
            final(self).counters.header_counts == crate::ghostdag::sat_add_u64(
                old(self).counters.header_counts as int,
                1,
            ),
            final(self).counters.dep_counts == crate::ghostdag::sat_add_u64(
                old(self).counters.dep_counts as int,
                header.spec_direct_parents().len() as int,
            ),
            final(self).counters.invalidation_counts == old(self).counters.invalidation_counts,
    {
        let ghost pre = *self;
        let ghost gdv = gd_data@;
        let h = header.hash;
        let bl = block_level as usize;

        // Values needed after the GHOSTDAG records move into their stores.
        let sp0 = gd_data[0].selected_parent;
        let mut fcs_targets = copy_hashes(&gd_data[0].mergeset_blues);
        if fcs_targets.len() > 0 {
            fcs_targets.remove(0);
        }
        let ghost blues0 = gd_data@[0].mergeset_blues@;
        let ghost reds0 = gd_data@[0].mergeset_reds@;
        proof {
            if blues0.len() > 0 {
                assert(fcs_targets@ =~= blues0.drop_first());
            }
        }
        let reds = copy_hashes(&gd_data[0].mergeset_reds);
        let mut fi: usize = 0;
        let rn = reds.len();
        while fi < rn
            invariant
                rn == reds0.len(),
                reds@ == reds0,
                fi <= rn,
                fcs_targets@ == (if blues0.len() > 0 {
                    blues0.drop_first()
                } else {
                    Seq::<BlockHash>::empty()
                }) + reds0.subrange(0, fi as int),
            decreases rn - fi,
        {
            let ghost prefix = fcs_targets@;
            fcs_targets.push(reds[fi]);
            proof {
                assert(fcs_targets@ =~= (if blues0.len() > 0 {
                    blues0.drop_first()
                } else {
                    Seq::<BlockHash>::empty()
                }) + reds0.subrange(0, fi + 1));
            }
            fi = fi + 1;
        }
        proof {
            assert(reds0.subrange(0, rn as int) =~= reds0);
        }

        // Append-only stores first: GHOSTDAG records per level (moved out
        // from the back), header blob, DAA set, depth info.
        let mut gd_rest = gd_data;
        proof {
            assert(gdv.subrange(0, (bl + 1) as int) =~= gdv);
        }
        let mut l = bl + 1;
        while l > 0
            invariant
                l <= bl + 1,
                bl + 1 <= pre.levels(),
                gdv.len() == bl + 1,
                non_pruned_parents@.len() == bl + 1,
                pre.consistent(),
                gd_rest@ == gdv.subrange(
                    0,
                    l as int,
                ),
                self.ghostdag_stores@.len() == pre.levels(),
                forall|j: int|
                    0 <= j < l ==> #[trigger] self.ghostdag_stores@[j]
                        == pre.ghostdag_stores@[j],
                forall|j: int|
                    bl < j < pre.levels() ==> #[trigger] self.ghostdag_stores@[j]
                        == pre.ghostdag_stores@[j],
                forall|j: int|
                    l <= j <= bl ==> (#[trigger] self.ghostdag_stores@[j]).wf()
                        && self.ghostdag_stores@[j].map@ == pre.ghostdag_stores@[j].map@.insert(
                        h,
                        gdv[j],
                    ),
                same_except_gd(&pre, self),
                h == header.hash,
                h != ORIGIN,
                forall|j: int|
                    0 <= j < pre.levels() ==> !#[trigger] pre.ghostdag_stores@[j].spec_has(h)
                        && !pre.relations_stores@[j].spec_has(h),
                forall|j: int|
                    0 <= j <= block_level as int ==> ghostdag_post(
                        pre.relations_stores@[j],
                        pre.reachability_store,
                        pre.ghostdag_stores@[j],
                        pre.headers_store,
                        pre.k_per_level@[j],
                        non_pruned_parents@[j]@,
                        #[trigger] gdv[j],
                    ),
                forall|j: int|
                    0 <= j <= block_level as int ==> ((
                    #[trigger] non_pruned_parents@[j])@.len() >= 1 && ((non_pruned_parents@[j]@
                    =~= seq![ORIGIN]) || (forall|i: int|
                    0 <= i < non_pruned_parents@[j]@.len() ==> #[trigger] non_pruned_parents@[j]@[i]
                        != ORIGIN && pre.relations_stores@[j].spec_has(
                        non_pruned_parents@[j]@[i],
                    )))),
                bl == block_level as usize,
            decreases l,
        {
            l = l - 1;
            let d = gd_rest.pop().unwrap();
            let ghost gview = gdv;
            proof {
                assert(gview.subrange(0, l + 1).last() == gview[l as int]);
                assert(gview.subrange(0, l + 1).drop_last() =~= gview.subrange(0, l as int));
                assert(ghostdag_post(
                    pre.relations_stores@[l as int],
                    pre.reachability_store,
                    pre.ghostdag_stores@[l as int],
                    pre.headers_store,
                    pre.k_per_level@[l as int],
                    non_pruned_parents@[l as int]@,
                    gview[l as int],
                ));
                if !(non_pruned_parents@[l as int]@ =~= seq![ORIGIN]) {
                    assert(crate::ghostdag::is_selected_parent(
                        pre.ghostdag_stores@[l as int].map@,
                        non_pruned_parents@[l as int]@,
                        d.selected_parent,
                    ));
                    assert(non_pruned_parents@[l as int]@.contains(d.selected_parent));
                    let jp = choose|jp: int|
                        0 <= jp < non_pruned_parents@[l as int]@.len()
                            && non_pruned_parents@[l as int]@[jp] == d.selected_parent;
                    assert(pre.relations_stores@[l as int].spec_has(d.selected_parent));
                    assert(pre.ghostdag_stores@[l as int].spec_has(d.selected_parent));
                }
            }
            let ghost before = self.ghostdag_stores@;
            let mut store = self.ghostdag_stores.remove(l);
            store.insert(h, d);
            self.ghostdag_stores.insert(l, store);
            proof {
                assert(self.ghostdag_stores@ =~= before.update(l as int, store));
            }
        }
        proof {
            assert(gd_rest@ =~= Seq::<GhostdagData>::empty());
        }

        self.headers_store.insert(crate::header::clone_header(header), block_level);
        self.daa_store.insert(h, mergeset_non_daa);
        self.depth_store.insert(h, depth_info);

        // Stage reachability: the new node under its selected parent, and a
        // future-covering entry for every mergeset member.
        let mut staging = StagingReachability::new();
        proof {
            lemma_fcs_targets_ok(&pre, non_pruned_parents@[0]@, gdv[0], fcs_targets@);
            assert(self.reachability_store == pre.reachability_store);
        }
        staging.add_block(&self.reachability_store, h, sp0, &fcs_targets);
        let ghost fcs_view = fcs_targets@;

        // Selected-tip rule.
        let prev = match self.headers_selected_tip_store.get() {
            Ok(t) => t,
            Err(_) => SortableBlock { hash: ORIGIN, blue_work: 0 },
        };
        if work_lt(prev.blue_work, prev.hash, header.blue_work, h) {
            staging.hint_virtual_selected_parent(h);
            self.headers_selected_tip_store.set(
                SortableBlock { hash: h, blue_work: header.blue_work },
            );
        }

        // Relations per level.
        let ghost mid = *self;
        let mut l2: usize = 0;
        while l2 < bl + 1
            invariant
                l2 <= bl + 1,
                bl + 1 <= pre.levels(),
                pre.consistent(),
                pre.origin_ready(),
                self.relations_stores@.len() == pre.levels(),
                forall|j: int|
                    l2 <= j < pre.levels() ==> #[trigger] self.relations_stores@[j]
                        == pre.relations_stores@[j],
                forall|j: int|
                    0 <= j < l2 ==> (#[trigger] self.relations_stores@[j]).wf()
                        && self.relations_stores@[j].spec_has(h)
                        && self.relations_stores@[j].parents@[h]@ == non_pruned_parents@[j]@
                        && self.relations_stores@[j].parents@ == pre.relations_stores@[j].parents@
                            .insert(h, self.relations_stores@[j].parents@[h])
                        && self.relations_stores@[j].children@.dom()
                            == pre.relations_stores@[j].children@.dom().insert(h),
                same_except_relations(&mid, self),
                mid.relations_stores == pre.relations_stores,
                h == header.hash,
                h != ORIGIN,
                forall|j: int|
                    0 <= j < pre.levels() ==> !#[trigger] pre.relations_stores@[j].spec_has(h),
                forall|j: int|
                    0 <= j <= block_level as int ==> ((
                    #[trigger] non_pruned_parents@[j])@.len() >= 1 && non_pruned_parents@[j]@
                        .no_duplicates() && ((non_pruned_parents@[j]@ =~= seq![ORIGIN]) || (
                    forall|i: int|
                        0 <= i < non_pruned_parents@[j]@.len()
                            ==> #[trigger] non_pruned_parents@[j]@[i] != ORIGIN
                            && pre.relations_stores@[j].spec_has(non_pruned_parents@[j]@[i])))),
                bl == block_level as usize,
                non_pruned_parents@.len() == bl + 1,
            decreases bl + 1 - l2,
        {
            let npp_l = copy_hashes(&non_pruned_parents[l2]);
            proof {
                if non_pruned_parents@[l2 as int]@ =~= seq![ORIGIN] {
                    assert(pre.relations_stores@[l2 as int].spec_has(ORIGIN));
                    assert(forall|i: int|
                        0 <= i < npp_l@.len() ==> pre.relations_stores@[l2 as int].spec_has(
                            #[trigger] npp_l@[i],
                        ));
                }
            }
            let ghost before = self.relations_stores@;
            let mut store = self.relations_stores.remove(l2);
            store.insert(h, npp_l);
            self.relations_stores.insert(l2, store);
            proof {
                assert(self.relations_stores@ =~= before.update(l2 as int, store));
            }
            l2 = l2 + 1;
        }

        // Status, then the reachability staging, as one visible step.
        self.statuses_store.set(h, BlockStatus::HeaderOnly);
        staging.commit(&mut self.reachability_store);

        // Counters.
        if self.counters.header_counts < u64::MAX {
            self.counters.header_counts = self.counters.header_counts + 1;
        }
        let dp = header.direct_parents();
        if u64::MAX - self.counters.dep_counts < dp.len() as u64 {
            self.counters.dep_counts = u64::MAX;
        } else {
            self.counters.dep_counts = self.counters.dep_counts + dp.len() as u64;
        }

        proof {
            lemma_commit_consistent(&pre, self, header, non_pruned_parents, gdv, block_level);
            // The staged covering-set targets are exactly the level-0
            // mergeset: the blue tail followed by the reds.
            assert forall|x: BlockHash|
                #[trigger] pre.reachability_store.nodes@.contains_key(x) implies
                self.reachability_store.nodes@[x].future_covering_set@ == (if (gdv[0]
                .mergeset_blues@.len() > 0 && gdv[0].mergeset_blues@.drop_first().contains(x))
                || gdv[0].mergeset_reds@.contains(x) {
                pre.reachability_store.nodes@[x].future_covering_set@.push(h)
            } else {
                pre.reachability_store.nodes@[x].future_covering_set@
            }) by {
                let tail = if blues0.len() > 0 {
                    blues0.drop_first()
                } else {
                    Seq::<BlockHash>::empty()
                };
                assert(fcs_view =~= tail + reds0);
                assert(fcs_view.contains(x) == (tail.contains(x) || reds0.contains(x))) by {
                    if fcs_view.contains(x) {
                        let j = choose|j: int| 0 <= j < fcs_view.len() && fcs_view[j] == x;
                        if j < tail.len() {
                            assert(tail[j] == x);
                        } else {
                            assert(reds0[j - tail.len()] == x);
                        }
                    }
                    if tail.contains(x) {
                        let j = choose|j: int| 0 <= j < tail.len() && tail[j] == x;
                        assert(fcs_view[j] == x);
                    }
                    if reds0.contains(x) {
                        let j = choose|j: int| 0 <= j < reds0.len() && reds0[j] == x;
                        assert(fcs_view[tail.len() + j] == x);
                    }
                }
            }
        }
    }


    /// Records `h` as invalid; no other store is touched.
    fn mark_invalid(&mut self, h: BlockHash)
        requires
            old(self).consistent(),
            !old(self).statuses_store.map@.contains_key(h),
        ensures
            final(self).consistent(),
            final(self).statuses_store.map@ == old(self).statuses_store.map@.insert(
                h,
                BlockStatus::Invalid,
            ),
            final(self).headers_store == old(self).headers_store,
            final(self).relations_stores == old(self).relations_stores,
            final(self).ghostdag_stores == old(self).ghostdag_stores,
            final(self).reachability_store == old(self).reachability_store,
            final(self).headers_selected_tip_store == old(self).headers_selected_tip_store,
            final(self).daa_store == old(self).daa_store,
            final(self).depth_store == old(self).depth_store,
            final(self).pruning_store == old(self).pruning_store,
            final(self).config_unchanged(old(self)),
            final(self).counters.invalidation_counts == crate::ghostdag::sat_add_u64(
                old(self).counters.invalidation_counts as int,
                1,
            ),
            final(self).counters.header_counts == old(self).counters.header_counts,
            final(self).counters.dep_counts == old(self).counters.dep_counts,
            final(self).origin_ready() == old(self).origin_ready(),
    {
        let ghost pre = *self;
        self.statuses_store.set(h, BlockStatus::Invalid);
        if self.counters.invalidation_counts < u64::MAX {
            self.counters.invalidation_counts = self.counters.invalidation_counts + 1;
        }
        proof {
            assert forall|x: BlockHash| #[trigger] self.admitted(x) == pre.admitted(x) by {
                if x != h {
                    assert(self.statuses_store.map@.contains_key(x) == pre.statuses_store.map@
                        .contains_key(x));
                    if pre.statuses_store.map@.contains_key(x) {
                        assert(self.statuses_store.map@[x] == pre.statuses_store.map@[x]);
                    }
                }
            }
            assert(self.consistent());
        }
    }

    /// The full per-header pipeline: idempotence short-circuit, parent
    /// checks, structural and proof-of-work validation, GHOSTDAG at every
    /// level, timestamp / difficulty / mergeset rules, then the commit.
    ///
    /// The contract pins the decision for every store-independent rule and
    /// states, for each outcome, exactly which stores changed.
    pub fn process_header(&mut self, header: &Header) -> (r: Result<BlockStatus, RuleError>)
        requires
            old(self).consistent(),
            old(self).origin_ready(),
            old(self).headers_selected_tip_store.tip is Some,
            header.hash != ORIGIN,
        ensures
            final(self).consistent(),
            final(self).origin_ready(),
            final(self).headers_selected_tip_store.tip is Some,
            final(self).config_unchanged(old(self)),
            // The decision is a function of the prior state and the header:
            // each validation in pipeline order, admission in exactly the
            // remaining case.
            r == spec_header_verdict(*old(self), *header),
            // Idempotence short-circuit.
            old(self).statuses_store.map@.contains_key(header.hash) ==> *final(self) == *old(self)
                && (if old(self).statuses_store.map@[header.hash] is Invalid {
                r == Err::<BlockStatus, RuleError>(RuleError::KnownInvalid)
            } else {
                r == Ok::<BlockStatus, RuleError>(old(self).statuses_store.map@[header.hash])
            }),
            // Fresh hashes: what each outcome did to the stores.
            !old(self).statuses_store.map@.contains_key(header.hash) ==> match r {
                Ok(s) => {
                    &&& s == BlockStatus::HeaderOnly
                    &&& final(self).statuses_store.map@ == old(self).statuses_store.map@.insert(
                        header.hash,
                        BlockStatus::HeaderOnly,
                    )
                    &&& final(self).admitted(header.hash)
                    &&& final(self).headers_store.map@.contains_key(header.hash)
                    &&& final(self).headers_store.map@[header.hash].header.blue_work
                        == header.blue_work
                    &&& final(self).reachability_store.spec_has(header.hash)
                    &&& match old(self).headers_selected_tip_store.tip {
                        Some(t0) => final(self).headers_selected_tip_store.tip == Some(
                            if spec_work_lt(
                                t0.blue_work,
                                t0.hash,
                                header.blue_work,
                                header.hash,
                            ) {
                                SortableBlock { hash: header.hash, blue_work: header.blue_work }
                            } else {
                                t0
                            },
                        ),
                        None => false,
                    }
                    // The committed rows: the recorded parents of every level
                    // are the filtered declared parents, and the GHOSTDAG
                    // record meets the engine contract over them.
                    &&& forall|l: int|
                        0 <= l <= header.block_level as int ==> final(self).relations_stores@[l].parents@[header.hash]@ == spec_npp(
                            *old(self),
                            *header,
                            l,
                        ) && final(self).ghostdag_stores@[l].spec_has(header.hash)
                            && ghostdag_post(
                            old(self).relations_stores@[l],
                            old(self).reachability_store,
                            old(self).ghostdag_stores@[l],
                            old(self).headers_store,
                            old(self).k_per_level@[l],
                            spec_npp(*old(self), *header, l),
                            #[trigger] final(self).ghostdag_stores@[l].map@[header.hash],
                        )
                    // Reachability: the new node sits under the level-0
                    // selected parent, and every level-0 mergeset member's
                    // future covering set gains the new hash.
                    &&& final(self).reachability_store.nodes@[header.hash].parent == final(self).ghostdag_stores@[0].map@[header.hash].selected_parent
                    &&& forall|x: BlockHash|
                        #[trigger] old(self).reachability_store.nodes@.contains_key(x) ==> final(self).reachability_store.nodes@[x].future_covering_set@ == (if (final(self).ghostdag_stores@[0].map@[header.hash].mergeset_blues@.len() > 0 && final(self).ghostdag_stores@[0].map@[header.hash].mergeset_blues@.drop_first()
                            .contains(x)) || final(self).ghostdag_stores@[0].map@[header.hash].mergeset_reds@.contains(x) {
                            old(self).reachability_store.nodes@[x].future_covering_set@.push(
                                header.hash,
                            )
                        } else {
                            old(self).reachability_store.nodes@[x].future_covering_set@
                        })
                    // Counters.
                    &&& final(self).counters.header_counts == crate::ghostdag::sat_add_u64(
                        old(self).counters.header_counts as int,
                        1,
                    )
                    &&& final(self).counters.dep_counts == crate::ghostdag::sat_add_u64(
                        old(self).counters.dep_counts as int,
                        header.spec_direct_parents().len() as int,
                    )
                    &&& final(self).counters.invalidation_counts == old(self).counters.invalidation_counts
                },
                Err(e) => match e {
                    RuleError::KnownInvalid => *final(self) == *old(self),
                    RuleError::ParentNotFound(p) => *final(self) == *old(self)
                        && header.spec_direct_parents().contains(p) && !old(self).statuses_store.map@.contains_key(p),
                    RuleError::MissingParents => *final(self) == *old(self)
                        && header.spec_direct_parents().len() == 0 && header.hash != old(self).genesis_hash,
                    _ => {
                        &&& final(self).statuses_store.map@ == old(self).statuses_store.map@
                            .insert(header.hash, BlockStatus::Invalid)
                        &&& final(self).headers_store == old(self).headers_store
                        &&& final(self).relations_stores == old(self).relations_stores
                        &&& final(self).ghostdag_stores == old(self).ghostdag_stores
                        &&& final(self).reachability_store == old(self).reachability_store
                        &&& final(self).headers_selected_tip_store == old(self).headers_selected_tip_store
                        &&& final(self).counters.invalidation_counts
                            == crate::ghostdag::sat_add_u64(
                            old(self).counters.invalidation_counts as int,
                            1,
                        )
                        &&& final(self).counters.header_counts == old(self).counters.header_counts
                        &&& final(self).counters.dep_counts == old(self).counters.dep_counts
                    },
                },
            },
    {
        let h = header.hash;
        // Idempotence short-circuit.
        match self.statuses_store.get(h) {
            Some(BlockStatus::Invalid) => {
                return Err(RuleError::KnownInvalid);
            },
            Some(s) => {
                return Ok(s);
            },
            None => {},
        }
        let dp = header.direct_parents();
        let is_genesis = dp.len() == 0;
        if is_genesis && h != self.genesis_hash {
            return Err(RuleError::MissingParents);
        }
        // Any known-invalid parent fails the header outright.
        let dn = dp.len();
        for i in 0..dn
            invariant
                *self == *old(self),
                self.consistent(),
                self.origin_ready(),
                self.headers_selected_tip_store.tip is Some,
                h == header.hash,
                h != ORIGIN,
                !old(self).statuses_store.map@.contains_key(h),
                dn == dp@.len(),
                dp@ == header.spec_direct_parents(),
                dp@.len() > 0 || h == old(self).genesis_hash,
                forall|j: int|
                    0 <= j < i ==> !(old(self).statuses_store.map@.contains_key(
                        #[trigger] dp@[j],
                    ) && old(self).statuses_store.map@[dp@[j]] is Invalid),
        {
            match self.statuses_store.get(dp[i]) {
                Some(BlockStatus::Invalid) => {
                    proof {
                        assert(dp@[i as int] == header.spec_direct_parents()[i as int]);
                    }
                    return Err(RuleError::KnownInvalid);
                },
                _ => {},
            }
        }
        let ghost no_invalid_parent = !(exists|i: int|
            0 <= i < header.spec_direct_parents().len() && old(self).statuses_store.map@.contains_key(#[trigger] header.spec_direct_parents()[i]) && old(self).statuses_store.map@[header.spec_direct_parents()[i]] is Invalid);
        proof {
            assert(no_invalid_parent);
        }
        // Every parent must already be admitted.
        for i in 0..dn
            invariant
                *self == *old(self),
                self.consistent(),
                self.origin_ready(),
                self.headers_selected_tip_store.tip is Some,
                h == header.hash,
                h != ORIGIN,
                !old(self).statuses_store.map@.contains_key(h),
                dn == dp@.len(),
                dp@ == header.spec_direct_parents(),
                dp@.len() > 0 || h == old(self).genesis_hash,
                no_invalid_parent,
                no_invalid_parent == !(exists|j: int|
                    0 <= j < header.spec_direct_parents().len() && old(self).statuses_store.map@.contains_key(
                        #[trigger] header.spec_direct_parents()[j],
                    ) && old(self).statuses_store.map@[header.spec_direct_parents()[j]] is Invalid),
                forall|j: int|
                    0 <= j < i ==> old(self).statuses_store.map@.contains_key(#[trigger] dp@[j]),
        {
            if !self.statuses_store.has(dp[i]) {
                proof {
                    assert(dp@[i as int] == header.spec_direct_parents()[i as int]);
                    lemma_first_missing_at(old(self).statuses_store, dp@, i as int);
                }
                return Err(RuleError::ParentNotFound(dp[i]));
            }
        }
        proof {
            assert(!(exists|i: int|
                0 <= i < header.spec_direct_parents().len() && !old(self).statuses_store.map@.contains_key(#[trigger] header.spec_direct_parents()[i])));
        }
        // Structural bounds.
        if dp.len() > self.max_block_parents as usize {
            self.mark_invalid(h);
            return Err(RuleError::InvalidHeaderStructure);
        }
        if !hashes_distinct(&dp) {
            self.mark_invalid(h);
            return Err(RuleError::InvalidHeaderStructure);
        }
        // Proof of work and the block level it grants.
        if !self.skip_proof_of_work && !pow_passes(h, header.bits) {
            self.mark_invalid(h);
            return Err(RuleError::InvalidProofOfWork);
        }
        let block_level = calc_block_level(
            h,
            header.bits,
            self.max_block_level,
            self.skip_proof_of_work,
        );
        if header.block_level != block_level {
            self.mark_invalid(h);
            return Err(RuleError::InvalidHeaderStructure);
        }
        // Context: the non-pruned parents of every level the header spans.
        let bl = block_level as usize;
        let mut npp: Vec<Vec<BlockHash>> = Vec::new();
        let mut lv: usize = 0;
        while lv < bl + 1
            invariant
                *self == *old(self),
                self.consistent(),
                h == header.hash,
                h != ORIGIN,
                !old(self).statuses_store.map@.contains_key(h),
                dp@ == header.spec_direct_parents(),
                is_genesis == (dp@.len() == 0),
                bl < self.levels(),
                lv <= bl + 1,
                npp@.len() == lv,
                forall|j: int|
                    0 <= j < lv ==> ((#[trigger] npp@[j])@.len() >= 1 && npp@[j]@.no_duplicates()
                        && ((npp@[j]@ =~= seq![ORIGIN]) || (forall|i: int|
                        0 <= i < npp@[j]@.len() ==> #[trigger] npp@[j]@[i] != ORIGIN
                            && self.relations_stores@[j].spec_has(npp@[j]@[i])))),
                forall|j: int|
                    0 <= j < lv ==> forall|i: int|
                        0 <= i < (#[trigger] npp@[j])@.len() ==> #[trigger] npp@[j]@[i] != h,
                is_genesis ==> dp@.len() == 0,
                forall|j: int|
                    0 <= j < lv ==> (#[trigger] npp@[j])@ == spec_npp(*old(self), *header, j),
            decreases bl + 1 - lv,
        {
            let mut filtered: Vec<BlockHash> = Vec::new();
            if !is_genesis {
                let declared = header.parents_at_level(lv as u8);
                let pn = declared.len();
                for i in 0..pn
                    invariant
                        *self == *old(self),
                        self.consistent(),
                        h == header.hash,
                        lv < self.levels(),
                        pn == declared@.len(),
                        declared@ == header.spec_parents_at_level(lv as int),
                        filtered@.no_duplicates(),
                        forall|j: int|
                            0 <= j < filtered@.len() ==> #[trigger] filtered@[j] != ORIGIN
                                && self.relations_stores@[lv as int].spec_has(filtered@[j]),
                        filtered@ == spec_filter_parents(
                            self.relations_stores@[lv as int],
                            declared@.subrange(0, i as int),
                        ),
                {
                    proof {
                        assert(declared@.subrange(0, i + 1).drop_last() =~= declared@.subrange(
                            0,
                            i as int,
                        ));
                        assert(declared@.subrange(0, i + 1).last() == declared@[i as int]);
                    }
                    let p = declared[i];
                    if p != ORIGIN && self.relations_stores[lv].has(p) && !hashes_contain(
                        &filtered,
                        p,
                    ) {
                        let ghost prefl = filtered@;
                        filtered.push(p);
                        proof {
                            crate::ghostdag::lemma_push_distinct_export(prefl, p);
                        }
                    }
                }
                proof {
                    assert(declared@.subrange(0, pn as int) =~= declared@);
                }
            }
            if filtered.len() == 0 {
                filtered.push(ORIGIN);
                proof {
                    assert(filtered@ =~= seq![ORIGIN]);
                }
            }
            proof {
                assert forall|i: int|
                    0 <= i < filtered@.len() implies #[trigger] filtered@[i] != h by {
                    if filtered@[i] != ORIGIN {
                        assert(self.relations_stores@[lv as int].spec_has(filtered@[i]));
                        assert(filtered@[i] == ORIGIN || self.admitted(filtered@[i]));
                        assert(!self.admitted(h));
                    }
                }
            }
            proof {
                assert(filtered@ =~= spec_npp(*old(self), *header, lv as int));
            }
            npp.push(filtered);
            lv = lv + 1;
        }
        // GHOSTDAG at every level.
        let mut gds: Vec<GhostdagData> = Vec::new();
        let mut gl: usize = 0;
        while gl < bl + 1
            invariant
                *self == *old(self),
                self.consistent(),
                h == header.hash,
                h != ORIGIN,
                !old(self).statuses_store.map@.contains_key(h),
                dp@ == header.spec_direct_parents(),
                bl < self.levels(),
                gl <= bl + 1,
                npp@.len() == bl + 1,
                gds@.len() == gl,
                forall|j: int|
                    0 <= j < bl + 1 ==> ((#[trigger] npp@[j])@.len() >= 1 && npp@[j]@
                        .no_duplicates() && ((npp@[j]@ =~= seq![ORIGIN]) || (forall|i: int|
                        0 <= i < npp@[j]@.len() ==> #[trigger] npp@[j]@[i] != ORIGIN
                            && self.relations_stores@[j].spec_has(npp@[j]@[i])))),
                forall|j: int|
                    0 <= j < gl ==> ghostdag_post(
                        self.relations_stores@[j],
                        self.reachability_store,
                        self.ghostdag_stores@[j],
                        self.headers_store,
                        self.k_per_level@[j],
                        npp@[j]@,
                        #[trigger] gds@[j],
                    ),
            decreases bl + 1 - gl,
        {
            proof {
                assert(ghostdag_prereqs(
                    self.relations_stores@[gl as int],
                    self.reachability_store,
                    self.ghostdag_stores@[gl as int],
                    self.headers_store,
                ));
            }
            let d = ghostdag(
                self.k_per_level[gl],
                &self.relations_stores[gl],
                &self.reachability_store,
                &self.ghostdag_stores[gl],
                &self.headers_store,
                &npp[gl],
            );
            gds.push(d);
            gl = gl + 1;
        }
        // Tie the computed level-0 record to the values the contract
        // names, so that every decision below is the contract's decision.
        let ghost p0 = *old(self);
        let ghost npp0 = npp@[0]@;
        let ghost vsp = if npp0 =~= seq![ORIGIN] {
            ORIGIN
        } else {
            crate::ghostdag::spec_selected_parent(p0.ghostdag_stores@[0].map@, npp0)
        };
        proof {
            assert(npp0 == spec_npp(p0, *header, 0));
            assert(ghostdag_post(
                p0.relations_stores@[0],
                p0.reachability_store,
                p0.ghostdag_stores@[0],
                p0.headers_store,
                p0.k_per_level@[0],
                npp0,
                gds@[0],
            ));
            if npp0 =~= seq![ORIGIN] {
                assert(gds@[0].selected_parent == vsp);
            } else {
                assert(crate::ghostdag::is_selected_parent(
                    p0.ghostdag_stores@[0].map@,
                    npp0,
                    gds@[0].selected_parent,
                ));
                assert(crate::ghostdag::is_selected_parent(
                    p0.ghostdag_stores@[0].map@,
                    npp0,
                    vsp,
                ));
                lemma_selected_parent_unique(
                    p0.ghostdag_stores@[0].map@,
                    npp0,
                    gds@[0].selected_parent,
                    vsp,
                );
            }
            assert(gds@[0].selected_parent == vsp);
        }
        // The claimed blue-work accumulator must match the computed one.
        if gds[0].blue_work != header.blue_work {
            self.mark_invalid(h);
            return Err(RuleError::InvalidHeaderStructure);
        }
        // Timestamp against the past median time of a window sized by the
        // deviation tolerance.
        let sp0 = gds[0].selected_parent;
        proof {
            if !(npp@[0]@ =~= seq![ORIGIN]) {
                assert(self.ghostdag_stores@[0].spec_has(sp0));
            }
        }
        let mts_size = median_window_size(self.timestamp_deviation_tolerance);
        let mwindow = crate::windows::block_window(&self.ghostdag_stores[0], sp0, mts_size);
        let mn = mwindow.len();
        let mut ts: Vec<u64> = Vec::new();
        for i in 0..mn
            invariant
                *self == *old(self),
                self.consistent(),
                mn == mwindow@.len(),
                forall|j: int|
                    0 <= j < mwindow@.len() ==> self.ghostdag_stores@[0].spec_has(
                        #[trigger] mwindow@[j],
                    ),
                0 < self.levels(),
                ts@.len() == i,
                forall|j: int|
                    0 <= j < i ==> #[trigger] ts@[j] == self.headers_store.map@[mwindow@[j]].header
                        .timestamp,
        {
            proof {
                assert(self.headers_store.map@.contains_key(mwindow@[i as int]));
            }
            let e = self.headers_store.get(mwindow[i]).unwrap();
            ts.push(e.header.timestamp);
        }
        proof {
            assert(ts@ =~= mwindow@.map_values(
                |x: BlockHash| p0.headers_store.map@[x].header.timestamp,
            ));
        }
        if ts.len() > 0 {
            let med = crate::windows::median(&ts);
            if header.timestamp <= med {
                self.mark_invalid(h);
                return Err(RuleError::InvalidHeaderStructure);
            }
        }
        // Difficulty: the bits must equal the expected value over the
        // difficulty window.
        let dwindow = crate::windows::block_window(
            &self.ghostdag_stores[0],
            sp0,
            self.difficulty_window_size,
        );
        let dn2 = dwindow.len();
        let mut bits_v: Vec<u32> = Vec::new();
        for i in 0..dn2
            invariant
                *self == *old(self),
                self.consistent(),
                dn2 == dwindow@.len(),
                forall|j: int|
                    0 <= j < dwindow@.len() ==> self.ghostdag_stores@[0].spec_has(
                        #[trigger] dwindow@[j],
                    ),
                0 < self.levels(),
                bits_v@.len() == i,
                forall|j: int|
                    0 <= j < i ==> #[trigger] bits_v@[j]
                        == self.headers_store.map@[dwindow@[j]].header.bits,
        {
            proof {
                assert(self.headers_store.map@.contains_key(dwindow@[i as int]));
            }
            let e = self.headers_store.get(dwindow[i]).unwrap();
            bits_v.push(e.header.bits);
        }
        proof {
            assert(bits_v@ =~= dwindow@.map_values(
                |x: BlockHash| p0.headers_store.map@[x].header.bits,
            ));
        }
        let exp_bits = crate::windows::expected_bits(
            &bits_v,
            self.difficulty_window_size,
            self.genesis_bits,
        );
        if header.bits != exp_bits {
            self.mark_invalid(h);
            return Err(RuleError::DifficultyMismatch(exp_bits, header.bits));
        }
        // Mergeset size limit.
        let ms_size: u64 = if gds[0].mergeset_blues.len() > 0 {
            let blues_part = (gds[0].mergeset_blues.len() - 1) as u64;
            let reds_part = gds[0].mergeset_reds.len() as u64;
            if u64::MAX - blues_part < reds_part {
                u64::MAX
            } else {
                blues_part + reds_part
            }
        } else {
            0
        };
        if ms_size > self.mergeset_size_limit {
            self.mark_invalid(h);
            return Err(RuleError::MergesetTooLarge(ms_size));
        }
        // Merge-depth root and finality point: the current pruning point, or
        // the origin before one is set.
        let pp = match self.pruning_store.get() {
            Ok(info) => info.pruning_point,
            Err(_) => ORIGIN,
        };
        let depth_info = DepthInfo { merge_depth_root: pp, finality_point: pp };
        let mergeset_non_daa: Vec<BlockHash> = Vec::new();
        proof {
            assert(!self.admitted(h));
            assert(!self.headers_store.map@.contains_key(h));
            assert(!self.reachability_store.spec_has(h));
            assert(!self.daa_store.map@.contains_key(h));
            assert(!self.depth_store.map@.contains_key(h));
            assert forall|l: int|
                0 <= l < self.levels() implies !#[trigger] self.relations_stores@[l].spec_has(h)
                && !self.ghostdag_stores@[l].spec_has(h) by {
                if self.relations_stores@[l].spec_has(h) {
                    assert(h == ORIGIN || self.admitted(h));
                }
                if self.ghostdag_stores@[l].spec_has(h) {
                    assert(self.admitted(h));
                }
            }
            assert(spec_header_verdict(p0, *header) == Ok::<BlockStatus, RuleError>(
                BlockStatus::HeaderOnly,
            ));
        }
        let ghost gdv = gds@;
        self.commit_header(header, &npp, gds, block_level, mergeset_non_daa, depth_info);
        proof {
            assert(self.counters.header_counts == crate::ghostdag::sat_add_u64(
                p0.counters.header_counts as int,
                1,
            ));
            assert(self.counters.dep_counts == crate::ghostdag::sat_add_u64(
                p0.counters.dep_counts as int,
                header.spec_direct_parents().len() as int,
            ));
            assert(self.counters.invalidation_counts == p0.counters.invalidation_counts);
            assert(self.reachability_store.nodes@[h].parent == gdv[0].selected_parent);
            assert(npp@[0]@ == npp0);
            assert(self.ghostdag_stores@[0].map@[h] == gdv[0]);
            assert forall|l: int|
                0 <= l <= header.block_level as int implies
                self.relations_stores@[l].parents@[h]@ == spec_npp(p0, *header, l)
                && self.ghostdag_stores@[l].spec_has(h) && ghostdag_post(
                p0.relations_stores@[l],
                p0.reachability_store,
                p0.ghostdag_stores@[l],
                p0.headers_store,
                p0.k_per_level@[l],
                spec_npp(p0, *header, l),
                self.ghostdag_stores@[l].map@[h],
            ) by {
                assert(npp@[l]@ == spec_npp(p0, *header, l));
                assert(self.relations_stores@[l].parents@[h]@ == npp@[l]@);
                assert(self.ghostdag_stores@[l].map@ == p0.ghostdag_stores@[l].map@.insert(
                    h,
                    gdv[l],
                ));
                assert(self.ghostdag_stores@[l].map@[h] == gdv[l]);
                assert(ghostdag_post(
                    p0.relations_stores@[l],
                    p0.reachability_store,
                    p0.ghostdag_stores@[l],
                    p0.headers_store,
                    p0.k_per_level@[l],
                    npp@[l]@,
                    gdv[l],
                ));
            }
            assert forall|x: BlockHash|
                #[trigger] p0.reachability_store.nodes@.contains_key(x) implies
                self.reachability_store.nodes@[x].future_covering_set@ == (if (
                self.ghostdag_stores@[0].map@[h].mergeset_blues@.len() > 0
                    && self.ghostdag_stores@[0].map@[h].mergeset_blues@.drop_first().contains(
                    x,
                )) || self.ghostdag_stores@[0].map@[h].mergeset_reds@.contains(x) {
                p0.reachability_store.nodes@[x].future_covering_set@.push(h)
            } else {
                p0.reachability_store.nodes@[x].future_covering_set@
            }) by {}
        }
        Ok(BlockStatus::HeaderOnly)
    }


    /// Bootstrap: admit a synthetic genesis header, when configured and not
    /// yet present. Also pre-sets the pruning info to genesis. Idempotent.
    pub fn process_genesis_if_needed(&mut self)
        requires
            old(self).consistent(),
            old(self).origin_ready(),
            old(self).headers_selected_tip_store.tip is Some,
        ensures
            final(self).consistent(),
            final(self).origin_ready(),
            final(self).headers_selected_tip_store.tip is Some,
            final(self).config_unchanged(old(self)),
            (!old(self).process_genesis || old(self).statuses_store.map@.contains_key(
                old(self).genesis_hash,
            )) ==> *final(self) == *old(self),
            (old(self).process_genesis && !old(self).statuses_store.map@.contains_key(
                old(self).genesis_hash,
            )) ==> {
                let g = old(self).genesis_hash;
                &&& final(self).statuses_store.map@ == old(self).statuses_store.map@.insert(
                    g,
                    BlockStatus::HeaderOnly,
                )
                &&& final(self).admitted(g)
                // The synthetic genesis header.
                &&& final(self).headers_store.map@.contains_key(g)
                &&& final(self).headers_store.map@[g].block_level == old(self).max_block_level
                &&& final(self).headers_store.map@[g].header.timestamp == old(self).genesis_timestamp
                &&& final(self).headers_store.map@[g].header.bits == old(self).genesis_bits
                &&& final(self).headers_store.map@[g].header.blue_work == 0
                // Genesis hangs off the origin sentinel at every level.
                &&& forall|l: int|
                    0 <= l <= old(self).max_block_level as int ==> (#[trigger] final(self).relations_stores@[l].parents@[g]@) == seq![ORIGIN] && final(self).ghostdag_stores@[l].spec_has(g) && final(self).ghostdag_stores@[l].map@[g].selected_parent == ORIGIN && final(self).ghostdag_stores@[l].map@[g].blue_score == 0 && final(self).ghostdag_stores@[l].map@[g].blue_work == 0 && final(self).ghostdag_stores@[l].map@[g].mergeset_blues@.len() == 0 && final(self).ghostdag_stores@[l].map@[g].mergeset_reds@.len() == 0
                // Genesis becomes the origin's child in reachability.
                &&& final(self).reachability_store.spec_has(g)
                &&& final(self).reachability_store.nodes@[g].parent == ORIGIN
                // The selected tip moves by the usual rule.
                &&& match old(self).headers_selected_tip_store.tip {
                    Some(t0) => final(self).headers_selected_tip_store.tip == Some(
                        if spec_work_lt(t0.blue_work, t0.hash, 0, g) {
                            SortableBlock { hash: g, blue_work: 0 }
                        } else {
                            t0
                        },
                    ),
                    None => false,
                }
                // The pruning info is pre-set to genesis, once.
                &&& final(self).pruning_store.info == (match old(self).pruning_store.info {
                    Some(prev) => Some(prev),
                    None => Some(
                        PruningPointInfo { pruning_point: g, candidate: g, index: 0 },
                    ),
                })
            },
    {
        if !self.process_genesis || self.header_was_processed(self.genesis_hash) {
            return ;
        }
        let g = self.genesis_hash;
        match self.pruning_store.get() {
            Ok(_) => {},
            Err(_) => {
                self.pruning_store.set(g, g, 0);
            },
        }
        let gheader = Header {
            hash: g,
            parents_by_level: Vec::new(),
            timestamp: self.genesis_timestamp,
            bits: self.genesis_bits,
            blue_work: 0,
            block_level: self.max_block_level,
        };
        let levels = self.max_block_level as usize + 1;
        let mut npp: Vec<Vec<BlockHash>> = Vec::new();
        let mut gds: Vec<GhostdagData> = Vec::new();
        let mut l: usize = 0;
        while l < levels
            invariant
                l <= levels,
                npp@.len() == l,
                gds@.len() == l,
                forall|j: int| 0 <= j < l ==> (#[trigger] npp@[j])@ =~= seq![ORIGIN],
                forall|j: int|
                    0 <= j < l ==> (#[trigger] gds@[j]).selected_parent == ORIGIN
                        && gds@[j].blue_score == 0 && gds@[j].blue_work == 0
                        && gds@[j].mergeset_blues@.len() == 0 && gds@[j].mergeset_reds@.len() == 0
                        && gds@[j].blues_anticone_sizes@.len() == 0,
            decreases levels - l,
        {
            let mut po: Vec<BlockHash> = Vec::new();
            po.push(ORIGIN);
            proof {
                assert(po@ =~= seq![ORIGIN]);
            }
            npp.push(po);
            gds.push(
                GhostdagData {
                    blue_score: 0,
                    blue_work: 0,
                    selected_parent: ORIGIN,
                    mergeset_blues: Vec::new(),
                    mergeset_reds: Vec::new(),
                    blues_anticone_sizes: Vec::new(),
                },
            );
            l = l + 1;
        }
        proof {
            assert forall|j: int|
                0 <= j <= self.max_block_level as int implies ghostdag_post(
                self.relations_stores@[j],
                self.reachability_store,
                self.ghostdag_stores@[j],
                self.headers_store,
                self.k_per_level@[j],
                npp@[j]@,
                #[trigger] gds@[j],
            ) by {
                assert(npp@[j]@ =~= seq![ORIGIN]);
            }
            assert(!self.admitted(g));
            assert(!self.headers_store.map@.contains_key(g));
            assert(!self.reachability_store.spec_has(g));
            assert(!self.daa_store.map@.contains_key(g));
            assert(!self.depth_store.map@.contains_key(g));
            assert forall|j: int|
                0 <= j < self.levels() implies !#[trigger] self.relations_stores@[j].spec_has(g)
                && !self.ghostdag_stores@[j].spec_has(g) by {
                if self.relations_stores@[j].spec_has(g) {
                    assert(g == ORIGIN || self.admitted(g));
                }
                if self.ghostdag_stores@[j].spec_has(g) {
                    assert(self.admitted(g));
                }
            }
        }
        let mergeset_non_daa: Vec<BlockHash> = Vec::new();
        proof {
            lemma_consistent_same_stores(old(self), self);
            assert(self.origin_ready());
        }
        let ghost gdv = gds@;
        let ghost mid = *self;
        self.commit_header(
            &gheader,
            &npp,
            gds,
            self.max_block_level,
            mergeset_non_daa,
            DepthInfo { merge_depth_root: ORIGIN, finality_point: ORIGIN },
        );
        proof {
            assert forall|l: int|
                0 <= l <= old(self).max_block_level as int implies (#[trigger] self
                .relations_stores@[l].parents@[g]@) == seq![ORIGIN] && self.ghostdag_stores@[l]
                .spec_has(g) && self.ghostdag_stores@[l].map@[g].selected_parent == ORIGIN
                && self.ghostdag_stores@[l].map@[g].blue_score == 0
                && self.ghostdag_stores@[l].map@[g].blue_work == 0
                && self.ghostdag_stores@[l].map@[g].mergeset_blues@.len() == 0
                && self.ghostdag_stores@[l].map@[g].mergeset_reds@.len() == 0 by {
                assert(npp@[l]@ =~= seq![ORIGIN]);
                assert(self.relations_stores@[l].parents@[g]@ == npp@[l]@);
                assert(self.ghostdag_stores@[l].map@ == mid.ghostdag_stores@[l].map@.insert(
                    g,
                    gdv[l],
                ));
            }
        }
    }

    /// Configuration fields are untouched.
    pub open spec fn config_unchanged(&self, prev: &HeaderProcessor) -> bool {
        &&& self.genesis_hash == prev.genesis_hash
        &&& self.max_block_level == prev.max_block_level
        &&& self.skip_proof_of_work == prev.skip_proof_of_work
        &&& self.process_genesis == prev.process_genesis
        &&& self.k_per_level == prev.k_per_level
        &&& self.genesis_bits == prev.genesis_bits
        &&& self.genesis_timestamp == prev.genesis_timestamp
        &&& self.mergeset_size_limit == prev.mergeset_size_limit
        &&& self.max_block_parents == prev.max_block_parents
        &&& self.difficulty_window_size == prev.difficulty_window_size
        &&& self.timestamp_deviation_tolerance == prev.timestamp_deviation_tolerance
        &&& self.target_time_per_block == prev.target_time_per_block
    }
}


/// Equality of every field but the GHOSTDAG stores.
pub open spec fn same_except_gd(a: &HeaderProcessor, b: &HeaderProcessor) -> bool {
    &&& b.config_unchanged(a)
    &&& a.relations_stores == b.relations_stores
    &&& a.reachability_store == b.reachability_store
    &&& a.statuses_store == b.statuses_store
    &&& a.pruning_store == b.pruning_store
    &&& a.daa_store == b.daa_store
    &&& a.headers_store == b.headers_store
    &&& a.headers_selected_tip_store == b.headers_selected_tip_store
    &&& a.depth_store == b.depth_store
    &&& a.counters == b.counters
}

/// Equality of every field but the relations stores.
pub open spec fn same_except_relations(a: &HeaderProcessor, b: &HeaderProcessor) -> bool {
    &&& b.config_unchanged(a)
    &&& a.ghostdag_stores == b.ghostdag_stores
    &&& a.reachability_store == b.reachability_store
    &&& a.statuses_store == b.statuses_store
    &&& a.pruning_store == b.pruning_store
    &&& a.daa_store == b.daa_store
    &&& a.headers_store == b.headers_store
    &&& a.headers_selected_tip_store == b.headers_selected_tip_store
    &&& a.depth_store == b.depth_store
    &&& a.counters == b.counters
}

/// The staged future-covering targets are known to reachability and
/// duplicate-free, and the selected parent is a known node.
proof fn lemma_fcs_targets_ok(
    pre: &HeaderProcessor,
    parents0: Seq<BlockHash>,
    gd0: GhostdagData,
    fcs: Seq<BlockHash>,
)
    requires
        pre.consistent(),
        ghostdag_post(
            pre.relations_stores@[0],
            pre.reachability_store,
            pre.ghostdag_stores@[0],
            pre.headers_store,
            pre.k_per_level@[0],
            parents0,
            gd0,
        ),
        parents0.len() >= 1,
        (parents0 =~= seq![ORIGIN]) || (forall|i: int|
            0 <= i < parents0.len() ==> #[trigger] parents0[i] != ORIGIN
                && pre.relations_stores@[0].spec_has(parents0[i])),
        fcs == (if gd0.mergeset_blues@.len() > 0 {
            gd0.mergeset_blues@.drop_first()
        } else {
            Seq::<BlockHash>::empty()
        }) + gd0.mergeset_reds@,
    ensures
        fcs.no_duplicates(),
        forall|i: int| 0 <= i < fcs.len() ==> pre.reachability_store.spec_has(#[trigger] fcs[i]),
        pre.reachability_store.spec_has(gd0.selected_parent),
{
    if parents0 =~= seq![ORIGIN] {
        assert(gd0.mergeset_blues@.len() == 0);
        assert(gd0.mergeset_reds@.len() == 0);
        assert(fcs =~= Seq::<BlockHash>::empty());
        assert(pre.reachability_store.spec_has(ORIGIN));
    } else {
        let blues = gd0.mergeset_blues@;
        let reds = gd0.mergeset_reds@;
        let tail = blues.drop_first();
        assert(blues.len() >= 1);
        let sp = gd0.selected_parent;
        assert(parents0.contains(sp));
        let jp = choose|jp: int| 0 <= jp < parents0.len() && parents0[jp] == sp;
        assert(pre.relations_stores@[0].spec_has(sp));
        assert(pre.reachability_store.spec_has(sp));
        assert(tail.no_duplicates()) by {
            assert forall|i: int, j: int| 0 <= i < j < tail.len() implies tail[i] != tail[j] by {
                assert(tail[i] == blues[i + 1] && tail[j] == blues[j + 1]);
            }
        }
        assert forall|x: BlockHash| !(tail.contains(x) && reds.contains(x)) by {
            if tail.contains(x) {
                let i = choose|i: int| 0 <= i < tail.len() && tail[i] == x;
                assert(blues[i + 1] == x);
                assert(blues.contains(x));
            }
        }
        crate::header::lemma_disjoint_concat_distinct(tail, reds);
        assert forall|i: int|
            0 <= i < fcs.len() implies pre.reachability_store.spec_has(#[trigger] fcs[i]) by {
            if i < tail.len() {
                assert(fcs[i] == blues[i + 1]);
                assert(crate::ghostdag::in_mergeset_of(
                    pre.relations_stores@[0],
                    pre.reachability_store,
                    parents0,
                    sp,
                    blues[i + 1],
                ));
            } else {
                assert(fcs[i] == reds[i - tail.len()]);
                assert(crate::ghostdag::in_mergeset_of(
                    pre.relations_stores@[0],
                    pre.reachability_store,
                    parents0,
                    sp,
                    reds[i - tail.len()],
                ));
            }
        }
    }
}


/// The first declared parent that carries no status yet.
pub open spec fn spec_first_missing(st: StatusesStore, dp: Seq<BlockHash>) -> BlockHash
    decreases dp.len(),
{
    if dp.len() == 0 {
        ORIGIN
    } else if !st.map@.contains_key(dp.first()) {
        dp.first()
    } else {
        spec_first_missing(st, dp.drop_first())
    }
}

/// A scan stopping at position `i` returns that parent.
proof fn lemma_first_missing_at(st: StatusesStore, dp: Seq<BlockHash>, i: int)
    requires
        0 <= i < dp.len(),
        forall|j: int| 0 <= j < i ==> st.map@.contains_key(#[trigger] dp[j]),
        !st.map@.contains_key(dp[i]),
    ensures
        spec_first_missing(st, dp) == dp[i],
    decreases i,
{
    if i == 0 {
    } else {
        let d = dp.drop_first();
        assert forall|j: int| 0 <= j < i - 1 implies st.map@.contains_key(#[trigger] d[j]) by {
            assert(d[j] == dp[j + 1]);
        }
        assert(d[i - 1] == dp[i]);
        lemma_first_missing_at(st, d, i - 1);
    }
}

/// The declared parents of one level that are already recorded there, in
/// first-occurrence order; the origin sentinel never qualifies.
pub open spec fn spec_filter_parents(rel: RelationsStore, declared: Seq<BlockHash>) -> Seq<
    BlockHash,
>
    decreases declared.len(),
{
    if declared.len() == 0 {
        Seq::empty()
    } else {
        let prefix = spec_filter_parents(rel, declared.drop_last());
        let p = declared.last();
        if p != ORIGIN && rel.spec_has(p) && !prefix.contains(p) {
            prefix.push(p)
        } else {
            prefix
        }
    }
}

/// The non-pruned parents of one level: the filtered declared parents, or
/// the origin sentinel for genesis and for levels where nothing remains.
pub open spec fn spec_npp(p: HeaderProcessor, header: Header, l: int) -> Seq<BlockHash> {
    if header.spec_direct_parents().len() == 0 {
        seq![ORIGIN]
    } else {
        let f = spec_filter_parents(p.relations_stores@[l], header.spec_parents_at_level(l));
        if f.len() == 0 {
            seq![ORIGIN]
        } else {
            f
        }
    }
}

/// The size of the window feeding the past median time: one less than
/// twice the deviation tolerance, clamped to the machine.
pub open spec fn spec_median_window_size(tolerance: u64) -> usize {
    if tolerance == 0 {
        0
    } else if 2 * (tolerance as int) - 1 > usize::MAX {
        usize::MAX
    } else {
        (2 * tolerance - 1) as usize
    }
}

/// Computes the median window size.
pub fn median_window_size(tolerance: u64) -> (r: usize)
    ensures
        r == spec_median_window_size(tolerance),
{
    if tolerance == 0 {
        0
    } else if tolerance > ((usize::MAX as u64) / 2) {
        usize::MAX
    } else {
        (2 * tolerance - 1) as usize
    }
}

/// The decision `process_header` reaches, as a value: each validation in
/// the order the pipeline runs them, with admission owed in exactly the
/// remaining case.
pub open spec fn spec_header_verdict(p: HeaderProcessor, header: Header) -> Result<
    BlockStatus,
    RuleError,
> {
    let h = header.hash;
    let dp = header.spec_direct_parents();
    if p.statuses_store.map@.contains_key(h) {
        if p.statuses_store.map@[h] is Invalid {
            Err(RuleError::KnownInvalid)
        } else {
            Ok(p.statuses_store.map@[h])
        }
    } else if dp.len() == 0 && h != p.genesis_hash {
        Err(RuleError::MissingParents)
    } else if exists|i: int|
        0 <= i < dp.len() && p.statuses_store.map@.contains_key(#[trigger] dp[i])
            && p.statuses_store.map@[dp[i]] is Invalid {
        Err(RuleError::KnownInvalid)
    } else if exists|i: int| 0 <= i < dp.len() && !p.statuses_store.map@.contains_key(
        #[trigger] dp[i],
    ) {
        Err(RuleError::ParentNotFound(spec_first_missing(p.statuses_store, dp)))
    } else if dp.len() > p.max_block_parents as int {
        Err(RuleError::InvalidHeaderStructure)
    } else if !dp.no_duplicates() {
        Err(RuleError::InvalidHeaderStructure)
    } else if !p.skip_proof_of_work && !spec_pow_passes(h, header.bits) {
        Err(RuleError::InvalidProofOfWork)
    } else if header.block_level != spec_block_level(
        h,
        header.bits,
        p.max_block_level,
        p.skip_proof_of_work,
    ) {
        Err(RuleError::InvalidHeaderStructure)
    } else {
        let npp0 = spec_npp(p, header, 0);
        let origin_case = npp0 =~= seq![ORIGIN];
        let sp = if origin_case {
            ORIGIN
        } else {
            crate::ghostdag::spec_selected_parent(p.ghostdag_stores@[0].map@, npp0)
        };
        let colored = crate::ghostdag::spec_colored(
            p.relations_stores@[0],
            p.reachability_store,
            p.ghostdag_stores@[0],
            p.k_per_level@[0],
            sp,
            npp0,
        );
        let blues = if origin_case {
            Seq::<BlockHash>::empty()
        } else {
            colored.0
        };
        let reds = if origin_case {
            Seq::<BlockHash>::empty()
        } else {
            colored.1
        };
        let bw = if origin_case {
            0u128
        } else {
            crate::ghostdag::sat_add_u128(
                p.ghostdag_stores@[0].map@[sp].blue_work as int,
                crate::ghostdag::spec_sum_work(p.headers_store.map@, blues),
            )
        };
        if bw != header.blue_work {
            Err(RuleError::InvalidHeaderStructure)
        } else {
            let mwin = crate::windows::spec_window(
                p.ghostdag_stores@[0],
                sp,
                spec_median_window_size(p.timestamp_deviation_tolerance) as nat,
            );
            let ts = mwin.map_values(
                |x: BlockHash| p.headers_store.map@[x].header.timestamp,
            );
            if mwin.len() > 0 && header.timestamp <= crate::windows::spec_median(ts) {
                Err(RuleError::InvalidHeaderStructure)
            } else {
                let dwin = crate::windows::spec_window(
                    p.ghostdag_stores@[0],
                    sp,
                    p.difficulty_window_size as nat,
                );
                let bits = dwin.map_values(|x: BlockHash| p.headers_store.map@[x].header.bits);
                let expected = crate::windows::spec_expected_bits(
                    bits,
                    p.difficulty_window_size as int,
                    p.genesis_bits,
                );
                if header.bits != expected {
                    Err(RuleError::DifficultyMismatch(expected, header.bits))
                } else {
                    let msize = if blues.len() > 0 {
                        crate::ghostdag::sat_add_u64(
                            blues.len() - 1,
                            reds.len() as int,
                        )
                    } else {
                        0u64
                    };
                    if msize > p.mergeset_size_limit {
                        Err(RuleError::MergesetTooLarge(msize))
                    } else {
                        Ok(BlockStatus::HeaderOnly)
                    }
                }
            }
        }
    }
}

/// Copies the per-level k parameters.
pub fn copy_k(v: &Vec<u16>) -> (r: Vec<u16>)
    ensures
        r@ == v@,
{
    let mut r: Vec<u16> = Vec::new();
    let n = v.len();
    for i in 0..n
        invariant
            n == v@.len(),
            r@ == v@.subrange(0, i as int),
    {
        r.push(v[i]);
        proof {
            assert(r@ =~= v@.subrange(0, i + 1));
        }
    }
    proof {
        assert(r@ =~= v@);
    }
    r
}


/// The invariant reads only the stores it names: two states equal on them
/// are equally consistent, whatever their pruning info, counters, or other
/// configuration hold.
pub proof fn lemma_consistent_same_stores(a: &HeaderProcessor, b: &HeaderProcessor)
    requires
        a.consistent(),
        b.relations_stores == a.relations_stores,
        b.reachability_store == a.reachability_store,
        b.ghostdag_stores == a.ghostdag_stores,
        b.statuses_store == a.statuses_store,
        b.headers_store == a.headers_store,
        b.daa_store == a.daa_store,
        b.depth_store == a.depth_store,
        b.headers_selected_tip_store == a.headers_selected_tip_store,
        b.k_per_level == a.k_per_level,
        b.max_block_level == a.max_block_level,
        b.genesis_hash == a.genesis_hash,
    ensures
        b.consistent(),
{
    assert(b.levels() == a.levels());
    assert forall|h: BlockHash| #[trigger] b.admitted(h) == a.admitted(h) by {}
    assert(b.stores_wf());
    assert(b.origin_uniform()) by {
        assert forall|l: int|
            0 <= l < b.levels() implies ((#[trigger] b.relations_stores@[l].spec_has(ORIGIN))
            <==> b.relations_stores@[0].spec_has(ORIGIN)) by {
            assert(a.relations_stores@[l].spec_has(ORIGIN) <==> a.relations_stores@[0].spec_has(
                ORIGIN,
            ));
        }
        assert forall|l: int|
            0 <= l < b.levels() && #[trigger] b.relations_stores@[l].spec_has(ORIGIN) implies
            b.relations_stores@[l].parents@[ORIGIN]@.len() == 0 by {
            assert(a.relations_stores@[l].spec_has(ORIGIN));
        }
        assert forall|l: int, h: BlockHash|
            0 <= l < b.levels() && #[trigger] b.relations_stores@[l].spec_has(h) && h != ORIGIN
            implies b.relations_stores@[l].parents@[h]@.len() >= 1 by {
            assert(a.relations_stores@[l].spec_has(h));
        }
    }
    assert(b.coherent()) by {
        assert forall|l: int, h: BlockHash|
            0 <= l < b.levels() && #[trigger] b.relations_stores@[l].spec_has(h) implies
            b.reachability_store.spec_has(h) && (h != ORIGIN ==> b.ghostdag_stores@[l].spec_has(h)
            && b.headers_store.map@.contains_key(h)) by {
            assert(a.relations_stores@[l].spec_has(h));
        }
        assert forall|l: int, h: BlockHash|
            0 <= l < b.levels() && #[trigger] b.ghostdag_stores@[l].spec_has(h) implies
            b.reachability_store.spec_has(h) && b.headers_store.map@.contains_key(h) by {
            assert(a.ghostdag_stores@[l].spec_has(h));
        }
        assert forall|l: int, h: BlockHash, i: int|
            0 <= l < b.levels() && #[trigger] b.ghostdag_stores@[l].spec_has(h) && 0 <= i
                < b.ghostdag_stores@[l].map@[h].mergeset_blues@.len() implies
            b.reachability_store.spec_has(
            #[trigger] b.ghostdag_stores@[l].map@[h].mergeset_blues@[i],
        ) by {
            assert(a.ghostdag_stores@[l].spec_has(h));
        }
    }
    assert(b.admitted_closed()) by {
        assert forall|h: BlockHash, l: int|
            #[trigger] b.admitted(h) && 0 <= l <= b.headers_store.map@[h].block_level implies (
        #[trigger] b.relations_stores@[l].spec_has(h)) && b.ghostdag_stores@[l].spec_has(h) by {
            assert(a.admitted(h));
        }
        assert forall|l: int, h: BlockHash|
            0 <= l < b.levels() && #[trigger] b.relations_stores@[l].spec_has(h) implies h
            == ORIGIN || b.admitted(h) by {
            assert(a.relations_stores@[l].spec_has(h));
        }
        assert forall|h: BlockHash, pj: int|
            #[trigger] b.admitted(h) && 0 <= pj
                < b.relations_stores@[0].parents@[h]@.len() implies (
        #[trigger] b.relations_stores@[0].parents@[h]@[pj]) == ORIGIN || b.admitted(
            b.relations_stores@[0].parents@[h]@[pj],
        ) by {
            assert(a.admitted(h));
        }
        assert forall|l: int, h: BlockHash|
            0 <= l < b.levels() && #[trigger] b.ghostdag_stores@[l].spec_has(h) implies b.admitted(
            h,
        ) by {
            assert(a.ghostdag_stores@[l].spec_has(h));
        }
    }
    assert(b.tip_ok());
}

/// Every recorded hash leads down to `ORIGIN`: a store whose entries all
/// name an earlier parent must contain it.
proof fn lemma_origin_rooted(rel: &RelationsStore, h: BlockHash)
    requires
        rel.wf(),
        forall|x: BlockHash|
            #[trigger] rel.spec_has(x) && x != ORIGIN ==> rel.parents@[x]@.len() >= 1,
        rel.spec_has(h),
    ensures
        rel.spec_has(ORIGIN),
    decreases key_index(rel.parents.seq(), h),
{
    if h != ORIGIN {
        rel.parents.lemma_seq_view();
        let s = rel.parents.seq();
        lemma_key_index(s, h);
        let i = key_index(s, h);
        assert(s[i].1 == rel.parents@[h]);
        assert(rel.parents@[h]@.len() >= 1);
        assert(crate::relations::topologically_ordered(s));
        assert(crate::keymap::appears_before(s, s[i].1@[0], i));
        let j = choose|j: int| #![trigger s[j].0] 0 <= j < i && s[j].0 == s[i].1@[0];
        let p = s[j].0;
        assert(crate::keymap::has_key(s, p));
        lemma_key_index(s, p);
        assert(key_index(s, p) == j);
        assert(rel.spec_has(p));
        lemma_origin_rooted(rel, p);
    }
}

/// Before the bootstrap no header can have been admitted.
proof fn lemma_no_admitted_without_origin(p: &HeaderProcessor)
    requires
        p.consistent(),
        !p.relations_stores@[0].spec_has(ORIGIN),
    ensures
        forall|h: BlockHash| !(#[trigger] p.admitted(h)),
{
    assert forall|h: BlockHash| !(#[trigger] p.admitted(h)) by {
        if p.admitted(h) {
            assert(p.headers_store.map@[h].block_level >= 0);
            assert(p.relations_stores@[0].spec_has(h));
            lemma_origin_rooted(&p.relations_stores@[0], h);
        }
    }
}

/// Re-establishes the invariant after the origin bootstrap.
proof fn lemma_origin_bootstrap(pre: &HeaderProcessor, cur: &HeaderProcessor)
    requires
        pre.consistent(),
        !pre.relations_stores@[0].spec_has(ORIGIN),
        cur.levels() == pre.levels(),
        cur.relations_stores@.len() == cur.levels(),
        forall|j: int|
            0 <= j < cur.levels() ==> (#[trigger] cur.relations_stores@[j]).wf()
                && cur.relations_stores@[j].spec_has(ORIGIN)
                && cur.relations_stores@[j].parents@[ORIGIN]@.len() == 0
                && (forall|h: BlockHash|
                #[trigger] cur.relations_stores@[j].spec_has(h) ==> h == ORIGIN
                    || pre.relations_stores@[j].spec_has(h))
                && (forall|h: BlockHash|
                #[trigger] pre.relations_stores@[j].spec_has(h)
                    ==> cur.relations_stores@[j].spec_has(h)
                    && cur.relations_stores@[j].parents@[h] == pre.relations_stores@[j].parents@[h]),
        cur.ghostdag_stores == pre.ghostdag_stores,
        cur.statuses_store == pre.statuses_store,
        cur.headers_store == pre.headers_store,
        cur.reachability_store == pre.reachability_store,
        cur.daa_store == pre.daa_store,
        cur.depth_store == pre.depth_store,
        cur.k_per_level == pre.k_per_level,
        cur.max_block_level == pre.max_block_level,
        cur.genesis_hash == pre.genesis_hash,
        cur.headers_selected_tip_store.tip == Some(SortableBlock { hash: ORIGIN, blue_work: 0 }),
    ensures
        cur.consistent(),
        cur.origin_ready(),
{
    lemma_no_admitted_without_origin(pre);
    assert forall|h: BlockHash| !(#[trigger] cur.admitted(h)) by {
        assert(!pre.admitted(h));
    }
    assert(cur.stores_wf());
    assert(cur.origin_uniform()) by {
        assert forall|l: int, h: BlockHash|
            0 <= l < cur.levels() && #[trigger] cur.relations_stores@[l].spec_has(h) && h
                != ORIGIN implies cur.relations_stores@[l].parents@[h]@.len() >= 1 by {
            assert(pre.relations_stores@[l].spec_has(h));
        }
    }
    assert(cur.coherent()) by {
        assert forall|l: int, h: BlockHash|
            0 <= l < cur.levels() && #[trigger] cur.relations_stores@[l].spec_has(h) && h
                != ORIGIN implies false by {
            assert(pre.relations_stores@[l].spec_has(h));
            assert(pre.admitted(h));
        }
    }
    assert(cur.admitted_closed());
    assert(cur.tip_ok());
}

/// Re-establishes the invariant after a commit: the requires spell out how
/// each store changed, the conclusion is the whole-system invariant.
proof fn lemma_commit_consistent(
    pre: &HeaderProcessor,
    cur: &HeaderProcessor,
    header: &Header,
    npp: &Vec<Vec<BlockHash>>,
    gdv: Seq<GhostdagData>,
    block_level: u8,
)
    requires
        pre.consistent(),
        pre.origin_ready(),
        pre.headers_selected_tip_store.tip is Some,
        header.hash != ORIGIN,
        !pre.statuses_store.map@.contains_key(header.hash),
        !pre.headers_store.map@.contains_key(header.hash),
        !pre.reachability_store.spec_has(header.hash),
        forall|l: int|
            0 <= l < pre.levels() ==> !#[trigger] pre.relations_stores@[l].spec_has(header.hash)
                && !pre.ghostdag_stores@[l].spec_has(header.hash),
        block_level <= pre.max_block_level,
        npp@.len() == block_level as int + 1,
        gdv.len() == block_level as int + 1,
        forall|l: int|
            0 <= l <= block_level as int ==> ((#[trigger] npp@[l])@.len() >= 1 && ((npp@[l]@
                =~= seq![ORIGIN]) || (forall|i: int|
                0 <= i < npp@[l]@.len() ==> #[trigger] npp@[l]@[i] != ORIGIN
                    && pre.relations_stores@[l].spec_has(npp@[l]@[i])))),
        forall|l: int|
            0 <= l <= block_level as int ==> ghostdag_post(
                pre.relations_stores@[l],
                pre.reachability_store,
                pre.ghostdag_stores@[l],
                pre.headers_store,
                pre.k_per_level@[l],
                npp@[l]@,
                #[trigger] gdv[l],
            ),
        cur.config_unchanged(pre),
        cur.relations_stores@.len() == pre.levels(),
        cur.ghostdag_stores@.len() == pre.levels(),
        cur.k_per_level == pre.k_per_level,
        cur.statuses_store.wf(),
        cur.statuses_store.map@ == pre.statuses_store.map@.insert(
            header.hash,
            BlockStatus::HeaderOnly,
        ),
        cur.headers_store.wf(),
        cur.headers_store.map@.dom() == pre.headers_store.map@.dom().insert(header.hash),
        cur.headers_store.map@[header.hash].block_level == block_level,
        cur.headers_store.map@[header.hash].header.blue_work == header.blue_work,
        forall|x: BlockHash|
            x != header.hash && pre.headers_store.map@.contains_key(x)
                ==> #[trigger] cur.headers_store.map@[x] == pre.headers_store.map@[x],
        forall|l: int|
            0 <= l <= block_level as int ==> (#[trigger] cur.relations_stores@[l]).wf()
                && cur.relations_stores@[l].spec_has(header.hash)
                && cur.relations_stores@[l].parents@[header.hash]@ == npp@[l]@
                && cur.relations_stores@[l].parents@ == pre.relations_stores@[l].parents@.insert(
                header.hash,
                cur.relations_stores@[l].parents@[header.hash],
            ) && cur.relations_stores@[l].children@.dom() == pre.relations_stores@[l].children@
                .dom().insert(header.hash),
        forall|l: int|
            (block_level as int) < l && l < pre.levels() ==> #[trigger] cur.relations_stores@[l]
                == pre.relations_stores@[l],
        forall|l: int|
            0 <= l <= block_level as int ==> (#[trigger] cur.ghostdag_stores@[l]).wf()
                && cur.ghostdag_stores@[l].map@ == pre.ghostdag_stores@[l].map@.insert(
                header.hash,
                gdv[l],
            ),
        forall|l: int|
            (block_level as int) < l && l < pre.levels() ==> #[trigger] cur.ghostdag_stores@[l]
                == pre.ghostdag_stores@[l],
        cur.reachability_store.wf(),
        cur.reachability_store.nodes@.dom() == pre.reachability_store.nodes@.dom().insert(
            header.hash,
        ),
        cur.reachability_store.nodes@[header.hash].parent == gdv[0].selected_parent,
        forall|x: BlockHash|
            #[trigger] pre.reachability_store.nodes@.contains_key(x)
                ==> cur.reachability_store.nodes@[x].parent == pre.reachability_store.nodes@[x]
                .parent && cur.reachability_store.nodes@[x].depth
                == pre.reachability_store.nodes@[x].depth,
        match pre.headers_selected_tip_store.tip {
            Some(t0) => cur.headers_selected_tip_store.tip == Some(
                if spec_work_lt(t0.blue_work, t0.hash, header.blue_work, header.hash) {
                    SortableBlock { hash: header.hash, blue_work: header.blue_work }
                } else {
                    t0
                },
            ),
            None => false,
        },
        cur.daa_store.wf(),
        cur.depth_store.wf(),
        cur.daa_store.map@.dom() == pre.daa_store.map@.dom().insert(header.hash),
        cur.depth_store.map@.dom() == pre.depth_store.map@.dom().insert(header.hash),
    ensures
        cur.consistent(),
        cur.origin_ready(),
{
    let h = header.hash;
    let bl = block_level as int;
    let levels = pre.levels();
    assert(cur.levels() == levels);

    // Relations membership in the new state.
    assert forall|l: int, x: BlockHash|
        0 <= l < levels implies (#[trigger] cur.relations_stores@[l].spec_has(x) <==> (
    pre.relations_stores@[l].spec_has(x) || (x == h && l <= bl))) by {
        if l <= bl {
            assert(cur.relations_stores@[l].parents@.dom() =~= pre.relations_stores@[l].parents@
                .dom().insert(h));
        }
    }
    // Relations parent lists of old keys are unchanged.
    assert forall|l: int, x: BlockHash|
        0 <= l < levels && x != h && #[trigger] pre.relations_stores@[l].spec_has(x) implies
        cur.relations_stores@[l].parents@[x] == pre.relations_stores@[l].parents@[x] by {}
    // GHOSTDAG membership and values.
    assert forall|l: int, x: BlockHash|
        0 <= l < levels implies (#[trigger] cur.ghostdag_stores@[l].spec_has(x) <==> (
    pre.ghostdag_stores@[l].spec_has(x) || (x == h && l <= bl))) by {
        if l <= bl {
            assert(cur.ghostdag_stores@[l].map@.dom() =~= pre.ghostdag_stores@[l].map@.dom()
                .insert(h));
        }
    }
    assert forall|l: int, x: BlockHash|
        0 <= l < levels && x != h && #[trigger] pre.ghostdag_stores@[l].spec_has(x) implies
        cur.ghostdag_stores@[l].map@[x] == pre.ghostdag_stores@[l].map@[x] by {}
    // Statuses.
    assert forall|x: BlockHash| #[trigger]
        cur.admitted(x) <==> (pre.admitted(x) || x == h) by {
        if x != h {
            assert(cur.statuses_store.map@.contains_key(x) == pre.statuses_store.map@
                .contains_key(x));
            if pre.statuses_store.map@.contains_key(x) {
                assert(cur.statuses_store.map@[x] == pre.statuses_store.map@[x]);
            }
        }
    }
    // Headers.
    assert forall|x: BlockHash|
        #[trigger] cur.headers_store.map@.contains_key(x) <==> (pre.headers_store.map@
            .contains_key(x) || x == h) by {}
    // Reachability membership.
    assert forall|x: BlockHash|
        #[trigger] cur.reachability_store.spec_has(x) <==> (pre.reachability_store.spec_has(x)
            || x == h) by {}

    assert(cur.stores_wf()) by {
        assert forall|l: int|
            0 <= l < levels implies (#[trigger] cur.relations_stores@[l]).wf() by {
            if l > bl {
                assert(cur.relations_stores@[l] == pre.relations_stores@[l]);
            }
        }
        assert forall|l: int|
            0 <= l < levels implies (#[trigger] cur.ghostdag_stores@[l]).wf() by {
            if l > bl {
                assert(cur.ghostdag_stores@[l] == pre.ghostdag_stores@[l]);
            }
        }
    }

    assert(cur.origin_uniform()) by {
        assert forall|l: int, x: BlockHash|
            0 <= l < levels && #[trigger] cur.relations_stores@[l].spec_has(x) && x != ORIGIN
            implies cur.relations_stores@[l].parents@[x]@.len() >= 1 by {
            if x == h {
                assert(cur.relations_stores@[l].parents@[h]@ == npp@[l]@);
            } else {
                assert(pre.relations_stores@[l].spec_has(x));
            }
        }
        assert forall|l: int|
            0 <= l < levels && #[trigger] cur.relations_stores@[l].spec_has(ORIGIN) implies
            cur.relations_stores@[l].parents@[ORIGIN]@.len() == 0 by {
            assert(pre.relations_stores@[l].spec_has(ORIGIN));
        }
    }
    assert(cur.origin_ready()) by {
        assert forall|l: int|
            0 <= l < levels implies #[trigger] cur.relations_stores@[l].spec_has(ORIGIN) by {
            assert(pre.relations_stores@[l].spec_has(ORIGIN));
        }
    }

    assert(cur.coherent()) by {
        assert forall|l: int, x: BlockHash|
            0 <= l < levels && #[trigger] cur.relations_stores@[l].spec_has(x) implies
            cur.reachability_store.spec_has(x) by {
            if x != h {
                assert(pre.relations_stores@[l].spec_has(x));
            }
        }
        assert forall|l: int, x: BlockHash|
            0 <= l < levels && #[trigger] cur.relations_stores@[l].spec_has(x) && x != ORIGIN
            implies cur.ghostdag_stores@[l].spec_has(x) && cur.headers_store.map@.contains_key(
            x,
        ) by {
            if x != h {
                assert(pre.relations_stores@[l].spec_has(x));
            }
        }
        assert forall|l: int, x: BlockHash|
            0 <= l < levels && #[trigger] cur.ghostdag_stores@[l].spec_has(x) implies
            cur.reachability_store.spec_has(x) && cur.headers_store.map@.contains_key(x) by {
            if x != h {
                assert(pre.ghostdag_stores@[l].spec_has(x));
            }
        }
        assert forall|l: int, x: BlockHash, i: int|
            0 <= l < levels && #[trigger] cur.ghostdag_stores@[l].spec_has(x) && 0 <= i
                < cur.ghostdag_stores@[l].map@[x].mergeset_blues@.len() implies
            cur.reachability_store.spec_has(
            #[trigger] cur.ghostdag_stores@[l].map@[x].mergeset_blues@[i],
        ) by {
            if x == h && l <= bl {
                assert(cur.ghostdag_stores@[l].map@[x] == gdv[l]);
                let blues = gdv[l].mergeset_blues@;
                if npp@[l]@ =~= seq![ORIGIN] {
                    assert(blues.len() == 0);
                } else {
                    if i == 0 {
                        let sp = gdv[l].selected_parent;
                        assert(npp@[l]@.contains(sp));
                        let jp = choose|jp: int| 0 <= jp < npp@[l]@.len() && npp@[l]@[jp] == sp;
                        assert(pre.relations_stores@[l].spec_has(sp));
                        assert(pre.reachability_store.spec_has(sp));
                    } else {
                        assert(crate::ghostdag::in_mergeset_of(
                            pre.relations_stores@[l],
                            pre.reachability_store,
                            npp@[l]@,
                            gdv[l].selected_parent,
                            blues[i],
                        ));
                    }
                }
            } else {
                assert(pre.ghostdag_stores@[l].spec_has(x));
                assert(cur.ghostdag_stores@[l].map@[x] == pre.ghostdag_stores@[l].map@[x]);
                assert(pre.reachability_store.spec_has(
                    pre.ghostdag_stores@[l].map@[x].mergeset_blues@[i],
                ));
            }
        }
    }

    assert(cur.admitted_closed()) by {
        assert forall|x: BlockHash|
            #[trigger] cur.admitted(x) implies x != ORIGIN && cur.headers_store.map@.contains_key(
            x,
        ) && cur.headers_store.map@[x].block_level <= cur.max_block_level
            && cur.reachability_store.spec_has(x) by {
            if x != h {
                assert(pre.admitted(x));
                assert(cur.headers_store.map@[x] == pre.headers_store.map@[x]);
            }
        }
        assert forall|x: BlockHash, l: int|
            #[trigger] cur.admitted(x) && 0 <= l <= cur.headers_store.map@[x].block_level implies
            (#[trigger] cur.relations_stores@[l].spec_has(x)) && cur.ghostdag_stores@[l].spec_has(
            x,
        ) by {
            if x == h {
                assert(cur.headers_store.map@[h].block_level == block_level);
            } else {
                assert(pre.admitted(x));
                assert(cur.headers_store.map@[x] == pre.headers_store.map@[x]);
                assert(pre.relations_stores@[l].spec_has(x));
                assert(pre.ghostdag_stores@[l].spec_has(x));
            }
        }
        assert forall|l: int, x: BlockHash|
            0 <= l < levels && #[trigger] cur.relations_stores@[l].spec_has(x) implies x == ORIGIN
            || cur.admitted(x) by {
            if x != h {
                assert(pre.relations_stores@[l].spec_has(x));
            }
        }
        assert forall|x: BlockHash, pj: int|
            #[trigger] cur.admitted(x) && 0 <= pj
                < cur.relations_stores@[0].parents@[x]@.len() implies (
        #[trigger] cur.relations_stores@[0].parents@[x]@[pj]) == ORIGIN || cur.admitted(
            cur.relations_stores@[0].parents@[x]@[pj],
        ) by {
            if x == h {
                assert(cur.relations_stores@[0].parents@[h]@ == npp@[0]@);
                let p = npp@[0]@[pj];
                if npp@[0]@ =~= seq![ORIGIN] {
                    assert(p == ORIGIN);
                } else {
                    assert(pre.relations_stores@[0].spec_has(p));
                    assert(p == ORIGIN || pre.admitted(p));
                }
            } else {
                assert(pre.admitted(x));
                assert(cur.relations_stores@[0].parents@[x] == pre.relations_stores@[0].parents@[x]);
                let p = pre.relations_stores@[0].parents@[x]@[pj];
                assert(p == ORIGIN || pre.admitted(p));
            }
        }
        assert forall|x: BlockHash|
            #[trigger] cur.headers_store.map@.contains_key(x) implies cur.admitted(x) by {
            if x != h {
                assert(pre.headers_store.map@.contains_key(x));
                assert(pre.admitted(x));
            }
        }
        assert forall|l: int, x: BlockHash|
            0 <= l < levels && #[trigger] cur.ghostdag_stores@[l].spec_has(x) implies cur.admitted(
            x,
        ) by {
            if x != h {
                assert(pre.ghostdag_stores@[l].spec_has(x));
                assert(pre.admitted(x));
            }
        }
        assert forall|x: BlockHash|
            #[trigger] cur.reachability_store.spec_has(x) implies x == ORIGIN || cur.admitted(
            x,
        ) by {
            if x != h {
                assert(pre.reachability_store.spec_has(x));
            }
        }
        assert forall|x: BlockHash|
            #[trigger] cur.daa_store.map@.contains_key(x) implies cur.admitted(x) by {
            if x != h {
                assert(cur.daa_store.map@.dom() == pre.daa_store.map@.dom().insert(h));
                assert(pre.daa_store.map@.contains_key(x));
            }
        }
        assert forall|x: BlockHash|
            #[trigger] cur.depth_store.map@.contains_key(x) implies cur.admitted(x) by {
            if x != h {
                assert(pre.depth_store.map@.contains_key(x));
            }
        }
        assert forall|x: BlockHash|
            #[trigger] cur.admitted(x) implies cur.reachability_store.nodes@[x].parent
            == cur.ghostdag_stores@[0].map@[x].selected_parent by {
            if x == h {
                assert(cur.ghostdag_stores@[0].map@[h] == gdv[0]);
            } else {
                assert(pre.admitted(x));
                assert(pre.reachability_store.nodes@.contains_key(x));
                assert(cur.reachability_store.nodes@[x].parent == pre.reachability_store.nodes@[x]
                    .parent);
                assert(cur.ghostdag_stores@[0].map@[x] == pre.ghostdag_stores@[0].map@[x]);
            }
        }
    }

    assert(cur.tip_ok()) by {
        let t0 = match pre.headers_selected_tip_store.tip {
            Some(t0) => t0,
            None => SortableBlock { hash: ORIGIN, blue_work: 0 },
        };
        if spec_work_lt(t0.blue_work, t0.hash, header.blue_work, h) {
            let t1 = SortableBlock { hash: h, blue_work: header.blue_work };
            assert(cur.headers_selected_tip_store.tip == Some(t1));
            assert(cur.admitted(h));
            assert(cur.headers_store.map@[h].header.blue_work == header.blue_work);
            assert forall|x: BlockHash|
                #[trigger] cur.admitted(x) implies !spec_work_lt(
                t1.blue_work,
                t1.hash,
                cur.headers_store.map@[x].header.blue_work,
                x,
            ) by {
                if x != h {
                    assert(pre.admitted(x));
                    assert(cur.headers_store.map@[x] == pre.headers_store.map@[x]);
                    assert(!spec_work_lt(
                        t0.blue_work,
                        t0.hash,
                        pre.headers_store.map@[x].header.blue_work,
                        x,
                    ));
                }
            }
        } else {
            assert(cur.headers_selected_tip_store.tip == Some(t0));
            assert forall|x: BlockHash|
                #[trigger] cur.admitted(x) implies !spec_work_lt(
                t0.blue_work,
                t0.hash,
                cur.headers_store.map@[x].header.blue_work,
                x,
            ) by {
                if x == h {
                    assert(cur.headers_store.map@[h].header.blue_work == header.blue_work);
                } else {
                    assert(pre.admitted(x));
                    assert(cur.headers_store.map@[x] == pre.headers_store.map@[x]);
                }
            }
            if t0.hash != ORIGIN || t0.blue_work != 0 {
                assert(pre.admitted(t0.hash));
                assert(t0.hash != h);
                assert(cur.headers_store.map@[t0.hash] == pre.headers_store.map@[t0.hash]);
            }
        }
    }
}

/// Every admitted hash is fully recorded: a status, its header, a
/// reachability node, and — at every level up to its block level — a
/// relations entry and a GHOSTDAG record.
pub proof fn lemma_admitted_fully_recorded(p: &HeaderProcessor, h: BlockHash, l: int)
    requires
        p.consistent(),
        p.admitted(h),
        0 <= l <= p.headers_store.map@[h].block_level,
    ensures
        p.statuses_store.map@.contains_key(h),
        p.headers_store.map@.contains_key(h),
        p.reachability_store.spec_has(h),
        p.relations_stores@[l].spec_has(h),
        p.ghostdag_stores@[l].spec_has(h),
{
}

/// Every level-0 parent recorded for an admitted hash is itself admitted,
/// or the origin sentinel; in particular no admitted header references an
/// invalid block as parent.
pub proof fn lemma_recorded_parents_admitted(p: &HeaderProcessor, h: BlockHash, pj: int)
    requires
        p.consistent(),
        p.admitted(h),
        0 <= pj < p.relations_stores@[0].parents@[h]@.len(),
    ensures
        p.relations_stores@[0].parents@[h]@[pj] == ORIGIN || (p.admitted(
            p.relations_stores@[0].parents@[h]@[pj],
        ) && !(p.statuses_store.map@[p.relations_stores@[0].parents@[h]@[pj]] is Invalid)),
{
}

/// The selected parent of an admitted hash reaches it in the DAG: it is
/// its reachability-tree parent, so the ancestry query answers true.
pub proof fn lemma_selected_parent_reaches(p: &HeaderProcessor, h: BlockHash)
    requires
        p.consistent(),
        p.admitted(h),
    ensures
        crate::reachability::spec_chain_ancestor(
            p.reachability_store.nodes@,
            p.ghostdag_stores@[0].map@[h].selected_parent,
            h,
        ),
        crate::reachability::spec_dag_ancestor(
            p.reachability_store.nodes@,
            p.ghostdag_stores@[0].map@[h].selected_parent,
            h,
        ),
{
    let m = p.reachability_store.nodes@;
    let sp = p.ghostdag_stores@[0].map@[h].selected_parent;
    assert(m.contains_key(h));
    assert(m[h].parent == sp);
    assert(h != ORIGIN);
    assert(m.contains_key(m[h].parent));
    assert(m[m[h].parent].depth < m[h].depth);
    assert(crate::reachability::spec_chain_ancestor(m, sp, m[h].parent));
}

/// The headers-selected-tip is the admitted header of maximum
/// `(blue_work, hash)`: it is itself admitted (or the origin sentinel
/// before any admission), and no admitted header exceeds it.
pub proof fn lemma_tip_is_argmax(p: &HeaderProcessor, h: BlockHash)
    requires
        p.consistent(),
        p.admitted(h),
    ensures
        p.headers_selected_tip_store.tip is Some,
        !spec_work_lt(
            p.headers_selected_tip_store.tip->Some_0.blue_work,
            p.headers_selected_tip_store.tip->Some_0.hash,
            p.headers_store.map@[h].header.blue_work,
            h,
        ),
        (p.headers_selected_tip_store.tip->Some_0.hash == ORIGIN
            && p.headers_selected_tip_store.tip->Some_0.blue_work == 0) || p.admitted(
            p.headers_selected_tip_store.tip->Some_0.hash,
        ),
{
}

/// The selected parent is a function of the stores alone: two blocks
/// satisfying the maximality rule over the same parents coincide. One
/// deterministic piece of the engine: reruns pick the same selected
/// parent.
pub proof fn lemma_selected_parent_unique(
    gd: Map<BlockHash, GhostdagData>,
    parents: Seq<BlockHash>,
    a: BlockHash,
    b: BlockHash,
)
    requires
        crate::ghostdag::is_selected_parent(gd, parents, a),
        crate::ghostdag::is_selected_parent(gd, parents, b),
    ensures
        a == b,
{
    if a != b {
        let i = choose|i: int| 0 <= i < parents.len() && parents[i] == a;
        let j = choose|j: int| 0 <= j < parents.len() && parents[j] == b;
        assert(spec_work_lt(gd[a].blue_work, a, gd[b].blue_work, b));
        assert(spec_work_lt(gd[b].blue_work, b, gd[a].blue_work, a));
    }
}

} // verus!
