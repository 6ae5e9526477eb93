//! The dependency manager: sequences header tasks so that a header runs
//! only after all its direct parents were admitted.
//!
//! Each pending hash carries the registered result sinks (opaque
//! identifiers the surrounding runtime maps to channels), the hashes
//! waiting on it, and a running flag. The manager only sequences work; it
//! never validates anything itself.

use vstd::prelude::*;
use crate::hashes::BlockHash;
use crate::header::Header;
use crate::keymap::KeyMap;
use crate::stores::StatusesStore;

verus! {

/// One pending block task.
pub struct TaskEntry {
    /// The block waiting to be processed.
    pub block: Header,
    /// Result sinks to be notified exactly once when the task ends.
    pub sinks: Vec<u64>,
    /// Hashes whose processing waits on this one.
    pub dependents: Vec<BlockHash>,
    /// Set once a worker picked the task up.
    pub running: bool,
}

/// The synchronized record of pending tasks.
pub struct BlockTaskDependencyManager {
    pub tasks: KeyMap<TaskEntry>,
}

/// Every direct parent of `header` carries an admitted status.
pub open spec fn spec_all_parents_admitted(statuses: StatusesStore, header: Header) -> bool {
    forall|i: int|
        0 <= i < header.spec_direct_parents().len() ==> statuses.map@.contains_key(
            #[trigger] header.spec_direct_parents()[i],
        ) && statuses.map@[header.spec_direct_parents()[i]].spec_is_admitted()
}

/// When `try_begin` hands the task out: present and not yet running.
pub open spec fn spec_try_begin(m: Map<BlockHash, TaskEntry>, h: BlockHash) -> bool {
    m.contains_key(h) && !m[h].running
}

impl BlockTaskDependencyManager {
    pub open spec fn wf(&self) -> bool {
        &&& self.tasks.wf()
        &&& forall|h: BlockHash|
            #[trigger] self.tasks@.contains_key(h) ==> self.tasks@[h].block.hash == h
    }

    pub fn new() -> (r: Self)
        ensures
            r.wf(),
            r.tasks@ == Map::<BlockHash, TaskEntry>::empty(),
    {
        BlockTaskDependencyManager { tasks: KeyMap::new() }
    }

    /// Whether no task is pending; the runtime drains until this holds
    /// before forwarding the exit signal downstream.
    pub fn is_idle(&self) -> (r: bool)
        requires
            self.wf(),
        ensures
            r == (self.tasks@.dom().len() == 0),
    {
        self.tasks.len() == 0
    }

    /// Registers a block with its result sinks. Returns true exactly when
    /// the caller must spawn a worker: the hash was not pending yet and all
    /// its direct parents are admitted. A block already pending only
    /// collects the extra sinks. A fresh block is queued and recorded as a
    /// dependent of each pending unadmitted parent.
    pub fn register(&mut self, block: Header, sinks: Vec<u64>, statuses: &StatusesStore) -> (r:
        bool)
        requires
            old(self).wf(),
            statuses.wf(),
        ensures
            final(self).wf(),
            r == (!old(self).tasks@.contains_key(block.hash) && spec_all_parents_admitted(
                *statuses,
                block,
            )),
            final(self).tasks@.contains_key(block.hash),
            old(self).tasks@.contains_key(block.hash) ==> {
                &&& final(self).tasks@[block.hash].sinks@ == old(self).tasks@[block.hash].sinks@ + sinks@
                &&& final(self).tasks@[block.hash].running == old(self).tasks@[block.hash].running
                &&& final(self).tasks@[block.hash].block == old(self).tasks@[block.hash].block
                &&& final(self).tasks@[block.hash].dependents == old(self).tasks@[block.hash].dependents
            },
            !old(self).tasks@.contains_key(block.hash) ==> {
                &&& final(self).tasks@[block.hash].sinks@ == sinks@
                &&& final(self).tasks@[block.hash].running == false
                &&& final(self).tasks@[block.hash].block == block
                &&& forall|d: BlockHash|
                    #[trigger] final(self).tasks@[block.hash].dependents@.contains(d) ==> old(self).tasks@.contains_key(d) && old(self).tasks@[d].block.spec_direct_parents()
                        .contains(block.hash)
                &&& forall|d: BlockHash|
                    old(self).tasks@.contains_key(d) && #[trigger] old(self).tasks@[d].block.spec_direct_parents().contains(block.hash) ==> final(self).tasks@[block.hash].dependents@.contains(d)
            },
            forall|x: BlockHash|
                x != block.hash ==> (#[trigger] final(self).tasks@.contains_key(x) == old(self).tasks@.contains_key(x)),
    {
        let h = block.hash;
        match self.tasks.take(h) {
            Some(entry) => {
                // Already pending: only append the new sinks.
                let TaskEntry { block: eb, sinks: mut es, dependents, running } = entry;
                let sn = sinks.len();
                let ghost es0 = old(self).tasks@[h].sinks@;
                for i in 0..sn
                    invariant
                        sn == sinks@.len(),
                        es@ == es0 + sinks@.subrange(0, i as int),
                {
                    es.push(sinks[i]);
                    proof {
                        assert(es@ =~= es0 + sinks@.subrange(0, i + 1));
                    }
                }
                proof {
                    assert(es0 + sinks@.subrange(0, sn as int) =~= es0 + sinks@);
                }
                self.tasks.insert(
                    h,
                    TaskEntry { block: eb, sinks: es, dependents, running },
                );
                proof {
                    assert(self.tasks@ =~= old(self).tasks@.insert(h, self.tasks@[h]));
                }
                false
            },
            None => {
                let all_admitted = parents_admitted(statuses, &block);
                let dp = block.direct_parents();
                // Blocks already queued that wait on this one become its
                // dependents, so that its completion releases them.
                let mut waiting: Vec<BlockHash> = Vec::new();
                let tn = self.tasks.len();
                proof {
                    self.tasks.lemma_seq_view();
                }
                let mut t: usize = 0;
                while t < tn
                    invariant
                        self.wf(),
                        *self == *old(self),
                        tn == self.tasks.seq().len(),
                        t <= tn,
                        h == block.hash,
                        forall|d: BlockHash|
                            #[trigger] waiting@.contains(d) ==> self.tasks@.contains_key(d)
                                && self.tasks@[d].block.spec_direct_parents().contains(h),
                        forall|j: int|
                            0 <= j < t ==> (self.tasks.seq()[j].1.block.spec_direct_parents()
                                .contains(h) ==> waiting@.contains(
                                (#[trigger] self.tasks.seq()[j]).0,
                            )),
                    decreases tn - t,
                {
                    proof {
                        self.tasks.lemma_seq_view();
                    }
                    let key = self.tasks.key_at(t);
                    let waits = crate::header::hashes_contain(
                        &self.tasks.value_at(t).block.direct_parents(),
                        h,
                    );
                    if waits {
                        let ghost prew = waiting@;
                        waiting.push(key);
                        proof {
                            assert(waiting@.last() == key);
                            assert(self.tasks@[key].block == self.tasks.seq()[t as int].1.block);
                            assert forall|d: BlockHash|
                                #[trigger] waiting@.contains(d) implies self.tasks@.contains_key(
                                d,
                            ) && self.tasks@[d].block.spec_direct_parents().contains(h) by {
                                let k = choose|k: int| 0 <= k < waiting@.len() && waiting@[k] == d;
                                if k < prew.len() {
                                    assert(prew.contains(prew[k]));
                                }
                            }
                            assert forall|j: int|
                                0 <= j < t + 1 && self.tasks.seq()[j].1.block
                                    .spec_direct_parents().contains(h) implies waiting@.contains(
                                (#[trigger] self.tasks.seq()[j]).0,
                            ) by {
                                if j < t as int {
                                    if prew.contains(self.tasks.seq()[j].0) {
                                        let k = choose|k: int|
                                            0 <= k < prew.len() && prew[k] == self.tasks.seq()[j].0;
                                        assert(waiting@[k] == self.tasks.seq()[j].0);
                                    }
                                }
                            }
                        }
                    }
                    t = t + 1;
                }
                let entry = TaskEntry { block, sinks, dependents: waiting, running: false };
                self.tasks.insert(h, entry);
                proof {
                    old(self).tasks.lemma_seq_view();
                    assert forall|d: BlockHash|
                        #[trigger] self.tasks@[h].dependents@.contains(d) implies old(self).tasks@.contains_key(d) && old(self).tasks@[d].block.spec_direct_parents()
                        .contains(h) by {}
                    assert forall|d: BlockHash|
                        old(self).tasks@.contains_key(d) && #[trigger] old(self).tasks@[d].block.spec_direct_parents().contains(h) implies
                        self.tasks@[h].dependents@.contains(d) by {
                        assert(crate::keymap::has_key(old(self).tasks.seq(), d));
                        let j = choose|j: int|
                            0 <= j < old(self).tasks.seq().len() && old(self).tasks.seq()[j].0
                                == d;
                        assert(old(self).tasks@[d] == old(self).tasks.seq()[j].1);
                    }
                }
                // Record this hash as a dependent of each pending parent
                // that is not admitted yet.
                let dn = dp.len();
                let ghost after_insert = self.tasks@;
                let mut i: usize = 0;
                while i < dn
                    invariant
                        self.wf(),
                        statuses.wf(),
                        i <= dn,
                        dn == dp@.len(),
                        self.tasks@.dom() == after_insert.dom(),
                        self.tasks@[h] == after_insert[h],
                        after_insert.contains_key(h),
                    decreases dn - i,
                {
                    let p = dp[i];
                    if p != h && !is_admitted(statuses, p) {
                        match self.tasks.take(p) {
                            Some(pe) => {
                                let TaskEntry {
                                    block: pb,
                                    sinks: ps,
                                    dependents: mut pd,
                                    running: pr,
                                } = pe;
                                pd.push(h);
                                self.tasks.insert(
                                    p,
                                    TaskEntry {
                                        block: pb,
                                        sinks: ps,
                                        dependents: pd,
                                        running: pr,
                                    },
                                );
                                proof {
                                    assert(self.tasks@.dom() =~= after_insert.dom());
                                }
                            },
                            None => {},
                        }
                    }
                    i = i + 1;
                }
                all_admitted
            },
        }
    }

    /// Atomically claims the task: returns the block when the hash is
    /// pending and no other worker holds it, and nothing otherwise. Until
    /// the task ends, every further claim is refused — the
    /// mutual-exclusion rule.
    pub fn try_begin(&mut self, h: BlockHash) -> (r: Option<Header>)
        requires
            old(self).wf(),
        ensures
            final(self).wf(),
            r is Some <==> spec_try_begin(old(self).tasks@, h),
            match r {
                Some(b) => {
                    &&& b.hash == h
                    &&& b.timestamp == old(self).tasks@[h].block.timestamp
                    &&& b.bits == old(self).tasks@[h].block.bits
                    &&& b.blue_work == old(self).tasks@[h].block.blue_work
                    &&& b.block_level == old(self).tasks@[h].block.block_level
                    &&& b.spec_direct_parents() == old(self).tasks@[h].block.spec_direct_parents()
                    &&& final(self).tasks@.dom() == old(self).tasks@.dom()
                    &&& final(self).tasks@[h].running == true
                    &&& final(self).tasks@[h].sinks == old(self).tasks@[h].sinks
                    &&& final(self).tasks@[h].dependents == old(self).tasks@[h].dependents
                    &&& forall|x: BlockHash|
                        x != h && #[trigger] old(self).tasks@.contains_key(x) ==> final(self).tasks@[x] == old(self).tasks@[x]
                },
                None => final(self).tasks@ == old(self).tasks@,
            },
    {
        let run = match self.tasks.get(h) {
            Some(entry) => entry.running,
            None => {
                return None;
            },
        };
        if run {
            return None;
        }
        let entry = self.tasks.take(h).unwrap();
        let TaskEntry { block, sinks, dependents, running: _ } = entry;
        let out = crate::header::clone_header(&block);
        let out2 = TaskEntry { block, sinks, dependents, running: true };
        let ghost kept = out2.block;
        self.tasks.insert(h, out2);
        proof {
            assert(self.tasks@.dom() =~= old(self).tasks@.dom());
        }
        Some(out)
    }

    /// Removes the ended task, handing back its collected sinks — each is
    /// notified exactly once, since the entry is gone afterwards — together
    /// with the dependents that now have every parent admitted and should
    /// be spawned.
    pub fn end(&mut self, h: BlockHash, statuses: &StatusesStore) -> (r: Option<
        (Vec<u64>, Vec<BlockHash>),
    >)
        requires
            old(self).wf(),
            statuses.wf(),
        ensures
            final(self).wf(),
            r is Some <==> old(self).tasks@.contains_key(h),
            match r {
                Some(out) => {
                    &&& final(self).tasks@ == old(self).tasks@.remove(h)
                    &&& out.0 == old(self).tasks@[h].sinks
                    &&& forall|j: int|
                        0 <= j < out.1@.len() ==> old(self).tasks@[h].dependents@.contains(
                            #[trigger] out.1@[j],
                        ) && final(self).tasks@.contains_key(out.1@[j])
                            && spec_all_parents_admitted(
                            *statuses,
                            final(self).tasks@[out.1@[j]].block,
                        )
                    &&& forall|j: int|
                        0 <= j < old(self).tasks@[h].dependents@.len()
                            ==> ((final(self).tasks@.contains_key(
                            #[trigger] old(self).tasks@[h].dependents@[j],
                        ) && spec_all_parents_admitted(
                            *statuses,
                            final(self).tasks@[old(self).tasks@[h].dependents@[j]].block,
                        )) ==> out.1@.contains(old(self).tasks@[h].dependents@[j]))
                },
                None => final(self).tasks@ == old(self).tasks@,
            },
    {
        let entry = match self.tasks.take(h) {
            Some(e) => e,
            None => {
                return None;
            },
        };
        let TaskEntry { block: _, sinks, dependents, running: _ } = entry;
        let mut ready: Vec<BlockHash> = Vec::new();
        let dn = dependents.len();
        for i in 0..dn
            invariant
                self.wf(),
                statuses.wf(),
                dn == dependents@.len(),
                dependents@ == old(self).tasks@[h].dependents@,
                self.tasks@ == old(self).tasks@.remove(h),
                forall|j: int|
                    0 <= j < ready@.len() ==> dependents@.contains(#[trigger] ready@[j])
                        && self.tasks@.contains_key(ready@[j]) && spec_all_parents_admitted(
                        *statuses,
                        self.tasks@[ready@[j]].block,
                    ),
                forall|j: int|
                    0 <= j < i ==> ((self.tasks@.contains_key(#[trigger] dependents@[j])
                        && spec_all_parents_admitted(
                        *statuses,
                        self.tasks@[dependents@[j]].block,
                    )) ==> ready@.contains(dependents@[j])),
        {
            let d = dependents[i];
            let mut is_ready = false;
            match self.tasks.get(d) {
                Some(de) => {
                    if parents_admitted(statuses, &de.block) {
                        is_ready = true;
                    }
                },
                None => {},
            }
            if is_ready {
                let ghost prer = ready@;
                ready.push(d);
                proof {
                    assert(dependents@.contains(dependents@[i as int]));
                    assert(ready@.last() == d);
                    assert forall|j: int|
                        0 <= j < i + 1 && self.tasks@.contains_key(#[trigger] dependents@[j])
                            && spec_all_parents_admitted(
                            *statuses,
                            self.tasks@[dependents@[j]].block,
                        ) implies ready@.contains(dependents@[j]) by {
                        if j < i as int {
                            if prer.contains(dependents@[j]) {
                                let k = choose|k: int|
                                    0 <= k < prer.len() && prer[k] == dependents@[j];
                                assert(ready@[k] == dependents@[j]);
                            }
                        }
                    }
                }
            }
        }
        Some((sinks, ready))
    }
}

/// Whether `h` carries an admitted status.
fn is_admitted(statuses: &StatusesStore, h: BlockHash) -> (r: bool)
    requires
        statuses.wf(),
    ensures
        r == (statuses.map@.contains_key(h) && statuses.map@[h].spec_is_admitted()),
{
    match statuses.get(h) {
        Some(s) => s.is_admitted(),
        None => false,
    }
}

/// Whether all direct parents of `header` are admitted.
fn parents_admitted(statuses: &StatusesStore, header: &Header) -> (r: bool)
    requires
        statuses.wf(),
    ensures
        r == spec_all_parents_admitted(*statuses, *header),
{
    let dp = header.direct_parents();
    let dn = dp.len();
    for i in 0..dn
        invariant
            statuses.wf(),
            dn == dp@.len(),
            dp@ == header.spec_direct_parents(),
            forall|j: int|
                0 <= j < i ==> statuses.map@.contains_key(#[trigger] dp@[j])
                    && statuses.map@[dp@[j]].spec_is_admitted(),
    {
        if !is_admitted(statuses, dp[i]) {
            return false;
        }
    }
    true
}

/// Mutual exclusion for `try_begin`: once a claim succeeded the task is
/// marked running, and every further claim on the same hash is refused
/// until the task ends.
pub proof fn lemma_try_begin_exclusive(
    m: Map<BlockHash, TaskEntry>,
    h: BlockHash,
    claimed: Map<BlockHash, TaskEntry>,
)
    requires
        spec_try_begin(m, h),
        claimed.dom() == m.dom(),
        claimed[h].running == true,
    ensures
        !spec_try_begin(claimed, h),
{
}

/// A sink is notified exactly once: `end` removes the entry together with
/// the collected sinks, so a repeated `end` of the same hash finds nothing
/// and emits to nobody.
pub proof fn lemma_end_emits_once(m: Map<BlockHash, TaskEntry>, h: BlockHash)
    requires
        m.contains_key(h),
    ensures
        !m.remove(h).contains_key(h),
{
}

} // verus!
