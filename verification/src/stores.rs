//! The simple persistent stores: statuses, headers, DAA, depth, pruning
//! info, and the headers-selected-tip.
//!
//! Each store is a typed map over one key space. The headers, DAA and depth
//! stores are append-only: a key is written once and the value never
//! changes afterwards.

use vstd::prelude::*;
use crate::hashes::BlockHash;
use crate::header::Header;
use crate::keymap::KeyMap;
use crate::status::BlockStatus;
use crate::errors::StoreError;

verus! {

/// Hash -> lifecycle status.
pub struct StatusesStore {
    pub map: KeyMap<BlockStatus>,
}

impl StatusesStore {
    pub open spec fn wf(&self) -> bool {
        self.map.wf()
    }

    pub fn new() -> (r: Self)
        ensures
            r.wf(),
            r.map@ == Map::<BlockHash, BlockStatus>::empty(),
    {
        StatusesStore { map: KeyMap::new() }
    }

    pub fn has(&self, h: BlockHash) -> (r: bool)
        requires
            self.wf(),
        ensures
            r == self.map@.contains_key(h),
    {
        self.map.contains_key(h)
    }

    pub fn get(&self, h: BlockHash) -> (r: Option<BlockStatus>)
        requires
            self.wf(),
        ensures
            match r {
                Some(s) => self.map@.contains_key(h) && s == self.map@[h],
                None => !self.map@.contains_key(h),
            },
    {
        match self.map.get(h) {
            Some(s) => Some(*s),
            None => None,
        }
    }

    pub fn set(&mut self, h: BlockHash, s: BlockStatus)
        requires
            old(self).wf(),
        ensures
            final(self).wf(),
            final(self).map@ == old(self).map@.insert(h, s),
    {
        self.map.insert(h, s);
    }
}

/// A header together with the block level derived from its proof of work.
pub struct StoredHeader {
    pub header: Header,
    pub block_level: u8,
}

/// Hash -> header blob; append-only.
pub struct HeadersStore {
    pub map: KeyMap<StoredHeader>,
}

impl HeadersStore {
    pub open spec fn wf(&self) -> bool {
        &&& self.map.wf()
        &&& forall|h: BlockHash|
            #[trigger] self.map@.contains_key(h) ==> self.map@[h].header.hash == h
    }

    pub fn new() -> (r: Self)
        ensures
            r.wf(),
            r.map@ == Map::<BlockHash, StoredHeader>::empty(),
    {
        HeadersStore { map: KeyMap::new() }
    }

    pub fn has(&self, h: BlockHash) -> (r: bool)
        requires
            self.wf(),
        ensures
            r == self.map@.contains_key(h),
    {
        self.map.contains_key(h)
    }

    pub fn get(&self, h: BlockHash) -> (r: Option<&StoredHeader>)
        requires
            self.wf(),
        ensures
            match r {
                Some(e) => self.map@.contains_key(h) && *e == self.map@[h],
                None => !self.map@.contains_key(h),
            },
    {
        self.map.get(h)
    }

    /// Write-once insertion.
    pub fn insert(&mut self, header: Header, block_level: u8)
        requires
            old(self).wf(),
            !old(self).map@.contains_key(header.hash),
        ensures
            final(self).wf(),
            final(self).map@ == old(self).map@.insert(
                header.hash,
                StoredHeader { header, block_level },
            ),
    {
        let h = header.hash;
        self.map.insert(h, StoredHeader { header, block_level });
    }
}

/// Hash -> the mergeset members excluded from difficulty adjustment;
/// append-only.
pub struct DaaStore {
    pub map: KeyMap<Vec<BlockHash>>,
}

impl DaaStore {
    pub open spec fn wf(&self) -> bool {
        self.map.wf()
    }

    pub fn new() -> (r: Self)
        ensures
            r.wf(),
            r.map@ == Map::<BlockHash, Vec<BlockHash>>::empty(),
    {
        DaaStore { map: KeyMap::new() }
    }

    pub fn has(&self, h: BlockHash) -> (r: bool)
        requires
            self.wf(),
        ensures
            r == self.map@.contains_key(h),
    {
        self.map.contains_key(h)
    }

    /// Write-once insertion.
    pub fn insert(&mut self, h: BlockHash, mergeset_non_daa: Vec<BlockHash>)
        requires
            old(self).wf(),
            !old(self).map@.contains_key(h),
        ensures
            final(self).wf(),
            final(self).map@ == old(self).map@.insert(h, mergeset_non_daa),
    {
        self.map.insert(h, mergeset_non_daa);
    }
}

/// The merge-depth root and finality point of a block.
#[derive(Clone, Copy, PartialEq, Eq, Structural, Debug)]
pub struct DepthInfo {
    pub merge_depth_root: BlockHash,
    pub finality_point: BlockHash,
}

/// Hash -> depth info; append-only.
pub struct DepthStore {
    pub map: KeyMap<DepthInfo>,
}

impl DepthStore {
    pub open spec fn wf(&self) -> bool {
        self.map.wf()
    }

    pub fn new() -> (r: Self)
        ensures
            r.wf(),
            r.map@ == Map::<BlockHash, DepthInfo>::empty(),
    {
        DepthStore { map: KeyMap::new() }
    }

    pub fn has(&self, h: BlockHash) -> (r: bool)
        requires
            self.wf(),
        ensures
            r == self.map@.contains_key(h),
    {
        self.map.contains_key(h)
    }

    /// Write-once insertion.
    pub fn insert(&mut self, h: BlockHash, info: DepthInfo)
        requires
            old(self).wf(),
            !old(self).map@.contains_key(h),
        ensures
            final(self).wf(),
            final(self).map@ == old(self).map@.insert(h, info),
    {
        self.map.insert(h, info);
    }
}

/// The finalized pruning point, its index, and the next candidate.
#[derive(Clone, Copy, PartialEq, Eq, Structural, Debug)]
pub struct PruningPointInfo {
    pub pruning_point: BlockHash,
    pub candidate: BlockHash,
    pub index: u64,
}

/// Single-value store for the pruning info; its index only moves forward.
pub struct PruningStore {
    pub info: Option<PruningPointInfo>,
}

impl PruningStore {
    pub fn new() -> (r: Self)
        ensures
            r.info is None,
    {
        PruningStore { info: None }
    }

    pub fn get(&self) -> (r: Result<PruningPointInfo, StoreError>)
        ensures
            match r {
                Ok(info) => self.info == Some(info),
                Err(e) => self.info is None && e == StoreError::KeyNotFound,
            },
    {
        match self.info {
            Some(info) => Ok(info),
            None => Err(StoreError::KeyNotFound),
        }
    }

    /// Monotonic update: the index never moves backward.
    pub fn set(&mut self, pruning_point: BlockHash, candidate: BlockHash, index: u64)
        requires
            match old(self).info {
                Some(prev) => prev.index <= index,
                None => true,
            },
        ensures
            final(self).info == Some(PruningPointInfo { pruning_point, candidate, index }),
    {
        self.info = Some(PruningPointInfo { pruning_point, candidate, index });
    }
}

/// A block labelled by its blue work, ordered by `(blue_work, hash)`.
#[derive(Clone, Copy, PartialEq, Eq, Structural, Debug)]
pub struct SortableBlock {
    pub hash: BlockHash,
    pub blue_work: u128,
}

/// Single-value store for the headers-selected-tip.
pub struct HeadersSelectedTipStore {
    pub tip: Option<SortableBlock>,
}

impl HeadersSelectedTipStore {
    pub fn new() -> (r: Self)
        ensures
            r.tip is None,
    {
        HeadersSelectedTipStore { tip: None }
    }

    pub fn get(&self) -> (r: Result<SortableBlock, StoreError>)
        ensures
            match r {
                Ok(t) => self.tip == Some(t),
                Err(e) => self.tip is None && e == StoreError::KeyNotFound,
            },
    {
        match self.tip {
            Some(t) => Ok(t),
            None => Err(StoreError::KeyNotFound),
        }
    }

    pub fn set(&mut self, tip: SortableBlock)
        ensures
            final(self).tip == Some(tip),
    {
        self.tip = Some(tip);
    }
}

} // verus!
