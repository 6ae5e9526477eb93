//! A bounded cache of key -> set entries.
//!
//! The bound is on the number of cached keys, not on the elements inside
//! the sets. When the cache is full, a victim entry is chosen at random and
//! evicted to make room — recently inserted entries are not favored.

use vstd::prelude::*;
use crate::hashes::BlockHash;
use crate::keymap::KeyMap;
use crate::random::random_index_below;

verus! {

/// Key -> set of hashes, holding at most `size` entries; a size of zero
/// disables the cache entirely.
pub struct SetCache {
    map: KeyMap<Vec<BlockHash>>,
    size: usize,
}

impl SetCache {
    pub open spec fn wf(&self) -> bool {
        &&& self.spec_map().wf()
        &&& self.spec_map()@.dom().len() <= self.spec_size()
    }

    pub closed spec fn spec_map(&self) -> KeyMap<Vec<BlockHash>> {
        self.map
    }

    pub closed spec fn spec_size(&self) -> usize {
        self.size
    }

    pub fn new(size: usize) -> (r: Self)
        ensures
            r.wf(),
            r.spec_size() == size,
            r.spec_map()@ == Map::<BlockHash, Vec<BlockHash>>::empty(),
    {
        let r = SetCache { map: KeyMap::new(), size };
        proof {
            r.map.lemma_len();
        }
        r
    }

    pub fn contains_key(&self, key: BlockHash) -> (r: bool)
        requires
            self.wf(),
        ensures
            r == self.spec_map()@.contains_key(key),
    {
        self.map.contains_key(key)
    }

    pub fn get(&self, key: BlockHash) -> (r: Option<&Vec<BlockHash>>)
        requires
            self.wf(),
        ensures
            match r {
                Some(v) => self.spec_map()@.contains_key(key) && *v == self.spec_map()@[key],
                None => !self.spec_map()@.contains_key(key),
            },
    {
        self.map.get(key)
    }

    /// Caches `set` under `key`; a full cache first evicts one entry chosen
    /// at random. A zero-sized cache stores nothing.
    pub fn insert(&mut self, key: BlockHash, set: Vec<BlockHash>)
        requires
            old(self).wf(),
        ensures
            final(self).wf(),
            final(self).spec_size() == old(self).spec_size(),
            old(self).spec_size() == 0 ==> *final(self) == *old(self),
            old(self).spec_size() > 0 ==> final(self).spec_map()@.contains_key(key) && final(self).spec_map()@[key] == set,
            old(self).spec_size() > 0 ==> forall|k: BlockHash|
                #[trigger] final(self).spec_map()@.contains_key(k) ==> k == key || old(self).spec_map()@.contains_key(k),
            // Cardinality: an update or a free slot grows by at most one; a
            // full cache stays at the bound.
            old(self).spec_size() > 0 ==> final(self).spec_map()@.dom().len() == (if old(
                self,
            ).spec_map()@.contains_key(key) {
                old(self).spec_map()@.dom().len()
            } else if old(self).spec_map()@.dom().len() >= old(self).spec_size() {
                old(self).spec_map()@.dom().len()
            } else {
                old(self).spec_map()@.dom().len() + 1
            }),
            // A full cache evicts exactly one (randomly chosen) entry.
            old(self).spec_size() > 0 && !old(self).spec_map()@.contains_key(key) && old(
                self,
            ).spec_map()@.dom().len() >= old(self).spec_size() ==> exists|v: BlockHash|
                old(self).spec_map()@.contains_key(v) && !final(self).spec_map()@.contains_key(v)
                    && (forall|k: BlockHash|
                    k != v && k != key ==> #[trigger] final(self).spec_map()@.contains_key(k)
                        == old(self).spec_map()@.contains_key(k)),
            // Otherwise nothing is evicted.
            old(self).spec_size() > 0 && (old(self).spec_map()@.contains_key(key) || old(
                self,
            ).spec_map()@.dom().len() < old(self).spec_size()) ==> forall|k: BlockHash|
                k != key ==> #[trigger] final(self).spec_map()@.contains_key(k) == old(
                    self,
                ).spec_map()@.contains_key(k),
    {
        if self.size == 0 {
            return ;
        }
        proof {
            self.map.lemma_len();
        }
        if self.map.len() >= self.size && !self.map.contains_key(key) {
            // Full, and the key is new: evict a random victim.
            let victim_slot = random_index_below(self.map.len());
            let victim = self.map.key_at(victim_slot);
            self.map.take(victim);
            proof {
                self.map.lemma_len();
                vstd::set::axiom_set_remove_len(old(self).spec_map()@.dom(), victim);
                assert(self.map@.dom() =~= old(self).spec_map()@.dom().remove(victim));
                assert(old(self).spec_map()@.contains_key(victim));
                assert(victim != key);
            }
        }
        let ghost mid = self.map@;
        proof {
            self.map.lemma_len();
        }
        self.map.insert(key, set);
        proof {
            self.map.lemma_len();
            vstd::set::axiom_set_insert_len(mid.dom(), key);
            assert(self.map@.dom() =~= mid.dom().insert(key));
        }
    }

    /// Extends a cached set in place; an uncached key stays uncached (the
    /// disk, not modeled here, keeps the authoritative copy).
    pub fn append_if_entry_exists(&mut self, key: BlockHash, data: BlockHash)
        requires
            old(self).wf(),
        ensures
            final(self).wf(),
            final(self).spec_size() == old(self).spec_size(),
            !old(self).spec_map()@.contains_key(key) || old(self).spec_size() == 0 ==> *final(self) == *old(self),
            old(self).spec_size() > 0 && old(self).spec_map()@.contains_key(key) ==> final(self).spec_map()@.contains_key(key) && final(self).spec_map()@[key]@ == old(self).spec_map()@[key]@.push(data),
            forall|k: BlockHash|
                #[trigger] final(self).spec_map()@.contains_key(k) == old(self).spec_map()@.contains_key(k),
    {
        if self.size == 0 {
            return ;
        }
        match self.map.take(key) {
            Some(mut set) => {
                set.push(data);
                let ghost mid = self.map@;
                proof {
                    old(self).spec_map().lemma_len();
                    self.map.lemma_len();
                }
                self.map.insert(key, set);
                proof {
                    self.map.lemma_len();
                    vstd::set::axiom_set_remove_len(old(self).spec_map()@.dom(), key);
                    vstd::set::axiom_set_insert_len(mid.dom(), key);
                    assert(self.map@.dom() =~= old(self).spec_map()@.dom());
                }
            },
            None => {},
        }
    }

    /// Drops one element from a cached set, when both exist.
    pub fn remove_if_entry_exists(&mut self, key: BlockHash, data: BlockHash)
        requires
            old(self).wf(),
        ensures
            final(self).wf(),
            final(self).spec_size() == old(self).spec_size(),
            old(self).spec_map()@.contains_key(key) && old(self).spec_size() > 0 ==> final(self).spec_map()@.contains_key(key) && (forall|x: BlockHash|
                final(self).spec_map()@[key]@.contains(x) ==> old(self).spec_map()@[key]@.contains(
                    x,
                )) && !final(self).spec_map()@[key]@.contains(data),
            forall|k: BlockHash|
                #[trigger] final(self).spec_map()@.contains_key(k) == old(self).spec_map()@.contains_key(k),
    {
        if self.size == 0 {
            proof {
                old(self).spec_map().lemma_len();
                old(self).spec_map()@.dom().lemma_len0_is_empty();
                assert(forall|k: BlockHash| !#[trigger] old(self).spec_map()@.contains_key(k));
            }
            return ;
        }
        match self.map.take(key) {
            Some(set) => {
                let mut kept: Vec<BlockHash> = Vec::new();
                let n = set.len();
                for i in 0..n
                    invariant
                        n == set@.len(),
                        forall|x: BlockHash|
                            #[trigger] kept@.contains(x) ==> set@.contains(x) && x != data,
                        forall|j: int|
                            0 <= j < i && set@[j] != data ==> kept@.contains(#[trigger] set@[j]),
                {
                    if set[i] != data {
                        let ghost prek = kept@;
                        kept.push(set[i]);
                        proof {
                            assert(kept@.last() == set@[i as int]);
                            assert(set@.contains(set@[i as int]));
                            assert forall|x: BlockHash| #[trigger]
                                kept@.contains(x) implies set@.contains(x) && x != data by {
                                let k = choose|k: int| 0 <= k < kept@.len() && kept@[k] == x;
                                if k < prek.len() {
                                    assert(prek.contains(prek[k]));
                                }
                            }
                            assert forall|j: int|
                                0 <= j < i + 1 && set@[j] != data implies kept@.contains(
                                #[trigger] set@[j],
                            ) by {
                                if j < i as int {
                                    let k = choose|k: int|
                                        0 <= k < prek.len() && prek[k] == set@[j];
                                    assert(kept@[k] == set@[j]);
                                }
                            }
                        }
                    }
                }
                let ghost mid = self.map@;
                proof {
                    old(self).spec_map().lemma_len();
                    self.map.lemma_len();
                }
                self.map.insert(key, kept);
                proof {
                    self.map.lemma_len();
                    vstd::set::axiom_set_remove_len(old(self).spec_map()@.dom(), key);
                    vstd::set::axiom_set_insert_len(mid.dom(), key);
                    assert(self.map@.dom() =~= old(self).spec_map()@.dom());
                }
            },
            None => {},
        }
    }

    /// Evicts the entry under `key`, when present.
    pub fn remove(&mut self, key: BlockHash)
        requires
            old(self).wf(),
        ensures
            final(self).wf(),
            final(self).spec_size() == old(self).spec_size(),
            old(self).spec_size() == 0 ==> *final(self) == *old(self),
            old(self).spec_size() > 0 ==> final(self).spec_map()@ == old(self).spec_map()@.remove(key),
    {
        if self.size == 0 {
            return ;
        }
        proof {
            old(self).spec_map().lemma_len();
        }
        match self.map.take(key) {
            Some(_) => {
                proof {
                    self.map.lemma_len();
                    vstd::set::axiom_set_remove_len(old(self).spec_map()@.dom(), key);
                    assert(self.map@.dom() =~= old(self).spec_map()@.dom().remove(key));
                }
            },
            None => {
                proof {
                    assert(self.map@ =~= old(self).spec_map()@.remove(key));
                }
            },
        }
    }

    /// Evicts the entries under all listed keys.
    pub fn remove_many(&mut self, keys: &Vec<BlockHash>)
        requires
            old(self).wf(),
        ensures
            final(self).wf(),
            final(self).spec_size() == old(self).spec_size(),
            old(self).spec_size() > 0 ==> forall|k: BlockHash|
                keys@.contains(k) ==> !final(self).spec_map()@.contains_key(k),
            forall|k: BlockHash|
                !keys@.contains(k) ==> #[trigger] final(self).spec_map()@.contains_key(k) == old(self).spec_map()@.contains_key(k),
    {
        if self.size == 0 {
            proof {
                old(self).spec_map().lemma_len();
                old(self).spec_map()@.dom().lemma_len0_is_empty();
                assert(forall|k: BlockHash| !#[trigger] old(self).spec_map()@.contains_key(k));
            }
            return ;
        }
        let n = keys.len();
        for i in 0..n
            invariant
                self.wf(),
                n == keys@.len(),
                self.spec_size() == old(self).spec_size(),
                self.spec_size() > 0,
                forall|j: int|
                    0 <= j < i ==> !self.spec_map()@.contains_key(#[trigger] keys@[j]),
                forall|k: BlockHash|
                    !keys@.contains(k) ==> #[trigger] self.spec_map()@.contains_key(k) == old(self).spec_map()@.contains_key(k),
        {
            let ghost pre = self.spec_map()@;
            self.remove(keys[i]);
            proof {
                assert(keys@.contains(keys@[i as int]));
                assert forall|j: int|
                    0 <= j < i + 1 implies !self.spec_map()@.contains_key(
                    #[trigger] keys@[j],
                ) by {}
            }
        }
        proof {
            assert forall|k: BlockHash|
                keys@.contains(k) implies !self.spec_map()@.contains_key(k) by {
                let j = choose|j: int| 0 <= j < keys@.len() && keys@[j] == k;
            }
        }
    }

    /// Clears the cache.
    pub fn remove_all(&mut self)
        requires
            old(self).wf(),
        ensures
            final(self).wf(),
            final(self).spec_size() == old(self).spec_size(),
            old(self).spec_size() == 0 ==> *final(self) == *old(self),
            old(self).spec_size() > 0 ==> final(self).spec_map()@ == Map::<
                BlockHash,
                Vec<BlockHash>,
            >::empty(),
    {
        if self.size == 0 {
            return ;
        }
        let size = self.size;
        self.map = KeyMap::new();
        proof {
            self.map.lemma_len();
            assert(self.map@ =~= Map::<BlockHash, Vec<BlockHash>>::empty());
        }
    }
}

} // verus!
