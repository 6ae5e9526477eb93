//! A typed map over block identifiers, the building block of every store.
//!
//! Entries live in a vector with pairwise-distinct keys; the abstract view
//! is a `Map<BlockHash, V>`. Keeping the representation a plain vector lets the
//! stores iterate their contents deterministically.

use vstd::prelude::*;
use vstd::pervasive::VecAdditionalExecFns;
use crate::hashes::BlockHash;

verus! {

/// No two entries share a key.
pub open spec fn distinct_keys<V>(s: Seq<(BlockHash, V)>) -> bool {
    forall|i: int, j: int| 0 <= i < j < s.len() ==> s[i].0 != s[j].0
}

/// Some entry carries the key `k`.
pub open spec fn has_key<V>(s: Seq<(BlockHash, V)>, k: BlockHash) -> bool {
    exists|i: int| 0 <= i < s.len() && s[i].0 == k
}

/// The index of the entry carrying `k` (unique when keys are distinct).
pub open spec fn key_index<V>(s: Seq<(BlockHash, V)>, k: BlockHash) -> int {
    choose|i: int| 0 <= i < s.len() && s[i].0 == k
}

/// `p` appears as a key strictly before position `i`.
pub open spec fn appears_before<V>(s: Seq<(BlockHash, V)>, p: BlockHash, i: int) -> bool {
    exists|j: int| #![trigger s[j].0] 0 <= j < i && s[j].0 == p
}

/// The map described by an entry sequence.
pub open spec fn entries_as_map<V>(s: Seq<(BlockHash, V)>) -> Map<BlockHash, V> {
    Map::new(|k: BlockHash| has_key(s, k), |k: BlockHash| s[key_index(s, k)].1)
}

pub proof fn lemma_key_index<V>(s: Seq<(BlockHash, V)>, k: BlockHash)
    requires
        distinct_keys(s),
        has_key(s, k),
    ensures
        0 <= key_index(s, k) < s.len(),
        s[key_index(s, k)].0 == k,
        forall|i: int| 0 <= i < s.len() && s[i].0 == k ==> i == key_index(s, k),
{
    let w = key_index(s, k);
    assert(0 <= w < s.len() && s[w].0 == k);
    assert forall|i: int| 0 <= i < s.len() && s[i].0 == k implies i == w by {
        if i != w {
            if i < w {
                assert(s[i].0 != s[w].0);
            } else {
                assert(s[w].0 != s[i].0);
            }
        }
    }
}

/// A map from hashes to values of type `V`, backed by a vector of entries.
pub struct KeyMap<V> {
    entries: Vec<(BlockHash, V)>,
}

impl<V> View for KeyMap<V> {
    type V = Map<BlockHash, V>;

    closed spec fn view(&self) -> Map<BlockHash, V> {
        entries_as_map(self.entries@)
    }
}

impl<V> KeyMap<V> {
    /// Well-formedness: entry keys are pairwise distinct. Established by
    /// `new` and preserved by every mutating operation.
    pub open spec fn wf(&self) -> bool {
        distinct_keys(self.seq())
    }

    /// The entry sequence behind the map; exposed so that stores can state
    /// facts about their iteration order.
    pub closed spec fn seq(&self) -> Seq<(BlockHash, V)> {
        self.entries@
    }

    /// The domain is exactly the set of keys in the entry sequence.
    pub proof fn lemma_seq_view(&self)
        requires
            self.wf(),
        ensures
            forall|k: BlockHash| #[trigger] self@.contains_key(k) == has_key(self.seq(), k),
            forall|i: int|
                0 <= i < self.seq().len() ==> self@.contains_key(#[trigger] self.seq()[i].0)
                    && self@[self.seq()[i].0] == self.seq()[i].1,
    {
        let s = self.entries@;
        assert forall|i: int| 0 <= i < s.len() implies self@.contains_key(#[trigger] s[i].0)
            && self@[s[i].0] == s[i].1 by {
            assert(has_key(s, s[i].0));
            lemma_key_index(s, s[i].0);
        }
    }

    /// The number of entries equals the cardinality of the view's domain.
    pub proof fn lemma_len(&self)
        requires
            self.wf(),
        ensures
            self@.dom().len() == self.seq().len(),
            self@.dom().finite(),
    {
        let s = self.entries@;
        let keys = s.map_values(|e: (BlockHash, V)| e.0);
        assert(keys.no_duplicates());
        assert(self@.dom() =~= keys.to_set()) by {
            assert forall|k: BlockHash| keys.to_set().contains(k) implies self@.dom().contains(k) by {
                let i = choose|i: int| 0 <= i < keys.len() && keys[i] == k;
                assert(s[i].0 == k);
            }
            assert forall|k: BlockHash| self@.dom().contains(k) implies keys.to_set().contains(k) by {
                let i = choose|i: int| 0 <= i < s.len() && s[i].0 == k;
                assert(keys[i] == k);
            }
        }
        keys.unique_seq_to_set();
    }

    pub fn new() -> (r: Self)
        ensures
            r.wf(),
            r@ == Map::<BlockHash, V>::empty(),
            r.seq() == Seq::<(BlockHash, V)>::empty(),
    {
        let r = KeyMap { entries: Vec::new() };
        proof {
            assert(r@ =~= Map::<BlockHash, V>::empty());
        }
        r
    }

    pub fn len(&self) -> (r: usize)
        requires
            self.wf(),
        ensures
            r == self@.dom().len(),
            r == self.seq().len(),
    {
        proof {
            self.lemma_len();
        }
        self.entries.len()
    }

    /// The position of `k`'s entry, when one exists.
    fn find(&self, k: BlockHash) -> (r: Option<usize>)
        requires
            self.wf(),
        ensures
            match r {
                Some(i) => i < self.seq().len() && self.seq()[i as int].0 == k
                    && self@.contains_key(k) && self@[k] == self.seq()[i as int].1,
                None => !self@.contains_key(k),
            },
    {
        let n = self.entries.len();
        for i in 0..n
            invariant
                self.wf(),
                n == self.seq().len(),
                forall|j: int| 0 <= j < i ==> self.seq()[j].0 != k,
        {
            if self.entries[i].0 == k {
                proof {
                    assert(has_key(self.entries@, k));
                    lemma_key_index(self.entries@, k);
                }
                return Some(i);
            }
        }
        proof {
            assert(!has_key(self.entries@, k));
        }
        None
    }

    pub fn contains_key(&self, k: BlockHash) -> (r: bool)
        requires
            self.wf(),
        ensures
            r == self@.contains_key(k),
    {
        self.find(k).is_some()
    }

    pub fn get(&self, k: BlockHash) -> (r: Option<&V>)
        requires
            self.wf(),
        ensures
            match r {
                Some(v) => self@.contains_key(k) && *v == self@[k],
                None => !self@.contains_key(k),
            },
    {
        match self.find(k) {
            Some(i) => Some(&self.entries[i].1),
            None => None,
        }
    }

    /// Inserts or replaces the value under `k`.
    pub fn insert(&mut self, k: BlockHash, v: V)
        requires
            old(self).wf(),
        ensures
            final(self).wf(),
            final(self)@ == old(self)@.insert(k, v),
            old(self)@.contains_key(k) ==> final(self).seq() == old(self).seq().update(
                key_index(old(self).seq(), k),
                (k, v),
            ),
            !old(self)@.contains_key(k) ==> final(self).seq() == old(self).seq().push((k, v)),
    {
        let ghost s0 = self.entries@;
        match self.find(k) {
            Some(i) => {
                proof {
                    lemma_key_index(s0, k);
                }
                self.entries.set(i, (k, v));
                proof {
                    let s1 = self.entries@;
                    assert(distinct_keys(s1));
                    assert forall|k2: BlockHash| has_key(s1, k2) == has_key(s0, k2) by {
                        if has_key(s1, k2) {
                            let j = choose|j: int| 0 <= j < s1.len() && s1[j].0 == k2;
                            assert(s0[j].0 == k2 || k2 == k);
                            assert(has_key(s0, k2));
                        }
                        if has_key(s0, k2) {
                            let j = choose|j: int| 0 <= j < s0.len() && s0[j].0 == k2;
                            assert(s1[j].0 == k2 || k2 == k);
                            if k2 == k {
                                assert(s1[i as int].0 == k2);
                            }
                            assert(has_key(s1, k2));
                        }
                    }
                    assert forall|k2: BlockHash| #[trigger] has_key(s1, k2) implies
                        s1[key_index(s1, k2)].1 == old(self)@.insert(k, v)[k2] by {
                        lemma_key_index(s1, k2);
                        if k2 == k {
                            assert(key_index(s1, k2) == i);
                        } else {
                            lemma_key_index(s0, k2);
                            assert(key_index(s1, k2) == key_index(s0, k2));
                        }
                    }
                    assert(self@ =~= old(self)@.insert(k, v));
                }
            },
            None => {
                self.entries.push((k, v));
                proof {
                    let s1 = self.entries@;
                    assert(!has_key(s0, k));
                    assert forall|i: int, j: int| 0 <= i < j < s1.len() implies s1[i].0 != s1[j].0 by {
                        if j == s1.len() - 1 {
                            assert(s1[i] == s0[i]);
                            if s0[i].0 == k {
                                assert(has_key(s0, k));
                            }
                        }
                    }
                    assert(distinct_keys(s1));
                    assert forall|k2: BlockHash| #[trigger] has_key(s1, k2) implies
                        old(self)@.insert(k, v).contains_key(k2) by {
                        let j = choose|j: int| 0 <= j < s1.len() && s1[j].0 == k2;
                        if j < s0.len() {
                            assert(has_key(s0, k2));
                        } else {
                            assert(k2 == k);
                        }
                    }
                    assert forall|k2: BlockHash| old(self)@.insert(k, v).contains_key(k2) implies
                        has_key(s1, k2) by {
                        if k2 == k {
                            assert(s1[s1.len() - 1].0 == k);
                        } else {
                            let j = choose|j: int| 0 <= j < s0.len() && s0[j].0 == k2;
                            assert(s1[j].0 == k2);
                        }
                    }
                    assert forall|k2: BlockHash| #[trigger] has_key(s1, k2) implies
                        s1[key_index(s1, k2)].1 == old(self)@.insert(k, v)[k2] by {
                        lemma_key_index(s1, k2);
                        if k2 == k {
                            assert(key_index(s1, k2) == s1.len() - 1);
                        } else {
                            let j = key_index(s1, k2);
                            assert(j < s0.len());
                            assert(has_key(s0, k2));
                            lemma_key_index(s0, k2);
                        }
                    }
                    assert(self@ =~= old(self)@.insert(k, v));
                }
            },
        }
    }


    /// Removes and returns the entry under `k`. The last entry moves into
    /// the vacated slot, so iteration order is not preserved.
    pub fn take(&mut self, k: BlockHash) -> (r: Option<V>)
        requires
            old(self).wf(),
        ensures
            final(self).wf(),
            match r {
                Some(v) => old(self)@.contains_key(k) && v == old(self)@[k] && final(self)@ == old(
                    self,
                )@.remove(k),
                None => !old(self)@.contains_key(k) && *final(self) == *old(self),
            },
    {
        let ghost s0 = self.entries@;
        match self.find(k) {
            Some(i) => {
                proof {
                    lemma_key_index(s0, k);
                }
                let pair = self.entries.swap_remove(i);
                let v = pair.1;
                proof {
                    let s1 = self.entries@;
                    assert(v == s0[i as int].1);
                    // The new sequence is the old one with the last element
                    // moved into slot i (or simply shortened when i is last).
                    assert(s1 =~= s0.update(i as int, s0.last()).drop_last());
                    assert forall|p: int, q: int| 0 <= p < q < s1.len() implies s1[p].0
                        != s1[q].0 by {
                        let a = if p == i as int {
                            s0.len() - 1
                        } else {
                            p
                        };
                        let b = if q == i as int {
                            s0.len() - 1
                        } else {
                            q
                        };
                        assert(s1[p] == s0[a] && s1[q] == s0[b]);
                    }
                    assert(distinct_keys(s1));
                    assert forall|k2: BlockHash| #[trigger]
                        has_key(s1, k2) implies old(self)@.remove(k).contains_key(k2) by {
                        let j = choose|j: int| 0 <= j < s1.len() && s1[j].0 == k2;
                        let a = if j == i as int {
                            s0.len() - 1
                        } else {
                            j
                        };
                        assert(s0[a].0 == k2);
                        assert(has_key(s0, k2));
                        assert(k2 != k) by {
                            if k2 == k {
                                assert(s0[a].0 == s0[i as int].0);
                                assert(a == i as int);
                            }
                        }
                    }
                    assert forall|k2: BlockHash|
                        old(self)@.remove(k).contains_key(k2) implies has_key(s1, k2) by {
                        let j = choose|j: int| 0 <= j < s0.len() && s0[j].0 == k2;
                        assert(j != i as int);
                        if j == s0.len() - 1 {
                            assert(s1[i as int].0 == k2);
                        } else {
                            assert(s1[j].0 == k2);
                        }
                    }
                    assert forall|k2: BlockHash| #[trigger] has_key(s1, k2) implies
                        s1[key_index(s1, k2)].1 == old(self)@.remove(k)[k2] by {
                        lemma_key_index(s1, k2);
                        let j = key_index(s1, k2);
                        let a = if j == i as int {
                            s0.len() - 1
                        } else {
                            j
                        };
                        assert(s1[j] == s0[a]);
                        assert(has_key(s0, k2));
                        lemma_key_index(s0, k2);
                        assert(key_index(s0, k2) == a);
                        assert(k2 != k) by {
                            if k2 == k {
                                assert(s0[a].0 == s0[i as int].0);
                            }
                        }
                    }
                    assert(self@ =~= old(self)@.remove(k));
                }
                Some(v)
            },
            None => None,
        }
    }

    /// The key of the entry at position `i`.
    pub fn key_at(&self, i: usize) -> (r: BlockHash)
        requires
            self.wf(),
            i < self.seq().len(),
        ensures
            r == self.seq()[i as int].0,
            self@.contains_key(r),
            self@[r] == self.seq()[i as int].1,
    {
        proof {
            self.lemma_seq_view();
        }
        self.entries[i].0
    }

    /// The value of the entry at position `i`.
    pub fn value_at(&self, i: usize) -> (r: &V)
        requires
            i < self.seq().len(),
        ensures
            *r == self.seq()[i as int].1,
    {
        &self.entries[i].1
    }
}

} // verus!
