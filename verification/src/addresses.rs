//! The address directory: known peers with failure counts, weighted random
//! sampling, and banning.

use vstd::prelude::*;
use vstd::pervasive::VecAdditionalExecFns;
use crate::random::{sample_weighted_index, spec_sum_u64};

verus! {

/// Total entries the directory may hold.
pub const MAX_ADDRESSES: usize = 4096;

/// Failures tolerated before an entry is evicted.
pub const MAX_CONNECTION_FAILED_COUNT: u64 = 3;

/// How long a ban lasts, in milliseconds.
pub const MAX_BANNED_TIME: u64 = 24 * 60 * 60 * 1000;

/// A peer address: the IP (IPv4 embedded in the IPv6 numbering) and port.
#[derive(Clone, Copy, PartialEq, Eq, Structural, Debug)]
pub struct NetAddress {
    pub ip: u128,
    pub port: u16,
}

/// A directory entry: the address and how many connections to it failed in
/// a row.
#[derive(Clone, Copy, PartialEq, Eq, Structural, Debug)]
pub struct Entry {
    pub address: NetAddress,
    pub connection_failed_count: u64,
}

/// Some entry carries `a`.
pub open spec fn has_address(s: Seq<Entry>, a: NetAddress) -> bool {
    exists|i: int| 0 <= i < s.len() && s[i].address == a
}

/// The position of `a`'s entry.
pub open spec fn address_index(s: Seq<Entry>, a: NetAddress) -> int {
    choose|i: int| 0 <= i < s.len() && s[i].address == a
}

/// Entry addresses are pairwise distinct.
pub open spec fn distinct_addresses(s: Seq<Entry>) -> bool {
    forall|i: int, j: int| 0 <= i < j < s.len() ==> s[i].address != s[j].address
}

/// The in-memory store of not-banned addresses.
pub struct Store {
    entries: Vec<Entry>,
}

impl Store {
    /// Well-formedness: distinct addresses, bounded cardinality, bounded
    /// failure counts.
    pub open spec fn wf(&self) -> bool {
        &&& distinct_addresses(self.view_seq())
        &&& self.view_seq().len() <= MAX_ADDRESSES as int
        &&& forall|i: int|
            0 <= i < self.view_seq().len() ==> (
            #[trigger] self.view_seq()[i]).connection_failed_count
                <= MAX_CONNECTION_FAILED_COUNT
    }

    /// The recorded entries.
    pub closed spec fn view_seq(&self) -> Seq<Entry> {
        self.entries@
    }

    pub open spec fn spec_has(&self, a: NetAddress) -> bool {
        has_address(self.view_seq(), a)
    }

    pub open spec fn spec_count(&self, a: NetAddress) -> u64 {
        self.view_seq()[address_index(self.view_seq(), a)].connection_failed_count
    }

    pub fn new() -> (r: Self)
        ensures
            r.wf(),
            r.view_seq() == Seq::<Entry>::empty(),
    {
        Store { entries: Vec::new() }
    }

    /// The position of `a`'s entry, when present.
    fn find(&self, a: NetAddress) -> (r: Option<usize>)
        requires
            self.wf(),
        ensures
            match r {
                Some(i) => i < self.view_seq().len() && self.view_seq()[i as int].address == a
                    && address_index(self.view_seq(), a) == i as int && self.spec_has(a),
                None => !self.spec_has(a),
            },
    {
        let n = self.entries.len();
        for i in 0..n
            invariant
                self.wf(),
                n == self.view_seq().len(),
                forall|j: int| 0 <= j < i ==> self.view_seq()[j].address != a,
        {
            if self.entries[i].address == a {
                proof {
                    assert(has_address(self.entries@, a));
                    let w = address_index(self.entries@, a);
                    assert(self.entries@[w].address == a);
                    if w != i as int {
                        assert(self.entries@[w].address != self.entries@[i as int].address);
                    }
                }
                return Some(i);
            }
        }
        proof {
            assert(!has_address(self.entries@, a));
        }
        None
    }

    pub fn has(&self, address: NetAddress) -> (r: bool)
        requires
            self.wf(),
        ensures
            r == self.spec_has(address),
    {
        self.find(address).is_some()
    }

    /// The entry of a present address.
    pub fn get(&self, address: NetAddress) -> (r: Entry)
        requires
            self.wf(),
            self.spec_has(address),
        ensures
            r.address == address,
            r.connection_failed_count == self.spec_count(address),
    {
        let i = self.find(address).unwrap();
        self.entries[i]
    }

    /// Inserts or updates the entry; evicts the worst entry when the bound
    /// would be exceeded.
    pub fn set(&mut self, address: NetAddress, connection_failed_count: u64)
        requires
            old(self).wf(),
            connection_failed_count <= MAX_CONNECTION_FAILED_COUNT,
        ensures
            final(self).wf(),
            old(self).spec_has(address) ==> {
                &&& final(self).spec_has(address)
                &&& final(self).spec_count(address) == connection_failed_count
                &&& final(self).view_seq() == old(self).view_seq().update(
                    address_index(old(self).view_seq(), address),
                    Entry { address, connection_failed_count },
                )
            },
            !old(self).spec_has(address) && old(self).view_seq().len() < MAX_ADDRESSES as int
                ==> final(self).view_seq() == old(self).view_seq().push(
                Entry { address, connection_failed_count },
            ),
            final(self).spec_has(address),
            final(self).spec_count(address) == connection_failed_count,
            // When the bound is hit, the entry with the greatest failure
            // count makes room; everything else stays.
            !old(self).spec_has(address) && old(self).view_seq().len() >= MAX_ADDRESSES as int
                ==> exists|v: NetAddress|
                old(self).spec_has(v) && !final(self).spec_has(v) && (forall|b: NetAddress|
                    #[trigger] old(self).spec_has(b) ==> old(self).spec_count(b) <= old(
                        self,
                    ).spec_count(v)) && (forall|b: NetAddress|
                    b != v && b != address ==> (#[trigger] final(self).spec_has(b) == old(
                        self,
                    ).spec_has(b))),
    {
        match self.find(address) {
            Some(i) => {
                self.entries.set(i, Entry { address, connection_failed_count });
                proof {
                    let s0 = old(self).view_seq();
                    let s1 = self.entries@;
                    assert(distinct_addresses(s1));
                    assert(s1[i as int].address == address);
                    assert(has_address(s1, address));
                    let w = address_index(s1, address);
                    assert(s1[w].address == address);
                    if w != i as int {
                        assert(s1[w].address != s1[i as int].address);
                    }
                }
            },
            None => {
                if self.entries.len() >= MAX_ADDRESSES {
                    // Evict the entry with the greatest failure count.
                    let mut victim: usize = 0;
                    let n = self.entries.len();
                    let mut j: usize = 1;
                    while j < n
                        invariant
                            self.wf(),
                            *self == *old(self),
                            n == self.view_seq().len(),
                            n >= 1,
                            victim < j,
                            j <= n,
                            forall|t: int|
                                0 <= t < j ==> (#[trigger] self.view_seq()[t])
                                    .connection_failed_count
                                    <= self.view_seq()[victim as int].connection_failed_count,
                        decreases n - j,
                    {
                        if self.entries[j].connection_failed_count
                            > self.entries[victim].connection_failed_count {
                            victim = j;
                        }
                        j = j + 1;
                    }
                    let ghost s0 = self.entries@;
                    let ghost vaddr = self.entries@[victim as int].address;
                    self.remove_at(victim);
                    proof {
                        lemma_remove_frame(s0, self.view_seq(), victim as int);
                        assert(old(self).spec_has(vaddr)) by {
                            assert(s0[victim as int].address == vaddr);
                        }
                        assert(address_index(s0, vaddr) == victim as int) by {
                            let w = address_index(s0, vaddr);
                            assert(s0[w].address == vaddr);
                            if w != victim as int {
                                assert(s0[w].address != s0[victim as int].address);
                            }
                        }
                        assert forall|b: NetAddress|
                            #[trigger] old(self).spec_has(b) implies old(self).spec_count(b)
                            <= old(self).spec_count(vaddr) by {
                            let w = address_index(s0, b);
                            assert(s0[w].address == b);
                        }
                    }
                }
                let ghost s0 = self.entries@;
                self.entries.push(Entry { address, connection_failed_count });
                proof {
                    let s1 = self.entries@;
                    assert forall|p: int, q: int|
                        0 <= p < q < s1.len() implies s1[p].address != s1[q].address by {
                        if q == s1.len() - 1 {
                            assert(s1[p] == s0[p]);
                            if s0[p].address == address {
                                assert(has_address(s0, address));
                                if old(self).spec_has(address) {
                                }
                            }
                        }
                    }
                    assert(distinct_addresses(s1));
                    assert(s1[s1.len() - 1].address == address);
                    assert(has_address(s1, address));
                    let w = address_index(s1, address);
                    assert(s1[w].address == address);
                    if w != s1.len() - 1 {
                        assert(s1[w].address != s1[s1.len() - 1].address);
                    }
                    assert forall|b: NetAddress|
                        b != address && #[trigger] has_address(s1, b) implies has_address(
                        s0,
                        b,
                    ) by {
                        let k = choose|k: int| 0 <= k < s1.len() && s1[k].address == b;
                        assert(s1[k] == s0[k]);
                    }
                    assert forall|b: NetAddress|
                        b != address && #[trigger] has_address(s0, b) implies has_address(
                        s1,
                        b,
                    ) by {
                        let k = choose|k: int| 0 <= k < s0.len() && s0[k].address == b;
                        assert(s1[k].address == b);
                    }
                }
            },
        }
    }

    /// Removes the entry at position `i`.
    fn remove_at(&mut self, i: usize)
        requires
            old(self).wf(),
            i < old(self).view_seq().len(),
        ensures
            final(self).wf(),
            final(self).view_seq() == old(self).view_seq().remove(i as int),
    {
        self.entries.remove(i);
        proof {
            let s0 = old(self).view_seq();
            let s1 = self.entries@;
            assert forall|p: int, q: int|
                0 <= p < q < s1.len() implies s1[p].address != s1[q].address by {
                let a = if p < i as int {
                    p
                } else {
                    p + 1
                };
                let b = if q < i as int {
                    q
                } else {
                    q + 1
                };
                assert(s1[p] == s0[a] && s1[q] == s0[b]);
            }
        }
    }

    /// Removes the entry of `address`, when present.
    pub fn remove(&mut self, address: NetAddress)
        requires
            old(self).wf(),
        ensures
            final(self).wf(),
            !final(self).spec_has(address),
            forall|b: NetAddress|
                b != address ==> (#[trigger] final(self).spec_has(b) == old(self).spec_has(b))
                    && (old(self).spec_has(b) ==> final(self).spec_count(b) == old(self).spec_count(b)),
            old(self).spec_has(address) ==> final(self).view_seq() == old(self).view_seq().remove(
                address_index(old(self).view_seq(), address),
            ),
            !old(self).spec_has(address) ==> *final(self) == *old(self),
    {
        match self.find(address) {
            Some(i) => {
                let ghost s0 = self.entries@;
                self.remove_at(i);
                proof {
                    lemma_remove_frame(s0, self.entries@, i as int);
                }
            },
            None => {},
        }
    }

    /// All recorded addresses, in entry order.
    pub fn get_all_addresses(&self) -> (r: Vec<NetAddress>)
        requires
            self.wf(),
        ensures
            r@.len() == self.view_seq().len(),
            forall|i: int|
                0 <= i < r@.len() ==> #[trigger] r@[i] == self.view_seq()[i].address,
    {
        let mut r: Vec<NetAddress> = Vec::new();
        let n = self.entries.len();
        for i in 0..n
            invariant
                self.wf(),
                n == self.view_seq().len(),
                r@.len() == i,
                forall|j: int| 0 <= j < i ==> #[trigger] r@[j] == self.view_seq()[j].address,
        {
            r.push(self.entries[i].address);
        }
        r
    }

    /// Removes every entry whose IP equals `ip`.
    pub fn remove_by_ip(&mut self, ip: u128)
        requires
            old(self).wf(),
        ensures
            final(self).wf(),
            forall|b: NetAddress| b.ip == ip ==> !(#[trigger] final(self).spec_has(b)),
            forall|b: NetAddress|
                b.ip != ip ==> (#[trigger] final(self).spec_has(b) == old(self).spec_has(b)) && (
                old(self).spec_has(b) ==> final(self).spec_count(b) == old(self).spec_count(b)),
    {
        let mut i: usize = 0;
        while i < self.entries.len()
            invariant
                self.wf(),
                i <= self.view_seq().len(),
                forall|j: int| 0 <= j < i ==> (#[trigger] self.view_seq()[j]).address.ip != ip,
                forall|b: NetAddress|
                    b.ip != ip ==> (#[trigger] self.spec_has(b) == old(self).spec_has(b)) && (old(self).spec_has(b) ==> self.spec_has(b) && self.spec_count(b) == old(self).spec_count(b)),
            decreases self.view_seq().len() - i,
        {
            if self.entries[i].address.ip == ip {
                let ghost s0 = self.entries@;
                let ghost removed = self.entries@[i as int].address;
                let ghost mid = *self;
                self.remove_at(i);
                proof {
                    lemma_remove_frame2(s0, self.view_seq(), i as int);
                    assert(removed.ip == ip);
                    assert forall|b: NetAddress|
                        b.ip != ip implies (#[trigger] self.spec_has(b) == old(self).spec_has(b))
                        && (old(self).spec_has(b) ==> self.spec_has(b) && self.spec_count(b)
                        == old(self).spec_count(b)) by {
                        assert(b != removed);
                        assert(mid.view_seq() == s0);
                        assert(mid.spec_has(b) == old(self).spec_has(b));
                        assert(has_address(self.view_seq(), b) == has_address(s0, b));
                        if old(self).spec_has(b) {
                            assert(mid.spec_count(b) == old(self).spec_count(b));
                            assert(self.view_seq()[address_index(self.view_seq(), b)]
                                .connection_failed_count == s0[address_index(
                                s0,
                                b,
                            )].connection_failed_count);
                        }
                    }
                }
            } else {
                i = i + 1;
            }
        }
        proof {
            assert forall|b: NetAddress|
                b.ip == ip implies !(#[trigger] self.spec_has(b)) by {
                if self.spec_has(b) {
                    let j = address_index(self.entries@, b);
                    assert(self.entries@[j].address == b);
                }
            }
        }
    }

    /// Samples the addresses outside `exceptions` without replacement,
    /// weighting an entry by `64 ^ (MAX_CONNECTION_FAILED_COUNT + 1 - its
    /// failure count)`: the returned list is a permutation of the
    /// non-excepted addresses.
    pub fn get_randomized_addresses(&self, exceptions: Vec<NetAddress>) -> (r: Vec<NetAddress>)
        requires
            self.wf(),
        ensures
            r@.no_duplicates(),
            forall|a: NetAddress|
                r@.contains(a) <==> (self.spec_has(a) && !exceptions@.contains(a)),
    {
        // Collect the pool and its weights.
        let mut pool: Vec<NetAddress> = Vec::new();
        let mut weights: Vec<u64> = Vec::new();
        let n = self.entries.len();
        for i in 0..n
            invariant
                self.wf(),
                n == self.view_seq().len(),
                pool@.len() == weights@.len(),
                pool@.len() <= i,
                pool@.no_duplicates(),
                forall|j: int|
                    0 <= j < pool@.len() ==> self.spec_has(#[trigger] pool@[j])
                        && !exceptions@.contains(pool@[j]),
                forall|j: int| 0 <= j < weights@.len() ==> 1 <= #[trigger] weights@[j] <= 16777216,
                forall|j: int|
                    0 <= j < i ==> (exceptions@.contains(
                        (#[trigger] self.view_seq()[j]).address,
                    ) || pool@.contains(self.view_seq()[j].address)),
                forall|t: int|
                    i <= t < n ==> !pool@.contains((#[trigger] self.view_seq()[t]).address),
        {
            let e = self.entries[i];
            let mut excepted = false;
            let en = exceptions.len();
            for k in 0..en
                invariant
                    en == exceptions@.len(),
                    excepted ==> exceptions@.contains(e.address),
                    !excepted ==> forall|t: int| 0 <= t < k ==> exceptions@[t] != e.address,
            {
                if exceptions[k] == e.address {
                    excepted = true;
                }
            }
            if !excepted {
                let ghost prep = pool@;
                proof {
                    assert(!exceptions@.contains(e.address));
                    assert(self.view_seq()[i as int].address == e.address);
                    assert(has_address(self.view_seq(), e.address));
                    assert(!pool@.contains(e.address));
                    lemma_pool_push_distinct(pool@, e.address);
                }
                pool.push(e.address);
                proof {
                    assert(pool@.last() == e.address);
                    assert forall|j: int|
                        0 <= j < i + 1 implies (exceptions@.contains(
                        (#[trigger] self.view_seq()[j]).address,
                    ) || pool@.contains(self.view_seq()[j].address)) by {
                        if j < i as int {
                            if prep.contains(self.view_seq()[j].address) {
                                lemma_addr_push_contains(
                                    prep,
                                    e.address,
                                    self.view_seq()[j].address,
                                );
                            }
                        } else {
                            assert(pool@.contains(e.address));
                        }
                    }
                    assert forall|t: int|
                        i + 1 <= t < n implies !pool@.contains(
                        (#[trigger] self.view_seq()[t]).address,
                    ) by {
                        assert(self.view_seq()[t].address != e.address);
                        lemma_addr_push_not_contains(prep, e.address, self.view_seq()[t].address);
                    }
                }
                let c = e.connection_failed_count;
                let w: u64 = if c == 0 {
                    16777216
                } else if c == 1 {
                    262144
                } else if c == 2 {
                    4096
                } else {
                    64
                };
                weights.push(w);
            } else {
                proof {
                    assert(exceptions@.contains(e.address));
                    assert(self.view_seq()[i as int].address == e.address);
                }
            }
        }
        proof {
            assert forall|j: int|
                0 <= j < self.view_seq().len() implies (exceptions@.contains(
                (#[trigger] self.view_seq()[j]).address,
            ) || pool@.contains(self.view_seq()[j].address)) by {}
        }
        // Draw without replacement: a drawn index gets weight zero and can
        // never be drawn again.
        let total = pool.len();
        let mut out: Vec<NetAddress> = Vec::new();
        let ghost pool0 = pool@;
        let mut j: usize = 0;
        while j < total
            invariant
                total == pool0.len(),
                pool0.len() <= MAX_ADDRESSES as int,
                pool@ == pool0,
                pool0.no_duplicates(),
                weights@.len() == pool0.len(),
                out@.len() == j,
                j <= total,
                forall|t: int| 0 <= t < weights@.len() ==> #[trigger] weights@[t] <= 16777216,
                forall|t: int|
                    0 <= t < weights@.len() ==> ((#[trigger] weights@[t] == 0) <==> out@.contains(
                        pool0[t],
                    )),
                forall|t: int| 0 <= t < out@.len() ==> pool0.contains(#[trigger] out@[t]),
                out@.no_duplicates(),
            decreases total - j,
        {
            proof {
                lemma_sum_bounded(weights@);
                assert((pool0.len() as int) * 16777216 <= 4096 * 16777216) by (nonlinear_arith)
                    requires
                        pool0.len() <= 4096,
                {
                }
                assert(exists|t: int| 0 <= t < weights@.len() && weights@[t] > 0) by {
                    lemma_unpicked_exists(pool0, out@, weights@);
                }
            }
            let i = sample_weighted_index(&weights);
            let a = pool[i];
            let ghost preout = out@;
            proof {
                assert(!out@.contains(a));
                lemma_pool_push_distinct(out@, a);
            }
            out.push(a);
            weights.set(i, 0);
            proof {
                assert(out@.last() == a);
                assert(pool0.contains(pool0[i as int]));
                assert forall|t: int|
                    0 <= t < weights@.len() implies ((#[trigger] weights@[t] == 0)
                    <==> out@.contains(pool0[t])) by {
                    if t == i as int {
                        assert(out@[out@.len() - 1] == pool0[t]);
                    } else {
                        if out@.contains(pool0[t]) {
                            let k = choose|k: int| 0 <= k < out@.len() && out@[k] == pool0[t];
                            if k == out@.len() - 1 {
                                assert(pool0[t] == pool0[i as int]);
                            } else {
                                assert(preout[k] == pool0[t]);
                                assert(preout.contains(pool0[t]));
                            }
                        }
                        if weights@[t] == 0 {
                            assert(preout.contains(pool0[t]));
                            let k = choose|k: int|
                                0 <= k < preout.len() && preout[k] == pool0[t];
                            assert(out@[k] == pool0[t]);
                        }
                    }
                }
                assert forall|t: int|
                    0 <= t < out@.len() implies pool0.contains(#[trigger] out@[t]) by {
                    if t < preout.len() {
                        assert(out@[t] == preout[t]);
                    } else {
                        assert(out@[t] == a);
                        assert(pool0[i as int] == a);
                    }
                }
            }
            j = j + 1;
        }
        proof {
            assert forall|a: NetAddress|
                out@.contains(a) <==> (self.spec_has(a) && !exceptions@.contains(a)) by {
                if out@.contains(a) {
                    let t = choose|t: int| 0 <= t < out@.len() && out@[t] == a;
                    assert(pool0.contains(a));
                    let p = choose|p: int| 0 <= p < pool0.len() && pool0[p] == a;
                }
                if self.spec_has(a) && !exceptions@.contains(a) {
                    let e = address_index(self.view_seq(), a);
                    assert(self.view_seq()[e].address == a);
                    assert(pool0.contains(a));
                    let p = choose|p: int| 0 <= p < pool0.len() && pool0[p] == a;
                    assert(weights@[p] == 0) by {
                        lemma_all_picked(pool0, out@, weights@);
                    }
                    assert(out@.contains(pool0[p]));
                }
            }
        }
        out
    }
}

/// Removing an entry keeps every other address with its count.
proof fn lemma_remove_frame(s0: Seq<Entry>, s1: Seq<Entry>, i: int)
    requires
        distinct_addresses(s0),
        0 <= i < s0.len(),
        s1 == s0.remove(i),
    ensures
        !has_address(s1, s0[i].address),
        forall|b: NetAddress|
            b != s0[i].address ==> (has_address(s1, b) == has_address(s0, b)) && (has_address(
                s0,
                b,
            ) ==> s1[address_index(s1, b)].connection_failed_count
                == s0[address_index(s0, b)].connection_failed_count),
{
    lemma_remove_frame2(s0, s1, i);
    assert(!has_address(s1, s0[i].address)) by {
        if has_address(s1, s0[i].address) {
            let j = choose|j: int| 0 <= j < s1.len() && s1[j].address == s0[i].address;
            let a = if j < i {
                j
            } else {
                j + 1
            };
            assert(s1[j] == s0[a]);
            assert(a != i);
        }
    }
}

/// Removing one entry leaves the other addresses and counts in place.
proof fn lemma_remove_frame2(s0: Seq<Entry>, s1: Seq<Entry>, i: int)
    requires
        distinct_addresses(s0),
        0 <= i < s0.len(),
        s1 == s0.remove(i),
    ensures
        forall|b: NetAddress|
            b != s0[i].address ==> (has_address(s1, b) == has_address(s0, b)) && (has_address(
                s0,
                b,
            ) ==> s1[address_index(s1, b)].connection_failed_count
                == s0[address_index(s0, b)].connection_failed_count),
{
    assert forall|b: NetAddress|
        b != s0[i].address implies (has_address(s1, b) == has_address(s0, b)) && (has_address(
        s0,
        b,
    ) ==> s1[address_index(s1, b)].connection_failed_count
        == s0[address_index(s0, b)].connection_failed_count) by {
        if has_address(s0, b) {
            let j = address_index(s0, b);
            assert(s0[j].address == b);
            assert(j != i);
            let j1 = if j < i {
                j
            } else {
                j - 1
            };
            assert(s1[j1] == s0[j]);
            assert(has_address(s1, b));
            let w = address_index(s1, b);
            assert(s1[w].address == b);
            let wa = if w < i {
                w
            } else {
                w + 1
            };
            assert(s1[w] == s0[wa]);
            assert(wa == j) by {
                if wa != j {
                    assert(s0[wa].address != s0[j].address);
                }
            }
        }
        if has_address(s1, b) {
            let j = choose|j: int| 0 <= j < s1.len() && s1[j].address == b;
            let a = if j < i {
                j
            } else {
                j + 1
            };
            assert(s1[j] == s0[a]);
            assert(has_address(s0, b));
        }
    }
}

/// Pushing keeps previous members.
proof fn lemma_addr_push_contains(s: Seq<NetAddress>, x: NetAddress, y: NetAddress)
    requires
        s.contains(y),
    ensures
        s.push(x).contains(y),
{
    let k = choose|k: int| 0 <= k < s.len() && s[k] == y;
    assert(s.push(x)[k] == y);
}

/// What a push does not contain.
proof fn lemma_addr_push_not_contains(s: Seq<NetAddress>, x: NetAddress, y: NetAddress)
    requires
        !s.contains(y),
        y != x,
    ensures
        !s.push(x).contains(y),
{
    if s.push(x).contains(y) {
        let k = choose|k: int| 0 <= k < s.push(x).len() && s.push(x)[k] == y;
        if k < s.len() {
            assert(s[k] == y);
        }
    }
}

/// A fresh address keeps the pool duplicate-free.
proof fn lemma_pool_push_distinct(s: Seq<NetAddress>, a: NetAddress)
    requires
        s.no_duplicates(),
        !s.contains(a),
    ensures
        s.push(a).no_duplicates(),
{
    assert forall|p: int, q: int| 0 <= p < q < s.push(a).len() implies s.push(a)[p] != s.push(
        a,
    )[q] by {
        if q == s.len() as int {
            assert(s.push(a)[p] == s[p]);
            assert(s.contains(s[p]));
        }
    }
}

/// Bound on a weight sum whose members stay below the per-entry maximum.
proof fn lemma_sum_bounded(s: Seq<u64>)
    requires
        forall|t: int| 0 <= t < s.len() ==> #[trigger] s[t] <= 16777216,
    ensures
        spec_sum_u64(s) <= s.len() * 16777216,
    decreases s.len(),
{
    if s.len() > 0 {
        assert forall|t: int| 0 <= t < s.drop_last().len() implies #[trigger] s.drop_last()[t]
            <= 16777216 by {
            assert(s.drop_last()[t] == s[t]);
        }
        lemma_sum_bounded(s.drop_last());
        assert((s.len() - 1) * 16777216 + 16777216 == s.len() * 16777216) by (nonlinear_arith);
    }
}

/// While fewer addresses were drawn than the pool holds, some weight is
/// still positive.
proof fn lemma_unpicked_exists(pool: Seq<NetAddress>, out: Seq<NetAddress>, ws: Seq<u64>)
    requires
        pool.no_duplicates(),
        out.no_duplicates(),
        ws.len() == pool.len(),
        out.len() < pool.len(),
        forall|t: int| 0 <= t < ws.len() ==> ((#[trigger] ws[t] == 0) <==> out.contains(pool[t])),
        forall|t: int| 0 <= t < out.len() ==> pool.contains(#[trigger] out[t]),
    ensures
        exists|t: int| 0 <= t < ws.len() && ws[t] > 0,
{
    // If every weight were zero, every pool member would be in `out`, and
    // two distinct lists of distinct elements with the same members have
    // the same length.
    if forall|t: int| 0 <= t < ws.len() ==> #[trigger] ws[t] == 0 {
        assert forall|t: int| 0 <= t < pool.len() implies out.contains(#[trigger] pool[t]) by {
            assert(ws[t] == 0);
        }
        pool.unique_seq_to_set();
        out.unique_seq_to_set();
        assert(pool.to_set().subset_of(out.to_set())) by {
            assert forall|a: NetAddress| pool.to_set().contains(a) implies out.to_set().contains(
                a,
            ) by {
                let t = choose|t: int| 0 <= t < pool.len() && pool[t] == a;
                assert(out.contains(a));
            }
        }
        vstd::set_lib::lemma_len_subset(pool.to_set(), out.to_set());
        assert(false);
    }
}

/// Once as many addresses were drawn as the pool holds, every weight is
/// zero.
proof fn lemma_all_picked(pool: Seq<NetAddress>, out: Seq<NetAddress>, ws: Seq<u64>)
    requires
        pool.no_duplicates(),
        out.no_duplicates(),
        ws.len() == pool.len(),
        out.len() == pool.len(),
        forall|t: int| 0 <= t < ws.len() ==> ((#[trigger] ws[t] == 0) <==> out.contains(pool[t])),
        forall|t: int| 0 <= t < out.len() ==> pool.contains(#[trigger] out[t]),
    ensures
        forall|t: int| 0 <= t < ws.len() ==> #[trigger] ws[t] == 0,
{
    assert forall|p: int| 0 <= p < ws.len() implies #[trigger] ws[p] == 0 by {
        if ws[p] != 0 {
            // `out` would inject into the pool minus the never-drawn member.
            assert(!out.contains(pool[p]));
            out.unique_seq_to_set();
            pool.unique_seq_to_set();
            assert(out.to_set().subset_of(pool.to_set().remove(pool[p]))) by {
                assert forall|a: NetAddress|
                    out.to_set().contains(a) implies pool.to_set().remove(pool[p]).contains(
                    a,
                ) by {
                    let t = choose|t: int| 0 <= t < out.len() && out[t] == a;
                    assert(pool.contains(a));
                    if a == pool[p] {
                        assert(out.contains(pool[p]));
                    }
                }
            }
            assert(pool.to_set().contains(pool[p]));
            vstd::set::axiom_set_remove_len(pool.to_set(), pool[p]);
            vstd::set_lib::lemma_len_subset(out.to_set(), pool.to_set().remove(pool[p]));
        }
    }
}

/// Builds a fresh not-banned address store.
pub fn new() -> (r: Store)
    ensures
        r.wf(),
        r.view_seq() == Seq::<Entry>::empty(),
{
    Store::new()
}

/// A banned IP with the moment the ban was recorded.
pub open spec fn has_ban(s: Seq<(u128, u64)>, ip: u128) -> bool {
    exists|i: int| 0 <= i < s.len() && s[i].0 == ip
}


/// The recorded ban timestamp of `ip`, when one exists (first match).
pub open spec fn spec_ban_of(s: Seq<(u128, u64)>, ip: u128) -> Option<u64>
    decreases s.len(),
{
    if s.len() == 0 {
        None
    } else if s.first().0 == ip {
        Some(s.first().1)
    } else {
        spec_ban_of(s.drop_first(), ip)
    }
}

proof fn lemma_ban_of_at(s: Seq<(u128, u64)>, ip: u128, i: int)
    requires
        0 <= i < s.len(),
        s[i].0 == ip,
        forall|j: int| 0 <= j < i ==> s[j].0 != ip,
    ensures
        spec_ban_of(s, ip) == Some(s[i].1),
    decreases i,
{
    if i > 0 {
        let d = s.drop_first();
        assert forall|j: int| 0 <= j < i - 1 implies d[j].0 != ip by {
            assert(d[j] == s[j + 1]);
        }
        assert(d[i - 1] == s[i]);
        lemma_ban_of_at(d, ip, i - 1);
    }
}

proof fn lemma_ban_of_absent(s: Seq<(u128, u64)>, ip: u128)
    requires
        forall|j: int| 0 <= j < s.len() ==> s[j].0 != ip,
    ensures
        spec_ban_of(s, ip) is None,
    decreases s.len(),
{
    if s.len() > 0 {
        let d = s.drop_first();
        assert forall|j: int| 0 <= j < d.len() implies d[j].0 != ip by {
            assert(d[j] == s[j + 1]);
        }
        lemma_ban_of_absent(d, ip);
    }
}

/// Lookups agree on two lists with the same keys whose values differ only
/// away from `x`.
proof fn lemma_ban_of_same_keys(s0: Seq<(u128, u64)>, s1: Seq<(u128, u64)>, x: u128)
    requires
        s0.len() == s1.len(),
        forall|j: int| 0 <= j < s0.len() ==> (#[trigger] s1[j]).0 == s0[j].0,
        forall|j: int| 0 <= j < s0.len() && (#[trigger] s0[j]).0 == x ==> s1[j].1 == s0[j].1,
    ensures
        spec_ban_of(s1, x) == spec_ban_of(s0, x),
    decreases s0.len(),
{
    if s0.len() > 0 {
        assert(s1[0].0 == s0[0].0);
        if s0[0].0 != x {
            let d0 = s0.drop_first();
            let d1 = s1.drop_first();
            assert forall|j: int| 0 <= j < d0.len() implies (#[trigger] d1[j]).0 == d0[j].0 by {
                assert(d0[j] == s0[j + 1] && d1[j] == s1[j + 1]);
            }
            assert forall|j: int|
                0 <= j < d0.len() && (#[trigger] d0[j]).0 == x implies d1[j].1 == d0[j].1 by {
                assert(d0[j] == s0[j + 1] && d1[j] == s1[j + 1]);
            }
            lemma_ban_of_same_keys(d0, d1, x);
        } else {
            assert(s1[0].1 == s0[0].1);
        }
    }
}

/// Appending a record for another IP leaves a lookup unchanged.
proof fn lemma_ban_of_push_frame(s: Seq<(u128, u64)>, e: (u128, u64), x: u128)
    requires
        e.0 != x,
    ensures
        spec_ban_of(s.push(e), x) == spec_ban_of(s, x),
    decreases s.len(),
{
    if s.len() == 0 {
        assert(s.push(e)[0] == e);
        assert(s.push(e).first().0 == e.0);
        assert(s.push(e).drop_first() =~= Seq::<(u128, u64)>::empty());
        assert(spec_ban_of(s.push(e).drop_first(), x) is None);
        assert(spec_ban_of(s.push(e), x) is None);
        assert(spec_ban_of(s, x) is None);
    } else {
        assert(s.push(e)[0] == s[0]);
        assert(s.push(e).first() == s.first());
        assert(s.push(e).drop_first() =~= s.drop_first().push(e));
        if s.first().0 == x {
            assert(spec_ban_of(s.push(e), x) == Some(s.first().1));
        } else {
            lemma_ban_of_push_frame(s.drop_first(), e, x);
            assert(spec_ban_of(s.drop_first().push(e), x) == spec_ban_of(s.drop_first(), x));
        }
    }
}

/// Removing a record for another IP leaves a lookup unchanged.
proof fn lemma_ban_of_remove_frame(s: Seq<(u128, u64)>, i: int, x: u128)
    requires
        0 <= i < s.len(),
        s[i].0 != x,
    ensures
        spec_ban_of(s.remove(i), x) == spec_ban_of(s, x),
    decreases s.len(),
{
    if i == 0 {
        assert(s.remove(0) =~= s.drop_first());
        if s.first().0 == x {
            assert(false);
        }
    } else {
        assert(s.remove(i).first() == s.first());
        assert(s.remove(i).drop_first() =~= s.drop_first().remove(i - 1));
        if s.first().0 != x {
            lemma_ban_of_remove_frame(s.drop_first(), i - 1, x);
        }
    }
}

/// The known-peer directory: a banned-IP record beside the address store.
pub struct AddressManager {
    banned: Vec<(u128, u64)>,
    store: Store,
}

impl AddressManager {
    pub open spec fn wf(&self) -> bool {
        &&& self.spec_store().wf()
        &&& forall|i: int, j: int|
            0 <= i < j < self.spec_banned().len() ==> self.spec_banned()[i].0
                != self.spec_banned()[j].0
    }

    pub closed spec fn spec_store(&self) -> Store {
        self.store
    }

    pub closed spec fn spec_banned(&self) -> Seq<(u128, u64)> {
        self.banned@
    }

    pub fn new() -> (r: Self)
        ensures
            r.wf(),
            r.spec_store().view_seq() == Seq::<Entry>::empty(),
            r.spec_banned() == Seq::<(u128, u64)>::empty(),
    {
        AddressManager { banned: Vec::new(), store: Store::new() }
    }

    /// Records a fresh address with one pre-success failure; a known
    /// address is left as it is.
    pub fn add_address(&mut self, address: NetAddress)
        requires
            old(self).wf(),
        ensures
            final(self).wf(),
            final(self).spec_banned() == old(self).spec_banned(),
            old(self).spec_store().spec_has(address) ==> *final(self) == *old(self),
            !old(self).spec_store().spec_has(address) && old(self).spec_store().view_seq().len()
                < MAX_ADDRESSES as int ==> final(self).spec_store().view_seq() == old(self).spec_store().view_seq().push(Entry { address, connection_failed_count: 1 }),
    {
        if self.store.has(address) {
            return ;
        }
        self.store.set(address, 1);
        proof {
            lemma_banned_frame(old(self), self);
        }
    }

    /// One more failed connection: the count grows, and an address that
    /// exceeded the tolerated failures is evicted.
    pub fn mark_connection_failure(&mut self, address: NetAddress)
        requires
            old(self).wf(),
        ensures
            final(self).wf(),
            final(self).spec_banned() == old(self).spec_banned(),
            !old(self).spec_store().spec_has(address) ==> *final(self) == *old(self),
            old(self).spec_store().spec_has(address) && old(self).spec_store().spec_count(address)
                >= MAX_CONNECTION_FAILED_COUNT ==> !final(self).spec_store().spec_has(address),
            old(self).spec_store().spec_has(address) && old(self).spec_store().spec_count(address)
                < MAX_CONNECTION_FAILED_COUNT ==> final(self).spec_store().spec_has(address)
                && final(self).spec_store().spec_count(address) == old(self).spec_store().spec_count(address) + 1,
            forall|b: NetAddress|
                b != address ==> (#[trigger] final(self).spec_store().spec_has(b) == old(self).spec_store().spec_has(b)) && (old(self).spec_store().spec_has(b) ==> final(self).spec_store().spec_count(b) == old(self).spec_store().spec_count(b)),
    {
        if !self.store.has(address) {
            return ;
        }
        let entry = self.store.get(address);
        if entry.connection_failed_count >= MAX_CONNECTION_FAILED_COUNT {
            self.store.remove(address);
        } else {
            let ghost s0 = self.store.view_seq();
            self.store.set(address, entry.connection_failed_count + 1);
            proof {
                lemma_update_frame(
                    s0,
                    self.store.view_seq(),
                    address,
                    (entry.connection_failed_count + 1) as u64,
                );
            }
        }
        proof {
            lemma_banned_frame(old(self), self);
        }
    }

    /// A successful connection resets the failure count to zero.
    pub fn mark_connection_success(&mut self, address: NetAddress)
        requires
            old(self).wf(),
        ensures
            final(self).wf(),
            final(self).spec_banned() == old(self).spec_banned(),
            !old(self).spec_store().spec_has(address) ==> *final(self) == *old(self),
            old(self).spec_store().spec_has(address) ==> final(self).spec_store().spec_has(
                address,
            ) && final(self).spec_store().spec_count(address) == 0,
            forall|b: NetAddress|
                b != address ==> (#[trigger] final(self).spec_store().spec_has(b) == old(self).spec_store().spec_has(b)) && (old(self).spec_store().spec_has(b) ==> final(self).spec_store().spec_count(b) == old(self).spec_store().spec_count(b)),
    {
        if !self.store.has(address) {
            return ;
        }
        let ghost s0 = self.store.view_seq();
        self.store.set(address, 0);
        proof {
            lemma_update_frame(s0, self.store.view_seq(), address, 0);
            lemma_banned_frame(old(self), self);
        }
    }

    /// All known addresses.
    pub fn get_all_addresses(&self) -> (r: Vec<NetAddress>)
        requires
            self.wf(),
        ensures
            r@.len() == self.spec_store().view_seq().len(),
            forall|i: int|
                0 <= i < r@.len() ==> #[trigger] r@[i] == self.spec_store().view_seq()[i].address,
    {
        self.store.get_all_addresses()
    }

    /// A random permutation of the known addresses outside `exceptions`,
    /// weighted against repeatedly failing peers.
    pub fn get_random_addresses(&self, exceptions: Vec<NetAddress>) -> (r: Vec<NetAddress>)
        requires
            self.wf(),
        ensures
            r@.no_duplicates(),
            forall|a: NetAddress|
                r@.contains(a) <==> (self.spec_store().spec_has(a) && !exceptions@.contains(a)),
    {
        self.store.get_randomized_addresses(exceptions)
    }

    /// Bans the IP as of `now` and purges every entry carrying it.
    pub fn ban(&mut self, ip: u128, now: u64)
        requires
            old(self).wf(),
        ensures
            final(self).wf(),
            has_ban(final(self).spec_banned(), ip),
            spec_ban_of(final(self).spec_banned(), ip) == Some(now),
            forall|x: u128|
                x != ip ==> spec_ban_of(final(self).spec_banned(), x) == spec_ban_of(
                    old(self).spec_banned(),
                    x,
                ),
            forall|b: NetAddress| b.ip == ip ==> !(#[trigger] final(self).spec_store().spec_has(b)),
            forall|b: NetAddress|
                b.ip != ip ==> (#[trigger] final(self).spec_store().spec_has(b) == old(
                    self,
                ).spec_store().spec_has(b)),
    {
        let n = self.banned.len();
        // Find the existing record, if any.
        let mut idx: usize = n;
        for i in 0..n
            invariant
                n == self.spec_banned().len(),
                *self == *old(self),
                idx <= n,
                idx == n ==> forall|j: int| 0 <= j < i ==> (#[trigger] self.spec_banned()[j]).0
                    != ip,
                idx < n ==> self.spec_banned()[idx as int].0 == ip && (forall|j: int|
                    0 <= j < idx ==> (#[trigger] self.spec_banned()[j]).0 != ip),
        {
            if idx == n && self.banned[i].0 == ip {
                idx = i;
            }
        }
        let ghost s0 = self.banned@;
        if idx < n {
            self.banned.set(idx, (ip, now));
            proof {
                let s1 = self.banned@;
                assert forall|p: int, q: int|
                    0 <= p < q < s1.len() implies s1[p].0 != s1[q].0 by {
                    assert(s0[p].0 == s1[p].0 && s0[q].0 == s1[q].0);
                }
                assert forall|j: int| 0 <= j < idx implies (#[trigger] s1[j]).0 != ip by {
                    assert(s1[j] == s0[j]);
                }
                lemma_ban_of_at(s1, ip, idx as int);
                assert forall|x: u128|
                    x != ip implies spec_ban_of(s1, x) == spec_ban_of(s0, x) by {
                    lemma_ban_of_same_keys(s0, s1, x);
                }
            }
        } else {
            self.banned.push((ip, now));
            proof {
                let s1 = self.banned@;
                assert forall|p: int, q: int|
                    0 <= p < q < s1.len() implies s1[p].0 != s1[q].0 by {
                    if q == s1.len() - 1 {
                        assert(s1[p] == s0[p]);
                    }
                }
                assert(s1[s1.len() - 1].0 == ip);
                assert forall|j: int| 0 <= j < s1.len() - 1 implies (#[trigger] s1[j]).0
                    != ip by {
                    assert(s1[j] == s0[j]);
                }
                lemma_ban_of_at(s1, ip, s1.len() - 1);
                assert forall|x: u128|
                    x != ip implies spec_ban_of(s1, x) == spec_ban_of(s0, x) by {
                    lemma_ban_of_push_frame(s0, (ip, now), x);
                }
            }
        }
        self.store.remove_by_ip(ip);
    }

    /// Lifts the ban on `ip`, if one is recorded.
    pub fn unban(&mut self, ip: u128)
        requires
            old(self).wf(),
        ensures
            final(self).wf(),
            !has_ban(final(self).spec_banned(), ip),
            spec_ban_of(final(self).spec_banned(), ip) is None,
            final(self).spec_store() == old(self).spec_store(),
            forall|x: u128|
                x != ip ==> spec_ban_of(final(self).spec_banned(), x) == spec_ban_of(
                    old(self).spec_banned(),
                    x,
                ) && (has_ban(final(self).spec_banned(), x) == has_ban(
                    old(self).spec_banned(),
                    x,
                )),
    {
        let n = self.banned.len();
        let mut i: usize = 0;
        while i < n
            invariant
                i <= n,
                n == old(self).spec_banned().len(),
                self.wf(),
                self.store == old(self).store,
                self.spec_banned() == old(self).spec_banned(),
                forall|j: int| 0 <= j < i ==> (#[trigger] old(self).spec_banned()[j]).0 != ip,
            decreases n - i,
        {
            if self.banned[i].0 == ip {
                let ghost s0 = self.banned@;
                self.banned.remove(i);
                proof {
                    let s1 = self.banned@;
                    assert(s1 =~= s0.remove(i as int));
                    assert forall|p: int, q: int|
                        0 <= p < q < s1.len() implies s1[p].0 != s1[q].0 by {
                        let a = if p < i as int {
                            p
                        } else {
                            p + 1
                        };
                        let b = if q < i as int {
                            q
                        } else {
                            q + 1
                        };
                        assert(s1[p] == s0[a] && s1[q] == s0[b]);
                    }
                    assert forall|j: int| 0 <= j < s1.len() implies (#[trigger] s1[j]).0
                        != ip by {
                        let a = if j < i as int {
                            j
                        } else {
                            j + 1
                        };
                        assert(s1[j] == s0[a]);
                        assert(a != i as int ==> s0[a].0 != s0[i as int].0);
                    }
                    lemma_ban_of_absent(s1, ip);
                    assert(!has_ban(s1, ip));
                    assert forall|x: u128|
                        x != ip implies spec_ban_of(s1, x) == spec_ban_of(s0, x) && (has_ban(
                        s1,
                        x,
                    ) == has_ban(s0, x)) by {
                        lemma_ban_of_remove_frame(s0, i as int, x);
                        if has_ban(s0, x) {
                            let j = choose|j: int| 0 <= j < s0.len() && s0[j].0 == x;
                            assert(j != i as int);
                            let j1 = if j < i as int {
                                j
                            } else {
                                j - 1
                            };
                            assert(s1[j1] == s0[j]);
                        }
                        if has_ban(s1, x) {
                            let j = choose|j: int| 0 <= j < s1.len() && s1[j].0 == x;
                            let a = if j < i as int {
                                j
                            } else {
                                j + 1
                            };
                            assert(s1[j] == s0[a]);
                            assert(has_ban(s0, x));
                        }
                    }
                }
                return ;
            }
            i = i + 1;
        }
        proof {
            assert(!has_ban(self.spec_banned(), ip));
            lemma_ban_of_absent(self.banned@, ip);
        }
    }

    /// Whether `ip` is banned as of `now`; a ban older than the ban
    /// duration is lifted on the way.
    pub fn is_banned(&mut self, ip: u128, now: u64) -> (r: bool)
        requires
            old(self).wf(),
        ensures
            final(self).wf(),
            final(self).spec_store() == old(self).spec_store(),
            r == (exists|i: int|
                0 <= i < old(self).spec_banned().len() && (#[trigger] old(self).spec_banned()[i]).0
                    == ip && !(now > old(self).spec_banned()[i].1 && now - old(self).spec_banned()[i].1 > MAX_BANNED_TIME)),
            // A positive answer mutates nothing; a negative one at most
            // removes this IP's expired record.
            r ==> *final(self) == *old(self),
            !r ==> !has_ban(final(self).spec_banned(), ip) && spec_ban_of(
                final(self).spec_banned(),
                ip,
            ) is None,
            forall|x: u128|
                x != ip ==> spec_ban_of(final(self).spec_banned(), x) == spec_ban_of(
                    old(self).spec_banned(),
                    x,
                ),
    {
        let n = self.banned.len();
        let mut i: usize = 0;
        while i < n
            invariant
                i <= n,
                n == old(self).spec_banned().len(),
                self.wf(),
                *self == *old(self),
                forall|j: int| 0 <= j < i ==> (#[trigger] old(self).spec_banned()[j]).0 != ip,
            decreases n - i,
        {
            if self.banned[i].0 == ip {
                let ts = self.banned[i].1;
                if now > ts && now - ts > MAX_BANNED_TIME {
                    self.unban(ip);
                    proof {
                        assert forall|j: int|
                            0 <= j < old(self).spec_banned().len() && (#[trigger] old(self).spec_banned()[j]).0 == ip implies old(self).spec_banned()[j]
                            == old(self).spec_banned()[i as int] by {
                            if j != i as int {
                                assert(old(self).spec_banned()[j].0 != old(self).spec_banned()[i as int].0);
                            }
                        }
                    }
                    return false;
                }
                return true;
            }
            i = i + 1;
        }
        proof {
            assert(!has_ban(self.spec_banned(), ip));
            assert forall|j: int|
                0 <= j < self.spec_banned().len() implies (#[trigger] self.spec_banned()[j]).0
                != ip by {}
            lemma_ban_of_absent(self.spec_banned(), ip);
        }
        false
    }
}


/// The ban list is untouched, so its distinctness carries over.
proof fn lemma_banned_frame(a: &AddressManager, b: &AddressManager)
    requires
        a.wf(),
        b.spec_banned() == a.spec_banned(),
        b.spec_store().wf(),
    ensures
        b.wf(),
{
    assert forall|i: int, j: int|
        0 <= i < j < b.spec_banned().len() implies b.spec_banned()[i].0
        != b.spec_banned()[j].0 by {
        assert(a.spec_banned()[i].0 != a.spec_banned()[j].0);
    }
}

/// Updating one address's count leaves the other entries in place.
proof fn lemma_update_frame(s0: Seq<Entry>, s1: Seq<Entry>, a: NetAddress, c: u64)
    requires
        distinct_addresses(s0),
        has_address(s0, a),
        s1 == s0.update(
            address_index(s0, a),
            Entry { address: a, connection_failed_count: c },
        ),
    ensures
        forall|b: NetAddress|
            b != a ==> (has_address(s1, b) == has_address(s0, b)) && (has_address(s0, b)
                ==> s1[address_index(s1, b)].connection_failed_count == s0[address_index(
                s0,
                b,
            )].connection_failed_count),
{
    let i = address_index(s0, a);
    assert(0 <= i < s0.len() && s0[i].address == a);
    assert forall|b: NetAddress|
        b != a implies (has_address(s1, b) == has_address(s0, b)) && (has_address(s0, b)
        ==> s1[address_index(s1, b)].connection_failed_count == s0[address_index(
        s0,
        b,
    )].connection_failed_count) by {
        if has_address(s0, b) {
            let j = address_index(s0, b);
            assert(s0[j].address == b);
            assert(j != i);
            assert(s1[j] == s0[j]);
            assert(has_address(s1, b));
            let w = address_index(s1, b);
            assert(s1[w].address == b);
            assert(w != i) by {
                if w == i {
                    assert(s1[i].address == a);
                }
            }
            assert(s1[w] == s0[w]);
            assert(w == j) by {
                if w != j {
                    assert(s0[w].address != s0[j].address);
                }
            }
        }
        if has_address(s1, b) {
            let j = choose|j: int| 0 <= j < s1.len() && s1[j].address == b;
            assert(j != i);
            assert(s0[j] == s1[j]);
            assert(has_address(s0, b));
        }
    }
}

} // verus!
