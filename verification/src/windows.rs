//! Bounded block windows over the selected-parent chain, the past median
//! time, and the difficulty rule.

use vstd::prelude::*;
use crate::hashes::{BlockHash, ORIGIN};
use crate::ghostdag::GhostdagStore;

verus! {

/// Up to `size` chain blocks, walking selected parents from `cur`.
pub open spec fn spec_window(gd: GhostdagStore, cur: BlockHash, size: nat) -> Seq<BlockHash>
    decreases size,
{
    if size == 0 || cur == ORIGIN || !gd.spec_has(cur) {
        Seq::empty()
    } else {
        seq![cur] + spec_window(gd, gd.map@[cur].selected_parent, (size - 1) as nat)
    }
}

/// Collects the window of up to `size` chain blocks starting at `cur`.
pub fn block_window(gd: &GhostdagStore, cur: BlockHash, size: usize) -> (r: Vec<BlockHash>)
    requires
        gd.wf(),
        cur == ORIGIN || gd.spec_has(cur),
    ensures
        r@ == spec_window(*gd, cur, size as nat),
        forall|i: int| 0 <= i < r@.len() ==> gd.spec_has(#[trigger] r@[i]),
{
    let mut out: Vec<BlockHash> = Vec::new();
    let mut c = cur;
    let mut left = size;
    proof {
        assert(spec_window(*gd, cur, size as nat) =~= out@ + spec_window(*gd, c, left as nat));
    }
    while left > 0 && c != ORIGIN
        invariant
            gd.wf(),
            c == ORIGIN || gd.spec_has(c),
            spec_window(*gd, cur, size as nat) == out@ + spec_window(*gd, c, left as nat),
            forall|i: int| 0 <= i < out@.len() ==> gd.spec_has(#[trigger] out@[i]),
        decreases left,
    {
        let d = gd.get(c).unwrap();
        let ghost pre = out@;
        let ghost prec = c;
        let ghost prel = left as nat;
        out.push(c);
        let next = d.selected_parent;
        proof {
            if next != ORIGIN {
                crate::ghostdag::lemma_chain_step(gd, prec);
            }
            assert(spec_window(*gd, prec, prel) =~= seq![prec] + spec_window(
                *gd,
                gd.map@[prec].selected_parent,
                (prel - 1) as nat,
            ));
            assert(pre + spec_window(*gd, prec, prel) =~= out@ + spec_window(
                *gd,
                next,
                (prel - 1) as nat,
            ));
        }
        c = next;
        left = left - 1;
    }
    proof {
        assert(spec_window(*gd, c, left as nat) =~= Seq::<BlockHash>::empty());
        assert(out@ + Seq::<BlockHash>::empty() =~= out@);
    }
    out
}

/// Inserts `x` into a sorted sequence, before the first strictly larger
/// element.
pub open spec fn spec_insert_sorted(s: Seq<u64>, x: u64) -> Seq<u64>
    decreases s.len(),
{
    if s.len() == 0 {
        seq![x]
    } else if x < s.first() {
        seq![x] + s
    } else {
        seq![s.first()] + spec_insert_sorted(s.drop_first(), x)
    }
}

/// Sorts by repeated insertion, in input order.
pub open spec fn spec_sorted(s: Seq<u64>) -> Seq<u64>
    decreases s.len(),
{
    if s.len() == 0 {
        Seq::empty()
    } else {
        spec_insert_sorted(spec_sorted(s.drop_last()), s.last())
    }
}

/// The median of a non-empty list: the middle element once sorted.
pub open spec fn spec_median(s: Seq<u64>) -> u64 {
    spec_sorted(s)[s.len() as int / 2]
}

proof fn lemma_insert_sorted_len(s: Seq<u64>, x: u64)
    ensures
        spec_insert_sorted(s, x).len() == s.len() + 1,
    decreases s.len(),
{
    if s.len() > 0 && !(x < s.first()) {
        lemma_insert_sorted_len(s.drop_first(), x);
    }
}

pub proof fn lemma_sorted_len(s: Seq<u64>)
    ensures
        spec_sorted(s).len() == s.len(),
    decreases s.len(),
{
    if s.len() > 0 {
        lemma_sorted_len(s.drop_last());
        lemma_insert_sorted_len(spec_sorted(s.drop_last()), s.last());
    }
}

/// Inserting at the first strictly-larger position realizes
/// `spec_insert_sorted`.
proof fn lemma_insert_sorted_at(s: Seq<u64>, x: u64, j: int)
    requires
        0 <= j <= s.len(),
        forall|i: int| 0 <= i < j ==> s[i] <= x,
        j < s.len() ==> x < s[j],
    ensures
        spec_insert_sorted(s, x) == s.subrange(0, j).push(x) + s.subrange(j, s.len() as int),
    decreases j,
{
    if j == 0 {
        if s.len() == 0 {
            assert(spec_insert_sorted(s, x) =~= s.subrange(0, 0).push(x) + s.subrange(
                0,
                s.len() as int,
            ));
        } else {
            assert(x < s.first());
            assert(spec_insert_sorted(s, x) =~= s.subrange(0, 0).push(x) + s.subrange(
                0,
                s.len() as int,
            ));
        }
    } else {
        assert(s[0] <= x);
        let d = s.drop_first();
        assert forall|i: int| 0 <= i < j - 1 implies d[i] <= x by {
            assert(d[i] == s[i + 1]);
        }
        lemma_insert_sorted_at(d, x, j - 1);
        assert(spec_insert_sorted(s, x) =~= seq![s.first()] + spec_insert_sorted(d, x));
        assert(seq![s.first()] + (d.subrange(0, j - 1).push(x) + d.subrange(j - 1, d.len() as int))
            =~= s.subrange(0, j).push(x) + s.subrange(j, s.len() as int));
    }
}

/// Computes the median timestamp of a non-empty window.
pub fn median(v: &Vec<u64>) -> (r: u64)
    requires
        v@.len() >= 1,
    ensures
        r == spec_median(v@),
{
    let mut sorted: Vec<u64> = Vec::new();
    let n = v.len();
    for i in 0..n
        invariant
            n == v@.len(),
            sorted@ == spec_sorted(v@.subrange(0, i as int)),
            sorted@.len() == i,
    {
        let x = v[i];
        // Find the first position holding a strictly larger element.
        let m = sorted.len();
        let mut j: usize = 0;
        while j < m && sorted[j] <= x
            invariant
                m == sorted@.len(),
                j <= m,
                forall|t: int| 0 <= t < j ==> sorted@[t] <= x,
            decreases m - j,
        {
            j = j + 1;
        }
        let ghost pre = sorted@;
        sorted.insert(j, x);
        proof {
            lemma_insert_sorted_at(pre, x, j as int);
            assert(sorted@ =~= pre.subrange(0, j as int).push(x) + pre.subrange(
                j as int,
                pre.len() as int,
            ));
            assert(v@.subrange(0, i + 1).drop_last() =~= v@.subrange(0, i as int));
            assert(v@.subrange(0, i + 1).last() == v@[i as int]);
        }
    }
    proof {
        assert(v@.subrange(0, n as int) =~= v@);
        lemma_sorted_len(v@);
    }
    sorted[v.len() / 2]
}

/// The sum of the listed difficulty bits.
pub open spec fn spec_sum_bits(s: Seq<u32>) -> int
    decreases s.len(),
{
    if s.len() == 0 {
        0
    } else {
        spec_sum_bits(s.drop_last()) + s.last()
    }
}

/// The expected difficulty bits over a full window: the plain average of
/// the window's bits. A window shorter than `window_size` keeps the genesis
/// difficulty.
pub open spec fn spec_expected_bits(bits: Seq<u32>, window_size: int, genesis_bits: u32) -> u32 {
    if bits.len() < window_size || bits.len() == 0 {
        genesis_bits
    } else {
        (spec_sum_bits(bits) / bits.len() as int) as u32
    }
}

proof fn lemma_sum_bits_bound(s: Seq<u32>)
    ensures
        0 <= spec_sum_bits(s) <= s.len() * (u32::MAX as int),
    decreases s.len(),
{
    if s.len() > 0 {
        lemma_sum_bits_bound(s.drop_last());
        assert((s.len() - 1) * (u32::MAX as int) + u32::MAX == s.len() * (u32::MAX as int))
            by (nonlinear_arith);
    }
}

/// Computes the expected bits of a window.
pub fn expected_bits(bits: &Vec<u32>, window_size: usize, genesis_bits: u32) -> (r: u32)
    ensures
        r == spec_expected_bits(bits@, window_size as int, genesis_bits),
{
    let n = bits.len();
    if n < window_size || n == 0 {
        return genesis_bits;
    }
    let mut sum: u128 = 0;
    for i in 0..n
        invariant
            n == bits@.len(),
            sum == spec_sum_bits(bits@.subrange(0, i as int)),
            sum <= (i as int) * (u32::MAX as int),
    {
        proof {
            assert(bits@.subrange(0, i + 1).drop_last() =~= bits@.subrange(0, i as int));
            assert(bits@.subrange(0, i + 1).last() == bits@[i as int]);
            assert((i as int) * (u32::MAX as int) + u32::MAX == (i + 1) * (u32::MAX as int))
                by (nonlinear_arith);
            assert((i + 1) * (u32::MAX as int) <= (n as int) * (u32::MAX as int))
                by (nonlinear_arith)
                requires
                    i + 1 <= n as int,
            {
            }
        }
        sum = sum + (bits[i] as u128);
    }
    proof {
        assert(bits@.subrange(0, n as int) =~= bits@);
        lemma_sum_bits_bound(bits@);
        assert(spec_sum_bits(bits@) / (n as int) <= u32::MAX as int) by (nonlinear_arith)
            requires
                n as int >= 1,
                0 <= spec_sum_bits(bits@) <= (n as int) * (u32::MAX as int),
        {
        }
    }
    (sum / (n as u128)) as u32
}

} // verus!
