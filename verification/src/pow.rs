//! Proof-of-work arithmetic: compact difficulty bits, targets, work, and
//! block levels.
//!
//! A block identifier doubles as its proof-of-work value: a header meets a
//! target when its hash, read as a number, is at most the target.

use vstd::prelude::*;
use vstd::arithmetic::power2::pow2;
use crate::hashes::BlockHash;

verus! {

/// 256 to the `e`-th power.
pub open spec fn pow256(e: nat) -> int
    decreases e,
{
    if e == 0 {
        1
    } else {
        256 * pow256((e - 1) as nat)
    }
}

proof fn lemma_pow256_pos(e: nat)
    ensures
        pow256(e) >= 1,
    decreases e,
{
    if e > 0 {
        lemma_pow256_pos((e - 1) as nat);
    }
}

/// The target encoded by compact `bits`: `mantissa * 256^(exponent - 3)`,
/// saturated at the type's maximum. The low 24 bits hold the mantissa, the
/// high 8 bits the byte length of the target.
pub open spec fn spec_target_from_bits(bits: u32) -> u128 {
    let mantissa = (bits % 0x1000000) as int;
    let exponent = (bits / 0x1000000) as int;
    let value = if exponent >= 3 {
        mantissa * pow256((exponent - 3) as nat)
    } else {
        mantissa / pow256((3 - exponent) as nat)
    };
    if value > u128::MAX {
        u128::MAX
    } else {
        value as u128
    }
}

/// Decodes compact bits into a target.
pub fn target_from_bits(bits: u32) -> (r: u128)
    ensures
        r == spec_target_from_bits(bits),
{
    let mantissa = (bits % 0x1000000) as u128;
    let exponent = bits / 0x1000000;
    if exponent >= 3 {
        let ghost goal = (mantissa as int) * pow256((exponent - 3) as nat);
        let mut e = exponent - 3;
        let mut value = mantissa;
        proof {
            lemma_pow256_pos((exponent - 3) as nat);
            assert(goal >= 0) by (nonlinear_arith)
                requires
                    goal == (mantissa as int) * pow256((exponent - 3) as nat),
                    mantissa >= 0,
                    pow256((exponent - 3) as nat) >= 1,
            {
            }
        }
        while e > 0
            invariant
                goal >= 0,
                (value as int) * pow256(e as nat) == goal || (goal > u128::MAX && value
                    == u128::MAX),
            decreases e,
        {
            proof {
                lemma_pow256_pos((e - 1) as nat);
                assert(pow256(e as nat) == 256 * pow256((e - 1) as nat));
            }
            if value > u128::MAX / 256 {
                proof {
                    assert((value as int) * pow256(e as nat) > u128::MAX) by (nonlinear_arith)
                        requires
                            value as int > (u128::MAX as int) / 256,
                            pow256(e as nat) >= 256,
                    {
                    }
                    assert(pow256(e as nat) >= 256) by (nonlinear_arith)
                        requires
                            pow256(e as nat) == 256 * pow256((e - 1) as nat),
                            pow256((e - 1) as nat) >= 1,
                    {
                    }
                }
                value = u128::MAX;
                e = 1;
            } else {
                proof {
                    assert(((value * 256) as int) * pow256((e - 1) as nat) == (value as int)
                        * pow256(e as nat)) by (nonlinear_arith)
                        requires
                            pow256(e as nat) == 256 * pow256((e - 1) as nat),
                            value * 256 <= u128::MAX,
                    {
                    }
                }
                value = value * 256;
            }
            e = e - 1;
        }
        proof {
            assert(pow256(0) == 1);
        }
        value
    } else {
        let shift = 3 - exponent;
        proof {
            reveal_with_fuel(pow256, 4);
        }
        if shift == 1 {
            mantissa / 256
        } else if shift == 2 {
            mantissa / 65536
        } else {
            mantissa / 16777216
        }
    }
}

/// The work a block with the given bits contributes: the expected number of
/// attempts to meet the target, `MAX / (target + 1)`.
pub open spec fn spec_work_from_bits(bits: u32) -> u128 {
    let target = spec_target_from_bits(bits) as int;
    ((u128::MAX as int) / (target + 1)) as u128
}

/// Computes the work contributed by a block with the given bits.
pub fn work_from_bits(bits: u32) -> (r: u128)
    ensures
        r == spec_work_from_bits(bits),
{
    let target = target_from_bits(bits);
    if target == u128::MAX {
        proof {
            assert((u128::MAX as int) / (u128::MAX as int + 1) == 0);
        }
        0
    } else {
        u128::MAX / (target + 1)
    }
}

/// Whether the identifier meets the target at `level`: each level doubles
/// the required work.
pub open spec fn spec_pow_at_level(hash: BlockHash, bits: u32, level: nat) -> bool {
    (hash as int) * pow2(level) <= spec_target_from_bits(bits) as int
}

/// Whether the identifier meets the plain (level-0) target.
pub open spec fn spec_pow_passes(hash: BlockHash, bits: u32) -> bool {
    spec_pow_at_level(hash, bits, 0)
}

/// Level-0 proof-of-work check.
pub fn pow_passes(hash: BlockHash, bits: u32) -> (r: bool)
    ensures
        r == spec_pow_passes(hash, bits),
{
    let target = target_from_bits(bits);
    proof {
        vstd::arithmetic::power2::lemma2_to64();
        assert((hash as int) * pow2(0) == hash as int);
    }
    (hash as u128) <= target
}

/// Meeting a level's target implies meeting every lower level's target.
proof fn lemma_pow_levels_monotone(hash: BlockHash, bits: u32, lo: int, hi: int)
    requires
        0 <= lo <= hi,
        spec_pow_at_level(hash, bits, hi as nat),
    ensures
        spec_pow_at_level(hash, bits, lo as nat),
    decreases hi - lo,
{
    if lo < hi {
        vstd::arithmetic::power2::lemma_pow2_unfold(hi as nat);
        assert((hash as int) * pow2((hi - 1) as nat) <= (hash as int) * pow2(hi as nat))
            by (nonlinear_arith)
            requires
                hash >= 0,
                pow2(hi as nat) == 2 * pow2((hi - 1) as nat),
                pow2((hi - 1) as nat) >= 0,
        {
        }
        lemma_pow_levels_monotone(hash, bits, lo, hi - 1);
    }
}

/// The block level granted by the identifier's proof of work: the largest
/// `level <= max_level` whose scaled target the hash meets, or `max_level`
/// outright when proof of work is disabled.
pub open spec fn spec_block_level(
    hash: BlockHash,
    bits: u32,
    max_level: u8,
    skip_pow: bool,
) -> int {
    if skip_pow {
        max_level as int
    } else {
        choose|l: int|
            #![trigger spec_pow_at_level(hash, bits, l as nat)]
            0 <= l <= max_level && spec_pow_at_level(hash, bits, l as nat) && (l == max_level
                || !spec_pow_at_level(hash, bits, (l + 1) as nat))
    }
}

/// The level at which the search stops is the one `spec_block_level` names.
proof fn lemma_block_level_choose(hash: BlockHash, bits: u32, max_level: u8, l: int)
    requires
        0 <= l <= max_level,
        spec_pow_at_level(hash, bits, l as nat),
        l == max_level || !spec_pow_at_level(hash, bits, (l + 1) as nat),
    ensures
        spec_block_level(hash, bits, max_level, false) == l,
{
    assert(0 <= l <= max_level && spec_pow_at_level(hash, bits, l as nat) && (l == max_level
        || !spec_pow_at_level(hash, bits, (l + 1) as nat)));
    let w = choose|x: int|
        #![trigger spec_pow_at_level(hash, bits, x as nat)]
        0 <= x <= max_level && spec_pow_at_level(hash, bits, x as nat) && (x == max_level
            || !spec_pow_at_level(hash, bits, (x + 1) as nat));
    if w < l {
        lemma_pow_levels_monotone(hash, bits, w + 1, l);
    }
    if w > l {
        lemma_pow_levels_monotone(hash, bits, l + 1, w);
    }
}

/// Computes the block level; requires the level-0 check to pass when proof
/// of work is enabled.
pub fn calc_block_level(hash: BlockHash, bits: u32, max_level: u8, skip_pow: bool) -> (r: u8)
    requires
        skip_pow || spec_pow_passes(hash, bits),
    ensures
        r <= max_level,
        r == spec_block_level(hash, bits, max_level, skip_pow),
{
    if skip_pow {
        return max_level;
    }
    let target = target_from_bits(bits);
    let mut level: u8 = 0;
    let mut scaled: u128 = hash as u128;
    proof {
        vstd::arithmetic::power2::lemma2_to64();
        assert((hash as int) * pow2(0) == hash as int);
    }
    while level < max_level
        invariant
            !skip_pow,
            level <= max_level,
            target == spec_target_from_bits(bits),
            spec_pow_at_level(hash, bits, level as nat),
            scaled as int == (hash as int) * pow2(level as nat),
        decreases max_level - level,
    {
        proof {
            vstd::arithmetic::power2::lemma_pow2_unfold((level + 1) as nat);
            assert((hash as int) * pow2((level + 1) as nat) == 2 * ((hash as int) * pow2(
                level as nat,
            ))) by (nonlinear_arith)
                requires
                    pow2((level + 1) as nat) == 2 * pow2(level as nat),
            {
            }
        }
        if scaled > u128::MAX / 2 {
            proof {
                assert(2 * (scaled as int) > u128::MAX);
                assert(!spec_pow_at_level(hash, bits, (level + 1) as nat));
                lemma_block_level_choose(hash, bits, max_level, level as int);
            }
            return level;
        }
        let next = scaled * 2;
        if next <= target {
            scaled = next;
            level = level + 1;
        } else {
            proof {
                assert(!spec_pow_at_level(hash, bits, (level + 1) as nat));
                lemma_block_level_choose(hash, bits, max_level, level as int);
            }
            return level;
        }
    }
    proof {
        lemma_block_level_choose(hash, bits, max_level, level as int);
    }
    level
}

} // verus!
