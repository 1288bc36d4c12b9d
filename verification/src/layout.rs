//! Size classes and byte offsets: how a request in bytes becomes a depth in
//! the free-tree, and how a path index becomes a place in the buffer.

use crate::allocator::BuddyAllocator;
use vstd::arithmetic::div_mod::lemma_div_denominator;
use vstd::arithmetic::power2::{lemma2_to64, lemma_pow2_pos, lemma_pow2_unfold, pow2};
use vstd::prelude::*;

verus! {

/// The number of minimum blocks that `size` bytes take: `size` divided by the
/// minimum block size, rounded up.
pub open spec fn blocks_for_size(size: nat) -> nat {
    size / (BuddyAllocator::MIN_BLOCK_SIZE as nat) + if size % (BuddyAllocator::MIN_BLOCK_SIZE as nat)
        == 0 {
        0nat
    } else {
        1nat
    }
}

/// The position of the highest set bit of `n`: the logarithm to base 2,
/// rounded down. It is 0 for 0.
pub open spec fn floor_log2(n: nat) -> nat
    decreases n,
{
    if n <= 1 {
        0
    } else {
        1 + floor_log2(n / 2)
    }
}

/// The size class of a request of `size` bytes.
pub open spec fn level_for_size(size: nat) -> nat {
    floor_log2(blocks_for_size(size))
}

/// The depth in the free-tree at which a request of `size` bytes is served.
pub open spec fn depth_for_size(size: nat) -> nat {
    (BuddyAllocator::BLOCK_LEVELS - level_for_size(size)) as nat
}

/// How many of the low `width` bits of `index` are set.
pub open spec fn set_bits(index: nat, width: nat) -> nat
    decreases width,
{
    if width == 0 {
        0
    } else {
        index % 2 + set_bits(index / 2, (width - 1) as nat)
    }
}

/// The byte offset that belongs to a path index: one minimum block for each
/// set bit among its low `BLOCK_LEVELS` bits.
pub open spec fn offset_for_index(index: nat) -> nat {
    set_bits(index, BuddyAllocator::BLOCK_LEVELS as nat) * BuddyAllocator::MIN_BLOCK_SIZE as nat
}

/// The constants fit together: the minimum block is the power of two that
/// `STARTING_BLOCK_POW` names, and the buffer holds one minimum block for each
/// level.
pub proof fn lemma_constants()
    ensures
        BuddyAllocator::MIN_BLOCK_SIZE == pow2(BuddyAllocator::STARTING_BLOCK_POW as nat),
        BuddyAllocator::CAPACITY == BuddyAllocator::BLOCK_LEVELS * BuddyAllocator::MIN_BLOCK_SIZE,
        BuddyAllocator::CAPACITY == 524288,
{
    lemma2_to64();
}

/// The logarithm brackets its argument between two powers of two.
pub proof fn lemma_floor_log2_bounds(n: nat)
    requires
        n > 0,
    ensures
        pow2(floor_log2(n)) <= n < pow2(floor_log2(n) + 1),
    decreases n,
{
    lemma2_to64();
    if n > 1 {
        lemma_floor_log2_bounds(n / 2);
        lemma_pow2_unfold(floor_log2(n));
        lemma_pow2_unfold(floor_log2(n) + 1);
    }
}

/// A number between `2^e` and `2^(e+1)` has logarithm `e`.
pub proof fn lemma_floor_log2_between(n: nat, e: nat)
    requires
        pow2(e) <= n < pow2(e + 1),
    ensures
        floor_log2(n) == e,
    decreases e,
{
    lemma2_to64();
    if e == 0 {
    } else {
        lemma_pow2_unfold(e);
        lemma_pow2_unfold(e + 1);
        lemma_pow2_pos((e - 1) as nat);
        lemma_floor_log2_between(n / 2, (e - 1) as nat);
    }
}

/// A whole number of minimum blocks takes exactly that many blocks.
pub proof fn lemma_blocks_of_multiple(blocks: nat)
    ensures
        blocks_for_size(blocks * BuddyAllocator::MIN_BLOCK_SIZE as nat) == blocks,
{
}

/// The size class of `2^e` minimum blocks is `e`.
pub proof fn lemma_level_of_power_of_two(e: nat)
    ensures
        level_for_size(pow2(e) * BuddyAllocator::MIN_BLOCK_SIZE as nat) == e,
{
    lemma_blocks_of_multiple(pow2(e));
    lemma_pow2_unfold(e + 1);
    lemma_pow2_pos(e);
    lemma_floor_log2_between(pow2(e), e);
}

/// A request within capacity has one of the size classes 0 to 3, and is
/// served between depth 5 and depth 8.
pub proof fn lemma_level_within_capacity(size: nat)
    requires
        0 < size <= BuddyAllocator::CAPACITY,
    ensures
        1 <= blocks_for_size(size) <= BuddyAllocator::BLOCK_LEVELS,
        level_for_size(size) <= 3,
        5 <= depth_for_size(size) <= BuddyAllocator::BLOCK_LEVELS,
{
    reveal_with_fuel(floor_log2, 5);
}

/// No more than `width` bits are set among the low `width` bits.
pub proof fn lemma_set_bits_bound(index: nat, width: nat)
    ensures
        set_bits(index, width) <= width,
    decreases width,
{
    if width > 0 {
        lemma_set_bits_bound(index / 2, (width - 1) as nat);
    }
}

/// Counting one bit more adds that bit.
pub proof fn lemma_set_bits_next(index: nat, width: nat)
    ensures
        set_bits(index, width + 1) == set_bits(index, width) + (index / pow2(width)) % 2,
    decreases width,
{
    lemma2_to64();
    reveal_with_fuel(set_bits, 2);
    if width > 0 {
        let w = (width - 1) as nat;
        lemma_set_bits_next(index / 2, w);
        lemma_pow2_unfold(width);
        lemma_pow2_pos(w);
        assert((index / 2) / pow2(w) == index / pow2(width)) by {
            lemma_div_denominator(index as int, 2, pow2(w) as int);
        }
        assert(set_bits(index / 2, width) == set_bits(index / 2, w) + ((index / 2) / pow2(w)) % 2);
    } else {
        assert(set_bits(index, 1) == index % 2);
    }
}

} // verus!
