//! What holds of the allocator across requests, and of the byte ranges that
//! it hands out.

use crate::allocator::{Allocation, BuddyAllocator};
use crate::layout::{
    depth_for_size, lemma_level_within_capacity, lemma_set_bits_bound, level_for_size,
    offset_for_index,
};
use crate::tree::BinaryTree;
use crate::tree_laws::lemma_release_then_first_free;
use vstd::prelude::*;

verus! {

/// When a request of `size` bytes was served with the slot `index` and that
/// allocation is freed right away, the tree is still well formed, and a
/// request of the same size class is served again, with the same slot.
pub proof fn lemma_free_then_allocate_again(tree: BinaryTree, size: nat, again: nat, index: nat)
    requires
        tree.wf(),
        0 < size <= BuddyAllocator::CAPACITY,
        0 < again <= BuddyAllocator::CAPACITY,
        level_for_size(again) == level_for_size(size),
        tree.is_first_free(depth_for_size(size), index),
    ensures
        tree.reserved(depth_for_size(size), index).released(index).wf(),
        tree.reserved(depth_for_size(size), index).released(index).is_first_free(
            depth_for_size(again),
            index,
        ),
        !tree.reserved(depth_for_size(size), index).released(index).full_at(depth_for_size(again)),
{
    lemma_level_within_capacity(size);
    lemma_release_then_first_free(tree, depth_for_size(size), index);
}

/// Every offset is a whole number of minimum blocks, and none lies past the
/// end of the buffer.
pub proof fn lemma_offset_within_capacity(index: nat)
    ensures
        offset_for_index(index) <= BuddyAllocator::CAPACITY,
        offset_for_index(index) % (BuddyAllocator::MIN_BLOCK_SIZE as nat) == 0,
{
    lemma_set_bits_bound(index, BuddyAllocator::BLOCK_LEVELS as nat);
}

/// Two allocations have no byte in common exactly when their runs of minimum
/// blocks are apart: one run ends at or before the block where the other
/// starts.
pub proof fn lemma_ranges_disjoint(a: Allocation, b: Allocation)
    requires
        a.wf(),
        b.wf(),
    ensures
        a.disjoint(&b) <==> (a.first_block() + a.blocks() <= b.first_block() || b.first_block()
            + b.blocks() <= a.first_block()),
{
}

} // verus!
