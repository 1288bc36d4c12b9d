//! The buddy allocator: a fixed buffer, and a free-tree that says which of
//! its blocks are handed out.

use crate::layout::{
    blocks_for_size, depth_for_size, floor_log2, lemma_level_within_capacity, lemma_set_bits_bound,
    lemma_set_bits_next, level_for_size, offset_for_index, set_bits,
};
use crate::tree::{BinaryTree, Free};
use vstd::bits::lemma_usize_shr_is_div;
use vstd::prelude::*;
use vstd::slice::slice_subrange;

verus! {

/// A fixed-capacity allocator on the buddy system.
pub struct BuddyAllocator {
    free_tree: BinaryTree,
    data: Vec<u8>,
}

/// What `allocate` hands out: a byte range of the buffer, and the path index of
/// the tree slot that stands for it.
#[derive(Clone, Debug)]
pub struct Allocation {
    offset: usize,
    len: usize,
    alloc_index: usize,
}

impl Allocation {
    /// The first byte of the range, counted from the start of the buffer.
    pub closed spec fn spec_offset(&self) -> usize {
        self.offset
    }

    /// The number of bytes in the range: the size that was asked for.
    pub closed spec fn spec_len(&self) -> usize {
        self.len
    }

    /// The path index of the tree slot: the handle by which the allocation
    /// is released.
    pub closed spec fn spec_index(&self) -> usize {
        self.alloc_index
    }

    /// The first byte after the range.
    pub open spec fn end(&self) -> nat {
        (self.offset() + self.len()) as nat
    }

    /// The first minimum block of the range, counted from the start of the
    /// buffer.
    pub open spec fn first_block(&self) -> nat {
        set_bits(self.index() as nat, BuddyAllocator::BLOCK_LEVELS as nat)
    }

    /// The number of minimum blocks that the range reaches into.
    pub open spec fn blocks(&self) -> nat {
        blocks_for_size(self.len() as nat)
    }

    /// The range is not empty, and starts where its path index says.
    pub open spec fn wf(&self) -> bool {
        &&& self.len() > 0
        &&& self.offset() == offset_for_index(self.index() as nat)
    }

    /// The two byte ranges have no byte in common.
    pub open spec fn disjoint(&self, other: &Allocation) -> bool {
        self.end() <= other.offset() || other.end() <= self.offset()
    }

    /// The first byte of the range, counted from the start of the buffer.
    #[verifier::when_used_as_spec(spec_offset)]
    pub fn offset(&self) -> (offset: usize)
        ensures
            offset == self.spec_offset(),
    {
        self.offset
    }

    /// The number of bytes in the range.
    #[verifier::when_used_as_spec(spec_len)]
    pub fn len(&self) -> (len: usize)
        ensures
            len == self.spec_len(),
    {
        self.len
    }

    /// The path index of the tree slot.
    #[verifier::when_used_as_spec(spec_index)]
    pub fn index(&self) -> (index: usize)
        ensures
            index == self.spec_index(),
    {
        self.alloc_index
    }
}

impl BuddyAllocator {
    /// The minimum block size as a power of two.
    pub const STARTING_BLOCK_POW: usize = 16;

    /// The smallest block, in bytes.
    pub const MIN_BLOCK_SIZE: usize = 65536;

    /// The number of size classes, and the depth of the free-tree.
    pub const BLOCK_LEVELS: usize = BinaryTree::MAX_DEPTH;

    /// The size of the buffer, in bytes.
    pub const CAPACITY: usize = Self::BLOCK_LEVELS * Self::MIN_BLOCK_SIZE;

    /// The free-tree.
    pub closed spec fn tree(&self) -> BinaryTree {
        self.free_tree
    }

    /// The bytes of the buffer.
    pub closed spec fn buffer(&self) -> Seq<u8> {
        self.data@
    }

    /// The buffer has its fixed size, and the tree its bounded depth.
    pub open spec fn wf(&self) -> bool {
        &&& self.tree().wf()
        &&& self.buffer().len() == Self::CAPACITY
    }

    /// An allocator with every byte zero and nothing handed out.
    pub fn new() -> (allocator: Self)
        ensures
            allocator.wf(),
            allocator.tree() == BinaryTree::Data(Free::Free),
            allocator.buffer() == Seq::new(Self::CAPACITY as nat, |i: int| 0u8),
    {
        Self {
            free_tree: BinaryTree::Data(Free::Free),
            data: vec![0u8; Self::CAPACITY],
        }
    }

    /// Reserves the leftmost free block of the size class of
    /// `allocation_size`. Returns `None`, and changes nothing, when the size
    /// class has no free block left.
    pub fn allocate(&mut self, allocation_size: usize) -> (allocation: Option<Allocation>)
        requires
            old(self).wf(),
            0 < allocation_size <= Self::CAPACITY,
        ensures
            final(self).wf(),
            final(self).buffer() == old(self).buffer(),
            match allocation {
                Some(a) => {
                    &&& old(self).tree().is_first_free(
                        depth_for_size(allocation_size as nat),
                        a.index() as nat,
                    )
                    &&& final(self).tree() == old(self).tree().reserved(
                        depth_for_size(allocation_size as nat),
                        a.index() as nat,
                    )
                    &&& final(self).tree().occupied(
                        depth_for_size(allocation_size as nat),
                        a.index() as nat,
                    )
                    &&& a.offset() == offset_for_index(a.index() as nat)
                    &&& a.len() == allocation_size
                },
                None => {
                    &&& old(self).tree().full_at(depth_for_size(allocation_size as nat))
                    &&& final(self).tree() == old(self).tree()
                },
            },
    {
        proof {
            lemma_level_within_capacity(allocation_size as nat);
        }
        let depth_in_tree: usize = Self::BLOCK_LEVELS - Self::get_block_level(allocation_size);
        if let Some(alloc_index) = self.free_tree.get_first_free(depth_in_tree) {
            let mem_index: usize = Self::get_alloc_memory_index(alloc_index);
            Some(Allocation { offset: mem_index, len: allocation_size, alloc_index })
        } else {
            None
        }
    }

    /// Gives the block of `allocation` back: the used leaf that its path
    /// index leads to becomes free. No split is undone. The allocation must
    /// be one that is still held.
    pub fn free(&mut self, allocation: Allocation)
        requires
            old(self).wf(),
            old(self).tree().in_use(allocation.index() as nat),
        ensures
            final(self).wf(),
            final(self).tree() == old(self).tree().released(allocation.index() as nat),
            !final(self).tree().in_use(allocation.index() as nat),
            final(self).buffer() == old(self).buffer(),
    {
        self.free_tree.free(allocation.alloc_index);
    }

    /// The bytes of `allocation`, or `None` when its range reaches past the
    /// end of the buffer.
    pub fn bytes(&self, allocation: &Allocation) -> (view: Option<&[u8]>)
        requires
            self.wf(),
        ensures
            match view {
                Some(bytes) => allocation.end() <= Self::CAPACITY && bytes@
                    == self.buffer().subrange(allocation.offset() as int, allocation.end() as int),
                None => allocation.end() > Self::CAPACITY,
            },
    {
        let size: usize = self.data.len();
        if allocation.offset <= size && allocation.len <= size - allocation.offset {
            Some(
                slice_subrange(
                    self.data.as_slice(),
                    allocation.offset,
                    allocation.offset + allocation.len,
                ),
            )
        } else {
            None
        }
    }

    /// Stores `value` in byte `at` of `allocation`. Returns `false`, and
    /// stores nothing, when the allocation has no such byte or the byte lies
    /// past the end of the buffer.
    pub fn write(&mut self, allocation: &Allocation, at: usize, value: u8) -> (stored: bool)
        requires
            old(self).wf(),
        ensures
            final(self).wf(),
            final(self).tree() == old(self).tree(),
            stored == (at < allocation.len() && allocation.offset() + at < Self::CAPACITY),
            final(self).buffer() == if stored {
                old(self).buffer().update(allocation.offset() + at, value)
            } else {
                old(self).buffer()
            },
    {
        let size: usize = self.data.len();
        if at < allocation.len && allocation.offset < size && at < size - allocation.offset {
            self.data[allocation.offset + at] = value;
            true
        } else {
            false
        }
    }

    /// The byte offset that belongs to a path index.
    pub fn get_alloc_memory_index(alloc_index: usize) -> (offset: usize)
        ensures
            offset == offset_for_index(alloc_index as nat),
    {
        let mut offset: usize = 0;
        let mut i: usize = 0;
        while i < Self::BLOCK_LEVELS
            invariant
                i <= Self::BLOCK_LEVELS,
                offset == set_bits(alloc_index as nat, i as nat) * Self::MIN_BLOCK_SIZE,
            decreases Self::BLOCK_LEVELS - i,
        {
            let bit: usize = (alloc_index >> i) & 1;
            proof {
                let shifted: usize = alloc_index >> i;
                lemma_usize_shr_is_div(alloc_index, i);
                lemma_set_bits_next(alloc_index as nat, i as nat);
                lemma_set_bits_bound(alloc_index as nat, i as nat);
                assert(shifted & 1 == shifted % 2) by (bit_vector);
                assert(bit << 16 == bit * 65536) by (bit_vector)
                    requires
                        bit <= 1,
                ;
            }
            offset = offset + (bit << Self::STARTING_BLOCK_POW);
            i = i + 1;
        }
        offset
    }

    /// The size class of a request: the position of the highest set bit of
    /// the number of minimum blocks that it takes.
    pub fn get_block_level(alloc_size: usize) -> (level: usize)
        ensures
            level == level_for_size(alloc_size as nat),
    {
        let num_blocks: usize = alloc_size / Self::MIN_BLOCK_SIZE + if alloc_size
            % Self::MIN_BLOCK_SIZE != 0 {
            1
        } else {
            0
        };
        let mut rest: usize = num_blocks;
        let mut level: usize = 0;
        while rest > 1
            invariant
                level + floor_log2(rest as nat) == floor_log2(num_blocks as nat),
                level + rest <= num_blocks,
            decreases rest,
        {
            assert(rest >> 1 == rest / 2) by (bit_vector);
            rest = rest >> 1;
            level = level + 1;
        }
        level
    }
}

} // verus!
