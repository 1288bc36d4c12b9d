//! A fixed-capacity memory allocator on the buddy system: a free-tree of
//! blocks that are split in halves on demand, over one buffer of bytes.

pub mod allocator;
pub mod allocator_laws;
pub mod layout;
pub mod tree;
pub mod tree_laws;

pub use allocator::{Allocation, BuddyAllocator};
pub use tree::{BinaryTree, Free};
