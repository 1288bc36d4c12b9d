//! The free-tree: a binary tree whose leaves say whether a block is free or
//! used, and whose branches are blocks that were split in two.
//!
//! A *slot* is a place in the tree, named by a depth and a path index. Bit `k`
//! of the index (counted from the least significant bit) is the turn taken at
//! level `k`: 0 for the left child, 1 for the right one. Only the low `depth`
//! bits are used, so a slot at depth `d` has an index below `2^d`.

use vstd::arithmetic::power2::{lemma2_to64, lemma_pow2_pos, lemma_pow2_unfold, pow2};
use vstd::prelude::*;

verus! {

/// The state of a leaf.
#[derive(Copy, Clone, PartialEq, Eq, Structural, Debug)]
pub enum Free {
    Used,
    Free,
}

/// A node of the free-tree: a leaf with its state, or a split block with its
/// left and right halves.
#[derive(Debug)]
pub enum BinaryTree {
    Data(Free),
    Root(Box<BinaryTree>, Box<BinaryTree>),
}

/// Where the slot lies among the `2^depth` slots of its depth, counted from
/// the left: the path bits read with the first turn as the most significant.
pub open spec fn position(depth: nat, index: nat) -> nat
    decreases depth,
{
    if depth == 0 {
        0
    } else {
        position((depth - 1) as nat, index / 2) + if index % 2 == 0 {
            0
        } else {
            pow2((depth - 1) as nat)
        }
    }
}

/// The first slot lies on the path to the second: it is the second slot or
/// one of the blocks that were split to reach it.
pub open spec fn slot_contains(depth: nat, index: nat, inner_depth: nat, inner_index: nat) -> bool {
    depth <= inner_depth && inner_index % pow2(depth) == index
}

/// The two slots share a block: one of them lies on the path to the other.
pub open spec fn slots_overlap(depth_a: nat, index_a: nat, depth_b: nat, index_b: nat) -> bool {
    slot_contains(depth_a, index_a, depth_b, index_b) || slot_contains(
        depth_b,
        index_b,
        depth_a,
        index_a,
    )
}

impl BinaryTree {
    /// The deepest level that a slot may have.
    pub const MAX_DEPTH: usize = 8;

    /// The number of levels below this node.
    pub open spec fn height(self) -> nat
        decreases self,
    {
        match self {
            BinaryTree::Data(_) => 0,
            BinaryTree::Root(left, right) => 1 + if left.height() >= right.height() {
                left.height()
            } else {
                right.height()
            },
        }
    }

    /// No block is split below the deepest level.
    pub open spec fn wf(self) -> bool {
        self.height() <= Self::MAX_DEPTH
    }

    /// The slot can be reserved: its path runs through split blocks only, and
    /// ends in or below a free leaf.
    pub open spec fn available(self, depth: nat, index: nat) -> bool
        decreases depth,
    {
        match self {
            BinaryTree::Data(state) => state == Free::Free && index < pow2(depth),
            BinaryTree::Root(left, right) => depth > 0 && if index % 2 == 0 {
                left.available((depth - 1) as nat, index / 2)
            } else {
                right.available((depth - 1) as nat, index / 2)
            },
        }
    }

    /// The slot is a leaf of this tree, and it is used.
    pub open spec fn occupied(self, depth: nat, index: nat) -> bool
        decreases depth,
    {
        match self {
            BinaryTree::Data(state) => state == Free::Used && depth == 0 && index == 0,
            BinaryTree::Root(left, right) => depth > 0 && if index % 2 == 0 {
                left.occupied((depth - 1) as nat, index / 2)
            } else {
                right.occupied((depth - 1) as nat, index / 2)
            },
        }
    }

    /// The path of `index` ends in a used leaf: `index` is the handle of a
    /// slot in use.
    pub open spec fn in_use(self, index: nat) -> bool {
        exists|depth: nat| self.occupied(depth, index)
    }

    /// No slot of this depth can be reserved.
    pub open spec fn full_at(self, depth: nat) -> bool {
        forall|index: nat| !#[trigger] self.available(depth, index)
    }

    /// The slot is the leftmost one of its depth that can be reserved.
    pub open spec fn is_first_free(self, depth: nat, index: nat) -> bool {
        &&& self.available(depth, index)
        &&& forall|other: nat| #[trigger]
            self.available(depth, other) ==> position(depth, index) <= position(depth, other)
    }

    /// The tree with the slot reserved: every free leaf on the way is split
    /// into two free halves, and the free leaf at the end becomes used. A
    /// used leaf on the way, or a split block at the end, stops the
    /// reservation and stays as it is.
    pub open spec fn reserved(self, depth: nat, index: nat) -> BinaryTree
        decreases depth,
    {
        let (left, right) = match self {
            BinaryTree::Root(left, right) => (*left, *right),
            BinaryTree::Data(_) => (BinaryTree::Data(Free::Free), BinaryTree::Data(Free::Free)),
        };
        if self == BinaryTree::Data(Free::Used) || (depth == 0 && self is Root) {
            self
        } else if depth == 0 {
            BinaryTree::Data(Free::Used)
        } else if index % 2 == 0 {
            BinaryTree::Root(
                Box::new(left.reserved((depth - 1) as nat, index / 2)),
                Box::new(right),
            )
        } else {
            BinaryTree::Root(
                Box::new(left),
                Box::new(right.reserved((depth - 1) as nat, index / 2)),
            )
        }
    }

    /// The state of the leaf that the path of `index` ends in.
    pub open spec fn state_at(self, index: nat) -> Free
        decreases self,
    {
        match self {
            BinaryTree::Data(state) => state,
            BinaryTree::Root(left, right) => if index % 2 == 0 {
                left.state_at(index / 2)
            } else {
                right.state_at(index / 2)
            },
        }
    }

    /// The tree with the leaf that the path of `index` ends in marked free.
    /// No split is undone.
    pub open spec fn released(self, index: nat) -> BinaryTree
        decreases self,
    {
        match self {
            BinaryTree::Data(_) => BinaryTree::Data(Free::Free),
            BinaryTree::Root(left, right) => if index % 2 == 0 {
                BinaryTree::Root(Box::new(left.released(index / 2)), right)
            } else {
                BinaryTree::Root(left, Box::new(right.released(index / 2)))
            },
        }
    }

    /// Finds the leftmost slot `traverse_levels` below this node that can be
    /// reserved, reserves it and returns its path index. Returns `None`, and
    /// leaves the tree as it was, when there is no such slot.
    pub fn get_first_free(&mut self, traverse_levels: usize) -> (slot: Option<usize>)
        requires
            traverse_levels <= Self::MAX_DEPTH,
        ensures
            match slot {
                Some(index) => {
                    &&& old(self).is_first_free(traverse_levels as nat, index as nat)
                    &&& *final(self) == old(self).reserved(traverse_levels as nat, index as nat)
                    &&& final(self).occupied(traverse_levels as nat, index as nat)
                },
                None => old(self).full_at(traverse_levels as nat) && *final(self) == *old(self),
            },
            old(self).wf() ==> final(self).wf(),
        decreases traverse_levels,
    {
        let ghost depth = traverse_levels as nat;
        let ghost before = *self;
        proof {
            lemma2_to64();
            assert forall|index: nat| #[trigger] before.available(depth, index) implies before.reserved(
                depth,
                index,
            ).occupied(depth, index) by {
                lemma_reserved_leaf(before, depth, index);
            }
        }
        match self {
            Self::Data(free) => {
                if traverse_levels == 0 {
                    if *free == Free::Free {
                        *free = Free::Used;
                        Some(0)
                    } else {
                        None
                    }
                } else {
                    match free {
                        Free::Free => {
                            let mut left = BinaryTree::Data(Free::Free);
                            let first = left.get_first_free(traverse_levels - 1);
                            proof {
                                lemma_pow2_pos((depth - 1) as nat);
                                assert(BinaryTree::Data(Free::Free).available(
                                    (depth - 1) as nat,
                                    0,
                                ));
                            }
                            let below: usize = first.unwrap();
                            proof {
                                lemma_index_fits(
                                    BinaryTree::Data(Free::Free),
                                    (depth - 1) as nat,
                                    below as nat,
                                );
                                lemma_first_free_below_leaf(depth, below as nat);
                                lemma_split_keeps_slots(depth, 2 * below as nat);
                                lemma_reserved_height(before, depth, 2 * below as nat);
                                assert(below << 1 == 2 * below) by (bit_vector)
                                    requires
                                        below < 256,
                                ;
                            }
                            *self = BinaryTree::Root(
                                Box::new(left),
                                Box::new(BinaryTree::Data(Free::Free)),
                            );
                            Some(below << 1)
                        },
                        Free::Used => None,
                    }
                }
            },
            Self::Root(left, right) => {
                if traverse_levels > 0 {
                    if let Some(first_try) = left.get_first_free(traverse_levels - 1) {
                        proof {
                            let (l, r) = (*before->Root_0, *before->Root_1);
                            lemma_index_fits(l, (depth - 1) as nat, first_try as nat);
                            lemma_first_free_on_left(l, r, depth, first_try as nat);
                            lemma_reserved_height(before, depth, 2 * first_try as nat);
                            assert(first_try << 1 == 2 * first_try) by (bit_vector)
                                requires
                                    first_try < 256,
                            ;
                        }
                        Some(first_try << 1)
                    } else if let Some(second_try) = right.get_first_free(traverse_levels - 1) {
                        proof {
                            let (l, r) = (*before->Root_0, *before->Root_1);
                            lemma_index_fits(r, (depth - 1) as nat, second_try as nat);
                            lemma_first_free_on_right(l, r, depth, second_try as nat);
                            lemma_reserved_height(before, depth, 2 * second_try as nat + 1);
                            assert(second_try << 1 == 2 * second_try) by (bit_vector)
                                requires
                                    second_try < 256,
                            ;
                        }
                        Some((second_try << 1) + 1)
                    } else {
                        proof {
                            lemma_full_halves(*before->Root_0, *before->Root_1, depth);
                        }
                        None
                    }
                } else {
                    None
                }
            },
        }
    }

    /// Releases the slot in use whose handle is `index`: the used leaf that
    /// its path ends in becomes free. No split is undone.
    pub fn free(&mut self, index: usize)
        requires
            old(self).in_use(index as nat),
        ensures
            *final(self) == old(self).released(index as nat),
            !final(self).in_use(index as nat),
            final(self).height() == old(self).height(),
        decreases *old(self),
    {
        proof {
            let depth = choose|depth: nat| self.occupied(depth, index as nat);
            lemma_released_leaf(*self, depth, index as nat);
        }
        match self {
            Self::Data(free) => *free = Free::Free,
            Self::Root(left, right) => {
                assert(index & 1 == index % 2) by (bit_vector);
                assert(index >> 1 == index / 2) by (bit_vector);
                proof {
                    let depth = choose|depth: nat| old(self).occupied(depth, index as nat);
                    if index % 2 == 0 {
                        assert(left.occupied((depth - 1) as nat, index as nat / 2));
                    } else {
                        assert(right.occupied((depth - 1) as nat, index as nat / 2));
                    }
                }
                if index & 1 == 0 {
                    left.free(index >> 1)
                } else {
                    right.free(index >> 1)
                }
            },
        }
    }

    /// Reads the state of the leaf that the path of `index` ends in.
    pub fn get(&self, index: usize) -> (state: Free)
        ensures
            state == self.state_at(index as nat),
        decreases self,
    {
        match self {
            Self::Data(free) => *free,
            Self::Root(left, right) => {
                assert(index & 1 == index % 2) by (bit_vector);
                assert(index >> 1 == index / 2) by (bit_vector);
                if index & 1 == 0 {
                    left.get(index >> 1)
                } else {
                    right.get(index >> 1)
                }
            },
        }
    }
}

/// A slot's position is below the number of slots of its depth.
pub proof fn lemma_position_bound(depth: nat, index: nat)
    ensures
        position(depth, index) < pow2(depth),
    decreases depth,
{
    if depth == 0 {
        lemma2_to64();
    } else {
        lemma_position_bound((depth - 1) as nat, index / 2);
        lemma_pow2_unfold(depth);
    }
}

/// A slot that can be reserved has an index made of `depth` bits.
pub proof fn lemma_index_fits(tree: BinaryTree, depth: nat, index: nat)
    requires
        tree.available(depth, index),
    ensures
        index < pow2(depth),
    decreases depth,
{
    match tree {
        BinaryTree::Data(_) => {},
        BinaryTree::Root(left, right) => {
            lemma_pow2_unfold(depth);
            if index % 2 == 0 {
                lemma_index_fits(*left, (depth - 1) as nat, index / 2);
            } else {
                lemma_index_fits(*right, (depth - 1) as nat, index / 2);
            }
        },
    }
}

/// Splitting a free leaf changes nothing about the slots below it.
proof fn lemma_split_keeps_slots(depth: nat, index: nat)
    requires
        depth > 0,
    ensures
        BinaryTree::Data(Free::Free).available(depth, index) == BinaryTree::Root(
            Box::new(BinaryTree::Data(Free::Free)),
            Box::new(BinaryTree::Data(Free::Free)),
        ).available(depth, index),
        BinaryTree::Data(Free::Free).reserved(depth, index) == BinaryTree::Root(
            Box::new(BinaryTree::Data(Free::Free)),
            Box::new(BinaryTree::Data(Free::Free)),
        ).reserved(depth, index),
{
    reveal_with_fuel(BinaryTree::available, 2);
    lemma_pow2_unfold(depth);
}

/// The leftmost free slot of the left half is the leftmost free slot of the
/// whole block.
proof fn lemma_first_free_on_left(left: BinaryTree, right: BinaryTree, depth: nat, below: nat)
    requires
        depth > 0,
        left.is_first_free((depth - 1) as nat, below),
    ensures
        BinaryTree::Root(Box::new(left), Box::new(right)).is_first_free(depth, 2 * below),
{
    let whole = BinaryTree::Root(Box::new(left), Box::new(right));
    let d = (depth - 1) as nat;
    assert((2 * below) / 2 == below && (2 * below) % 2 == 0);
    assert forall|other: nat| #[trigger] whole.available(depth, other) implies position(
        depth,
        2 * below,
    ) <= position(depth, other) by {
        if other % 2 == 0 {
            assert(left.available(d, other / 2));
        } else {
            lemma_position_bound(d, below);
        }
    }
}

/// The leftmost free slot below a free leaf stays the leftmost one level
/// further down, on the left.
pub(crate) proof fn lemma_first_free_below_leaf(depth: nat, below: nat)
    requires
        depth > 0,
        BinaryTree::Data(Free::Free).is_first_free((depth - 1) as nat, below),
    ensures
        BinaryTree::Data(Free::Free).is_first_free(depth, 2 * below),
{
    let leaf = BinaryTree::Data(Free::Free);
    let halves = BinaryTree::Root(Box::new(leaf), Box::new(leaf));
    lemma_first_free_on_left(leaf, leaf, depth, below);
    lemma_split_keeps_slots(depth, 2 * below);
    assert forall|other: nat| #[trigger] leaf.available(depth, other) implies position(
        depth,
        2 * below,
    ) <= position(depth, other) by {
        lemma_split_keeps_slots(depth, other);
        assert(halves.available(depth, other));
    }
}

/// With the left half full, the leftmost free slot of the right half is the
/// leftmost free slot of the whole block.
proof fn lemma_first_free_on_right(left: BinaryTree, right: BinaryTree, depth: nat, below: nat)
    requires
        depth > 0,
        left.full_at((depth - 1) as nat),
        right.is_first_free((depth - 1) as nat, below),
    ensures
        BinaryTree::Root(Box::new(left), Box::new(right)).is_first_free(depth, 2 * below + 1),
{
    let whole = BinaryTree::Root(Box::new(left), Box::new(right));
    let d = (depth - 1) as nat;
    assert((2 * below + 1) / 2 == below && (2 * below + 1) % 2 == 1);
    assert forall|other: nat| #[trigger] whole.available(depth, other) implies position(
        depth,
        2 * below + 1,
    ) <= position(depth, other) by {
        if other % 2 == 0 {
            assert(left.available(d, other / 2));
        } else {
            assert(right.available(d, other / 2));
        }
    }
}

/// A block whose halves are both full one level down is full.
proof fn lemma_full_halves(left: BinaryTree, right: BinaryTree, depth: nat)
    requires
        depth > 0,
        left.full_at((depth - 1) as nat),
        right.full_at((depth - 1) as nat),
    ensures
        BinaryTree::Root(Box::new(left), Box::new(right)).full_at(depth),
{
    let whole = BinaryTree::Root(Box::new(left), Box::new(right));
    assert forall|index: nat| !#[trigger] whole.available(depth, index) by {
        assert(!left.available((depth - 1) as nat, index / 2));
        assert(!right.available((depth - 1) as nat, index / 2));
    }
}

/// Once a slot in use is released, its handle leads to no used leaf.
proof fn lemma_released_leaf(tree: BinaryTree, depth: nat, index: nat)
    requires
        tree.occupied(depth, index),
    ensures
        !tree.released(index).in_use(index),
    decreases tree,
{
    match tree {
        BinaryTree::Data(_) => {},
        BinaryTree::Root(left, right) => {
            let child = if index % 2 == 0 {
                *left
            } else {
                *right
            };
            lemma_released_leaf(child, (depth - 1) as nat, index / 2);
            assert forall|other: nat| !#[trigger] tree.released(index).occupied(other, index) by {
                if tree.released(index).occupied(other, index) {
                    assert(child.released(index / 2).occupied((other - 1) as nat, index / 2));
                }
            }
        },
    }
}

/// Reserving a slot that can be reserved makes it a used leaf.
pub proof fn lemma_reserved_leaf(tree: BinaryTree, depth: nat, index: nat)
    requires
        tree.available(depth, index),
    ensures
        tree.reserved(depth, index).occupied(depth, index),
    decreases depth,
{
    lemma_index_fits(tree, depth, index);
    if depth == 0 {
        lemma2_to64();
    } else {
        let d = (depth - 1) as nat;
        lemma_pow2_unfold(depth);
        match tree {
            BinaryTree::Data(_) => {
                lemma_reserved_leaf(BinaryTree::Data(Free::Free), d, index / 2);
            },
            BinaryTree::Root(left, right) => {
                if index % 2 == 0 {
                    lemma_reserved_leaf(*left, d, index / 2);
                } else {
                    lemma_reserved_leaf(*right, d, index / 2);
                }
            },
        }
    }
}

/// Reserving a slot splits no block below the slot's depth.
pub proof fn lemma_reserved_height(tree: BinaryTree, depth: nat, index: nat)
    ensures
        tree.reserved(depth, index).height() <= if tree.height() >= depth {
            tree.height()
        } else {
            depth
        },
    decreases depth,
{
    if depth > 0 {
        let (left, right) = match tree {
            BinaryTree::Root(left, right) => (*left, *right),
            BinaryTree::Data(_) => (BinaryTree::Data(Free::Free), BinaryTree::Data(Free::Free)),
        };
        if index % 2 == 0 {
            lemma_reserved_height(left, (depth - 1) as nat, index / 2);
        } else {
            lemma_reserved_height(right, (depth - 1) as nat, index / 2);
        }
    }
}

} // verus!
