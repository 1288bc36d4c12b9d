//! What holds of the free-tree across reservations and releases.

use crate::tree::{
    lemma_first_free_below_leaf, lemma_index_fits, lemma_position_bound, lemma_reserved_height,
    lemma_reserved_leaf, position, slot_contains, slots_overlap, BinaryTree, Free,
};
use vstd::arithmetic::div_mod::{
    lemma_fundamental_div_mod, lemma_fundamental_div_mod_converse, lemma_small_mod,
};
use vstd::arithmetic::power2::{lemma2_to64, lemma_pow2_pos, lemma_pow2_unfold, pow2};
use vstd::prelude::*;

verus! {

/// The low `depth` bits of a number are its lowest bit and, above it, the low
/// `depth - 1` bits of its half.
proof fn lemma_low_bits_step(x: nat, depth: nat)
    requires
        depth > 0,
    ensures
        x % pow2(depth) == 2 * ((x / 2) % pow2((depth - 1) as nat)) + x % 2,
{
    let p = pow2((depth - 1) as nat) as int;
    lemma_pow2_pos((depth - 1) as nat);
    lemma_pow2_unfold(depth);
    let q = (x / 2) as int;
    let k = q / p;
    let m = q % p;
    lemma_fundamental_div_mod(q, p);
    assert(k * (2 * p) == 2 * (p * k)) by (nonlinear_arith);
    lemma_fundamental_div_mod_converse(x as int, 2 * p, k, 2 * m + x % 2);
}

/// An index of `depth` bits is its own low `depth` bits.
proof fn lemma_mod_small(index: nat, depth: nat)
    requires
        index < pow2(depth),
    ensures
        index % pow2(depth) == index,
{
    lemma_small_mod(index, pow2(depth));
}

/// Going one level down keeps containment: if the first slot lies on the
/// path to the second, both take the same first turn, and the rest of the
/// first path lies on the rest of the second.
proof fn lemma_contains_step(depth: nat, index: nat, inner_depth: nat, inner_index: nat)
    requires
        depth > 0,
        slot_contains(depth, index, inner_depth, inner_index),
    ensures
        index % 2 == inner_index % 2,
        slot_contains(
            (depth - 1) as nat,
            index / 2,
            (inner_depth - 1) as nat,
            inner_index / 2,
        ),
{
    lemma_low_bits_step(inner_index, depth);
    lemma_pow2_pos((depth - 1) as nat);
}

/// Two slots of one depth at the same position are the same slot.
pub proof fn lemma_position_injective(depth: nat, a: nat, b: nat)
    requires
        a < pow2(depth),
        b < pow2(depth),
        position(depth, a) == position(depth, b),
    ensures
        a == b,
    decreases depth,
{
    if depth == 0 {
        lemma2_to64();
    } else {
        let d = (depth - 1) as nat;
        lemma_pow2_unfold(depth);
        lemma_position_bound(d, a / 2);
        lemma_position_bound(d, b / 2);
        lemma_position_injective(d, a / 2, b / 2);
    }
}

/// A tree has at most one leftmost free slot of each depth: what
/// `get_first_free` returns is determined by the tree and the depth.
pub proof fn lemma_first_free_unique(tree: BinaryTree, depth: nat, a: nat, b: nat)
    requires
        tree.is_first_free(depth, a),
        tree.is_first_free(depth, b),
    ensures
        a == b,
{
    lemma_index_fits(tree, depth, a);
    lemma_index_fits(tree, depth, b);
    lemma_position_injective(depth, a, b);
}

/// In a block that is free as a whole, the leftmost free slot of every depth
/// is the one with index 0, at position 0.
pub proof fn lemma_first_free_of_free_leaf(depth: nat)
    ensures
        BinaryTree::Data(Free::Free).is_first_free(depth, 0),
        position(depth, 0) == 0,
    decreases depth,
{
    lemma2_to64();
    if depth > 0 {
        lemma_first_free_of_free_leaf((depth - 1) as nat);
        lemma_first_free_below_leaf(depth, 0);
    }
}

/// A reserved slot is a used leaf, and cannot be reserved again.
pub proof fn lemma_reserved_is_occupied(tree: BinaryTree, depth: nat, index: nat)
    requires
        tree.available(depth, index),
    ensures
        tree.reserved(depth, index).occupied(depth, index),
        tree.reserved(depth, index).in_use(index),
        !tree.reserved(depth, index).available(depth, index),
{
    let after = tree.reserved(depth, index);
    lemma_reserved_leaf(tree, depth, index);
    if after.available(depth, index) {
        lemma_index_fits(tree, depth, index);
        lemma_mod_small(index, depth);
        lemma_free_apart_from_used(after, depth, index, depth, index);
    }
}

/// A slot that lies on the path to a used leaf, or below one, cannot be
/// reserved.
proof fn lemma_free_apart_from_used(
    tree: BinaryTree,
    depth: nat,
    index: nat,
    used_depth: nat,
    used_index: nat,
)
    requires
        tree.available(depth, index),
        tree.occupied(used_depth, used_index),
    ensures
        !slots_overlap(depth, index, used_depth, used_index),
    decreases tree,
{
    match tree {
        BinaryTree::Data(_) => {},
        BinaryTree::Root(left, right) => {
            if slot_contains(depth, index, used_depth, used_index) {
                lemma_contains_step(depth, index, used_depth, used_index);
            }
            if slot_contains(used_depth, used_index, depth, index) {
                lemma_contains_step(used_depth, used_index, depth, index);
            }
            if index % 2 == used_index % 2 {
                let child = if index % 2 == 0 {
                    *left
                } else {
                    *right
                };
                lemma_free_apart_from_used(
                    child,
                    (depth - 1) as nat,
                    index / 2,
                    (used_depth - 1) as nat,
                    used_index / 2,
                );
            }
        },
    }
}

/// A slot that `get_first_free` can hand out is none of the slots in use and
/// shares no block with any of them, and reserving it leaves every slot in
/// use as it was: in use.
pub proof fn lemma_reservation_exclusive(
    tree: BinaryTree,
    depth: nat,
    index: nat,
    used_depth: nat,
    used_index: nat,
)
    requires
        tree.available(depth, index),
        tree.occupied(used_depth, used_index),
    ensures
        depth != used_depth || index != used_index,
        !slots_overlap(depth, index, used_depth, used_index),
        tree.reserved(depth, index).occupied(used_depth, used_index),
    decreases depth,
{
    lemma_free_apart_from_used(tree, depth, index, used_depth, used_index);
    lemma_index_fits(tree, depth, index);
    lemma_mod_small(index, depth);
    match tree {
        BinaryTree::Data(_) => {},
        BinaryTree::Root(left, right) => {
            if index % 2 == used_index % 2 {
                let child = if index % 2 == 0 {
                    *left
                } else {
                    *right
                };
                lemma_reservation_exclusive(
                    child,
                    (depth - 1) as nat,
                    index / 2,
                    (used_depth - 1) as nat,
                    used_index / 2,
                );
            }
        },
    }
}

/// If a used leaf lies on the path to another used leaf, the two are one.
proof fn lemma_used_on_path_is_same(
    tree: BinaryTree,
    depth_a: nat,
    index_a: nat,
    depth_b: nat,
    index_b: nat,
)
    requires
        tree.occupied(depth_a, index_a),
        tree.occupied(depth_b, index_b),
        slot_contains(depth_a, index_a, depth_b, index_b),
    ensures
        depth_a == depth_b,
        index_a == index_b,
    decreases tree,
{
    match tree {
        BinaryTree::Data(_) => {},
        BinaryTree::Root(left, right) => {
            lemma_contains_step(depth_a, index_a, depth_b, index_b);
            let child = if index_a % 2 == 0 {
                *left
            } else {
                *right
            };
            lemma_used_on_path_is_same(
                child,
                (depth_a - 1) as nat,
                index_a / 2,
                (depth_b - 1) as nat,
                index_b / 2,
            );
        },
    }
}

/// Slots in use never overlap: of two different used leaves, neither lies on
/// the path to the other.
pub proof fn lemma_used_slots_apart(
    tree: BinaryTree,
    depth_a: nat,
    index_a: nat,
    depth_b: nat,
    index_b: nat,
)
    requires
        tree.occupied(depth_a, index_a),
        tree.occupied(depth_b, index_b),
        depth_a != depth_b || index_a != index_b,
    ensures
        !slots_overlap(depth_a, index_a, depth_b, index_b),
{
    if slot_contains(depth_a, index_a, depth_b, index_b) {
        lemma_used_on_path_is_same(tree, depth_a, index_a, depth_b, index_b);
    }
    if slot_contains(depth_b, index_b, depth_a, index_a) {
        lemma_used_on_path_is_same(tree, depth_b, index_b, depth_a, index_a);
    }
}

/// When every slot of a depth is in use, none of that depth can be reserved.
pub proof fn lemma_all_used_is_full(tree: BinaryTree, depth: nat)
    requires
        forall|index: nat| index < pow2(depth) ==> #[trigger] tree.occupied(depth, index),
    ensures
        tree.full_at(depth),
{
    assert forall|index: nat| !#[trigger] tree.available(depth, index) by {
        if tree.available(depth, index) {
            lemma_index_fits(tree, depth, index);
            assert(tree.occupied(depth, index));
            lemma_free_apart_from_used(tree, depth, index, depth, index);
            lemma_mod_small(index, depth);
        }
    }
}

/// A reservation only takes: whatever can be reserved after it could be
/// reserved before it.
pub proof fn lemma_reserve_frees_nothing(
    tree: BinaryTree,
    depth: nat,
    index: nat,
    other_depth: nat,
    other_index: nat,
)
    requires
        tree.reserved(depth, index).available(other_depth, other_index),
    ensures
        tree.available(other_depth, other_index),
    decreases depth,
{
    if depth > 0 && tree != BinaryTree::Data(Free::Used) {
        let d = (depth - 1) as nat;
        let below = (other_depth - 1) as nat;
        let (left, right) = match tree {
            BinaryTree::Root(left, right) => (*left, *right),
            BinaryTree::Data(_) => (BinaryTree::Data(Free::Free), BinaryTree::Data(Free::Free)),
        };
        let whole = BinaryTree::Root(Box::new(left), Box::new(right));
        assert(tree.reserved(depth, index) == whole.reserved(depth, index));
        if index % 2 == other_index % 2 {
            let child = if index % 2 == 0 {
                left
            } else {
                right
            };
            lemma_reserve_frees_nothing(child, d, index / 2, below, other_index / 2);
        }
        assert(whole.available(other_depth, other_index));
        if tree is Data {
            lemma_index_fits(whole, other_depth, other_index);
        }
    }
}

/// A release only gives, and at the depth of the released slot it gives that
/// slot alone: afterwards a slot of that depth can be reserved exactly when
/// it is the released one or could be reserved before.
pub proof fn lemma_release_gives_that_slot(tree: BinaryTree, depth: nat, index: nat, other: nat)
    requires
        tree.occupied(depth, index),
    ensures
        tree.released(index).available(depth, other) <==> (other == index || tree.available(
            depth,
            other,
        )),
    decreases tree,
{
    match tree {
        BinaryTree::Data(_) => {
            lemma2_to64();
        },
        BinaryTree::Root(left, right) => {
            if index % 2 == other % 2 {
                let child = if index % 2 == 0 {
                    *left
                } else {
                    *right
                };
                lemma_release_gives_that_slot(child, (depth - 1) as nat, index / 2, other / 2);
            }
        },
    }
}

/// A freed slot is handed out again. When a slot in use has no free slot of
/// its depth to its left, then after its release it is the leftmost free
/// slot of its depth: the next `get_first_free` of that depth returns it.
pub proof fn lemma_released_slot_is_first_free(tree: BinaryTree, depth: nat, index: nat)
    requires
        tree.occupied(depth, index),
        forall|other: nat| #[trigger]
            tree.available(depth, other) ==> position(depth, index) <= position(depth, other),
    ensures
        tree.released(index).is_first_free(depth, index),
{
    let after = tree.released(index);
    lemma_release_gives_that_slot(tree, depth, index, index);
    assert forall|other: nat| #[trigger] after.available(depth, other) implies position(
        depth,
        index,
    ) <= position(depth, other) by {
        lemma_release_gives_that_slot(tree, depth, index, other);
    }
}

/// Releasing a slot right after reserving it gives back, at the slot's depth,
/// exactly the slots that could be reserved before.
pub proof fn lemma_release_undoes_reserve(tree: BinaryTree, depth: nat, index: nat, other: nat)
    requires
        tree.available(depth, index),
    ensures
        tree.reserved(depth, index).released(index).available(depth, other) == tree.available(
            depth,
            other,
        ),
    decreases depth,
{
    lemma_index_fits(tree, depth, index);
    if depth == 0 {
        lemma2_to64();
    } else {
        let d = (depth - 1) as nat;
        lemma_pow2_unfold(depth);
        match tree {
            BinaryTree::Data(_) => {
                let leaf = BinaryTree::Data(Free::Free);
                lemma_release_undoes_reserve(leaf, d, index / 2, other / 2);
            },
            BinaryTree::Root(left, right) => {
                if index % 2 == 0 {
                    lemma_release_undoes_reserve(*left, d, index / 2, other / 2);
                } else {
                    lemma_release_undoes_reserve(*right, d, index / 2, other / 2);
                }
            },
        }
    }
}

/// After the leftmost free slot of a depth is reserved and then released, it
/// is again the leftmost free slot of that depth: the next `get_first_free`
/// of that depth succeeds and returns the same slot. The tree stays within
/// its depth.
pub proof fn lemma_release_then_first_free(tree: BinaryTree, depth: nat, index: nat)
    requires
        tree.is_first_free(depth, index),
    ensures
        tree.reserved(depth, index).released(index).is_first_free(depth, index),
        !tree.reserved(depth, index).released(index).full_at(depth),
        tree.wf() && depth <= BinaryTree::MAX_DEPTH ==> tree.reserved(depth, index).released(
            index,
        ).wf(),
{
    let after = tree.reserved(depth, index).released(index);
    lemma_release_undoes_reserve(tree, depth, index, index);
    assert forall|other: nat| #[trigger] after.available(depth, other) implies position(
        depth,
        index,
    ) <= position(depth, other) by {
        lemma_release_undoes_reserve(tree, depth, index, other);
    }
    lemma_reserved_height(tree, depth, index);
    lemma_released_height(tree.reserved(depth, index), index);
}

/// Releasing a slot undoes no split.
pub proof fn lemma_released_height(tree: BinaryTree, index: nat)
    ensures
        tree.released(index).height() == tree.height(),
    decreases tree,
{
    match tree {
        BinaryTree::Data(_) => {},
        BinaryTree::Root(left, right) => {
            lemma_released_height(*left, index / 2);
            lemma_released_height(*right, index / 2);
        },
    }
}

/// Releasing a slot in use makes that slot free again and leaves every other
/// slot in use as it was.
pub proof fn lemma_release_frees_only_that_slot(
    tree: BinaryTree,
    depth: nat,
    index: nat,
    used_depth: nat,
    used_index: nat,
)
    requires
        tree.occupied(depth, index),
        tree.occupied(used_depth, used_index),
        used_depth != depth || used_index != index,
    ensures
        tree.released(index).available(depth, index),
        !tree.released(index).occupied(depth, index),
        tree.released(index).occupied(used_depth, used_index),
    decreases tree,
{
    match tree {
        BinaryTree::Data(_) => {},
        BinaryTree::Root(left, right) => {
            let child = if index % 2 == 0 {
                *left
            } else {
                *right
            };
            if index % 2 == used_index % 2 {
                lemma_release_frees_only_that_slot(
                    child,
                    (depth - 1) as nat,
                    index / 2,
                    (used_depth - 1) as nat,
                    used_index / 2,
                );
            } else {
                lemma_released_slot_is_free(child, (depth - 1) as nat, index / 2);
            }
        },
    }
}

/// Releasing a slot in use makes it a free leaf.
pub proof fn lemma_released_slot_is_free(tree: BinaryTree, depth: nat, index: nat)
    requires
        tree.occupied(depth, index),
    ensures
        tree.released(index).available(depth, index),
        !tree.released(index).occupied(depth, index),
    decreases tree,
{
    match tree {
        BinaryTree::Data(_) => {
            lemma2_to64();
        },
        BinaryTree::Root(left, right) => {
            if index % 2 == 0 {
                lemma_released_slot_is_free(*left, (depth - 1) as nat, index / 2);
            } else {
                lemma_released_slot_is_free(*right, (depth - 1) as nat, index / 2);
            }
        },
    }
}

/// What `get` reads at a slot: `Used` at a slot in use, `Free` at a slot that
/// can be reserved.
pub proof fn lemma_state_at_slot(tree: BinaryTree, depth: nat, index: nat)
    ensures
        tree.occupied(depth, index) ==> tree.state_at(index) == Free::Used,
        tree.available(depth, index) ==> tree.state_at(index) == Free::Free,
    decreases tree,
{
    match tree {
        BinaryTree::Data(_) => {},
        BinaryTree::Root(left, right) => {
            if depth > 0 {
                lemma_state_at_slot(*left, (depth - 1) as nat, index / 2);
                lemma_state_at_slot(*right, (depth - 1) as nat, index / 2);
            }
        },
    }
}

} // verus!
