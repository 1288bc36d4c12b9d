use buddy_allocator::allocator::{Allocation, BuddyAllocator};

const MIN: usize = BuddyAllocator::MIN_BLOCK_SIZE;

#[test]
fn build() {
    let _tree = BuddyAllocator::new();
}

#[test]
fn allocate() {
    let mut tree = BuddyAllocator::new();
    let _alloc = tree.allocate(10).unwrap();
}

#[test]
fn dealloc() {
    let mut tree = BuddyAllocator::new();
    let alloc = tree.allocate(10).unwrap();
    tree.free(alloc);
}

#[test]
fn alloc_batches() {
    let alloc_list = [100, 2341, 213, 1234, 1234, 12];
    let mut tree = BuddyAllocator::new();
    let mut allocs = alloc_list
        .iter()
        .map(|i| tree.allocate(*i).unwrap())
        .collect::<Vec<_>>();
    allocs
        .drain(..)
        .map(|alloc| tree.free(alloc))
        .collect::<Vec<_>>();
}

#[test]
fn constants_fit_together() {
    assert_eq!(BuddyAllocator::MIN_BLOCK_SIZE, 1 << BuddyAllocator::STARTING_BLOCK_POW);
    assert_eq!(BuddyAllocator::BLOCK_LEVELS, 8);
    assert_eq!(
        BuddyAllocator::CAPACITY,
        BuddyAllocator::BLOCK_LEVELS * BuddyAllocator::MIN_BLOCK_SIZE
    );
}

#[test]
fn allocation_records_what_was_asked() {
    let mut buddy = BuddyAllocator::new();
    let a = buddy.allocate(10).unwrap();
    assert_eq!(a.index(), 0);
    assert_eq!(a.offset(), 0);
    assert_eq!(a.len(), 10);
}

#[test]
fn first_allocations_go_leftmost() {
    let mut buddy = BuddyAllocator::new();
    let first = buddy.allocate(MIN).unwrap();
    let second = buddy.allocate(MIN).unwrap();
    assert_eq!(first.offset(), 0);
    assert_eq!(second.offset(), MIN);
    assert_eq!(first.index(), 0);
    assert_eq!(second.index(), 128);
}

#[test]
fn offsets_count_the_set_path_bits() {
    let mut buddy = BuddyAllocator::new();
    let got: Vec<Allocation> = (0..5).map(|_| buddy.allocate(MIN).unwrap()).collect();
    let indices: Vec<usize> = got.iter().map(|a| a.index()).collect();
    let offsets: Vec<usize> = got.iter().map(|a| a.offset()).collect();
    assert_eq!(indices, vec![0, 128, 64, 192, 32]);
    assert_eq!(offsets, vec![0, MIN, MIN, 2 * MIN, MIN]);
}

#[test]
fn larger_requests_are_served_higher_in_the_tree() {
    let mut buddy = BuddyAllocator::new();
    // Two minimum blocks: size class 1, depth 7.
    let big = buddy.allocate(2 * MIN).unwrap();
    assert_eq!(big.index(), 0);
    assert_eq!(big.offset(), 0);
    assert_eq!(big.len(), 2 * MIN);
    // The block next to it is split for a request of the smallest class.
    let small = buddy.allocate(MIN).unwrap();
    assert_eq!(small.index(), 64);
    assert_eq!(small.offset(), MIN);
    // The whole capacity: size class 3, depth 5.
    let whole = buddy.allocate(BuddyAllocator::CAPACITY).unwrap();
    assert_eq!(whole.index(), 16);
    assert_eq!(whole.offset(), MIN);
    assert_eq!(whole.len(), BuddyAllocator::CAPACITY);
}

#[test]
fn smallest_class_runs_out_after_every_leaf() {
    let mut buddy = BuddyAllocator::new();
    let mut seen = vec![false; 256];
    for _ in 0..256 {
        let a = buddy.allocate(MIN).unwrap();
        assert!(a.index() < 256);
        assert!(!seen[a.index()]);
        seen[a.index()] = true;
    }
    assert!(buddy.allocate(MIN).is_none());
    assert!(buddy.allocate(1).is_none());
    // A full tree has no room at any other depth either.
    assert!(buddy.allocate(2 * MIN).is_none());
    assert!(buddy.allocate(BuddyAllocator::CAPACITY).is_none());
}

#[test]
fn largest_class_has_thirty_two_slots() {
    let mut buddy = BuddyAllocator::new();
    for _ in 0..32 {
        assert!(buddy.allocate(BuddyAllocator::CAPACITY).is_some());
    }
    assert!(buddy.allocate(BuddyAllocator::CAPACITY).is_none());
    assert!(buddy.allocate(MIN).is_none());
}

#[test]
fn freed_slot_is_handed_out_again() {
    let mut buddy = BuddyAllocator::new();
    let _keep = buddy.allocate(MIN).unwrap();
    let a = buddy.allocate(MIN).unwrap();
    let (index, offset) = (a.index(), a.offset());
    buddy.free(a);
    let again = buddy.allocate(MIN - 1).unwrap();
    assert_eq!(again.index(), index);
    assert_eq!(again.offset(), offset);
    assert_eq!(again.len(), MIN - 1);
}

#[test]
fn round_trip_for_every_size_class() {
    for size in [1, 10, MIN, MIN + 1, 2 * MIN, 3 * MIN + 1, 4 * MIN, 7 * MIN, 8 * MIN] {
        let mut buddy = BuddyAllocator::new();
        let first = buddy.allocate(size).unwrap();
        let index = first.index();
        buddy.free(first);
        let second = buddy.allocate(size).unwrap();
        assert_eq!(second.index(), index);
        assert_eq!(second.len(), size);
    }
}

#[test]
fn splits_stay_after_free() {
    let mut buddy = BuddyAllocator::new();
    let small = buddy.allocate(MIN).unwrap();
    buddy.free(small);
    // The root was split for the small request and is not merged back, so
    // the next request of the largest class lands in the first block of
    // depth 5 that is still whole: the right one below the left-most path.
    let whole = buddy.allocate(BuddyAllocator::CAPACITY).unwrap();
    assert_eq!(whole.index(), 16);
    // The freed leaf is still there for its own class.
    let small = buddy.allocate(MIN).unwrap();
    assert_eq!(small.index(), 0);
}

#[test]
fn freeing_one_allocation_keeps_the_others() {
    let mut buddy = BuddyAllocator::new();
    let a = buddy.allocate(MIN).unwrap();
    let b = buddy.allocate(MIN).unwrap();
    let c = buddy.allocate(MIN).unwrap();
    assert_eq!((a.index(), b.index(), c.index()), (0, 128, 64));
    buddy.free(b);
    let d = buddy.allocate(MIN).unwrap();
    assert_eq!(d.index(), 128);
    let e = buddy.allocate(MIN).unwrap();
    assert_eq!(e.index(), 192);
}

#[test]
fn cloned_handle_releases_the_same_slot() {
    let mut buddy = BuddyAllocator::new();
    let a = buddy.allocate(MIN).unwrap();
    let copy = a.clone();
    assert_eq!(copy.index(), a.index());
    assert_eq!(copy.offset(), a.offset());
    assert_eq!(copy.len(), a.len());
    buddy.free(copy);
    assert_eq!(buddy.allocate(MIN).unwrap().index(), 0);
}

#[test]
fn new_buffer_is_zero_filled() {
    let mut buddy = BuddyAllocator::new();
    let a = buddy.allocate(MIN).unwrap();
    let bytes = buddy.bytes(&a).unwrap();
    assert_eq!(bytes.len(), MIN);
    assert!(bytes.iter().all(|b| *b == 0));
    let whole = buddy.allocate(BuddyAllocator::CAPACITY).unwrap();
    assert_eq!(whole.offset(), MIN);
    // It starts one block in, so it reaches past the end of the buffer.
    assert!(buddy.bytes(&whole).is_none());
}

#[test]
fn written_bytes_are_read_back() {
    let mut buddy = BuddyAllocator::new();
    let a = buddy.allocate(4).unwrap();
    let b = buddy.allocate(4).unwrap();
    assert!(buddy.write(&a, 0, 7));
    assert!(buddy.write(&a, 3, 9));
    assert!(buddy.write(&b, 1, 5));
    assert_eq!(buddy.bytes(&a).unwrap(), &[7, 0, 0, 9]);
    assert_eq!(buddy.bytes(&b).unwrap(), &[0, 5, 0, 0]);
}

#[test]
fn write_outside_the_allocation_is_refused() {
    let mut buddy = BuddyAllocator::new();
    let a = buddy.allocate(4).unwrap();
    assert!(!buddy.write(&a, 4, 1));
    assert!(!buddy.write(&a, usize::MAX, 1));
    assert_eq!(buddy.bytes(&a).unwrap(), &[0, 0, 0, 0]);
}

#[test]
fn last_leaf_lies_at_the_end_of_the_buffer() {
    let mut buddy = BuddyAllocator::new();
    let mut last = None;
    for _ in 0..256 {
        let a = buddy.allocate(8).unwrap();
        if a.index() == 255 {
            last = Some(a);
        }
    }
    let last = last.unwrap();
    assert_eq!(last.offset(), BuddyAllocator::CAPACITY);
    assert!(buddy.bytes(&last).is_none());
    assert!(!buddy.write(&last, 0, 1));
}

#[test]
fn ranges_of_equal_offset_share_their_bytes() {
    let mut buddy = BuddyAllocator::new();
    let _first = buddy.allocate(4).unwrap();
    let second = buddy.allocate(4).unwrap();
    let third = buddy.allocate(4).unwrap();
    assert_eq!(second.offset(), third.offset());
    assert!(buddy.write(&second, 2, 42));
    assert_eq!(buddy.bytes(&third).unwrap(), &[0, 0, 42, 0]);
}

#[test]
fn first_two_ranges_have_no_byte_in_common() {
    let mut buddy = BuddyAllocator::new();
    let a = buddy.allocate(MIN).unwrap();
    let b = buddy.allocate(MIN).unwrap();
    assert!(a.offset() + a.len() <= b.offset());
    assert!(buddy.write(&a, MIN - 1, 3));
    assert!(buddy.bytes(&b).unwrap().iter().all(|byte| *byte == 0));
}

#[test]
fn leftmost_freed_slot_goes_first() {
    let mut buddy = BuddyAllocator::new();
    let a = buddy.allocate(MIN).unwrap();
    let b = buddy.allocate(MIN).unwrap();
    let (first, second) = (a.index(), b.index());
    buddy.free(a);
    buddy.free(b);
    assert_eq!(buddy.allocate(MIN).unwrap().index(), first);
    assert_eq!(buddy.allocate(MIN).unwrap().index(), second);
}
