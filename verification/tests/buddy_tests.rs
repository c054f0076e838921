use buddy_system::BuddyAllocator;
use buddy_system::Frame;
use buddy_system::LinkedList;
use buddy_system::Node;
use buddy_system::MAX_ORDER;

fn make_frames(count: usize) -> Vec<Node<Frame>> {
    let mut frames: Vec<Node<Frame>> = Vec::new();
    for _ in 0..count {
        frames.push(Node::new(Frame::new()));
    }
    frames
}

#[test]
fn new_buddy_manager() {
    let mut expected_counts = [0usize; MAX_ORDER];

    let count = 1024;
    let nodes = make_frames(count);

    let bman = BuddyAllocator::new(nodes, 0);
    expected_counts[10] += 1;
    for order in 0..MAX_ORDER {
        assert_eq!(bman.free_count(order), expected_counts[order]);
    }
}

#[test]
fn test_get_frame_index() {
    let count = 1024;
    let nodes = make_frames(count);
    let bman = BuddyAllocator::new(nodes, 0);

    assert_eq!(bman.get_frame_index(0), 0);
    assert_eq!(bman.get_frame_index(10), 10);
    assert_eq!(bman.get_frame_index(1023), 1023);
}

#[test]
fn test_get_buddy_frame() {
    let count = 1024;
    let nodes = make_frames(count);
    let _bman = BuddyAllocator::new(nodes, 0);
}

#[test]
fn test_allocate_frames_by_order() {
    let count = 1024;
    let nodes = make_frames(count);
    let mut bman = BuddyAllocator::new(nodes, 0);

    let node = bman.allocate(1).unwrap();
    assert_eq!(bman.frame(node).order(), 1);
    assert_eq!(bman.frame(node).is_used(), true);
}

#[test]
fn test_allocate_and_free() {
    const SIZE: usize = 32;
    let nodes = make_frames(SIZE);
    let mut allocator = BuddyAllocator::new(nodes, 0);

    assert_eq!(SIZE, allocator.count_free_objs());

    if let Some(obj) = allocator.allocate(2) {
        assert_eq!(2, allocator.frame(obj).order());

        assert_eq!(SIZE - 4, allocator.count_free_objs());

        allocator.free(obj);
        assert_eq!(SIZE, allocator.count_free_objs());
    } else {
        panic!("allocation of order 2 failed with 32 free units");
    }
}

#[test]
fn test_try_to_allocate_all() {
    const SIZE: usize = 32;
    let nodes = make_frames(SIZE);
    let mut allocator = BuddyAllocator::new(nodes, 0);

    let mut arena: Vec<Node<usize>> = Vec::new();
    let mut list = LinkedList::new();
    let mut stored = 0usize;

    // Allocate the all objects.
    loop {
        if let Some(obj) = allocator.allocate(0) {
            assert_eq!(0, allocator.frame(obj).order());
            arena.push(Node::new(obj));
            list.push_back(&mut arena, stored);
            stored += 1;
        } else {
            break;
        }
    }

    assert_eq!(true, allocator.allocate(0).is_none());
    assert_eq!(0, allocator.count_free_objs());
    assert_eq!(SIZE, list.len(&arena));

    // Deallocate the all objects.
    loop {
        if let Some(slot) = list.pop_front(&mut arena) {
            allocator.free(arena[slot].element);
        } else {
            break;
        }
    }

    assert_eq!(SIZE, allocator.count_free_objs());
    assert_eq!(0, list.len(&arena));
}

#[test]
fn test_is_managed_obj() {
    const SIZE: usize = 32;
    let base = 4096usize;
    let nodes = make_frames(SIZE);
    let allocator = BuddyAllocator::new(nodes, base);

    // The first node.
    assert_eq!(true, allocator.is_managed_obj(base));
    // The last node.
    assert_eq!(true, allocator.is_managed_obj(base + SIZE - 1));
    // Invalid nodes.
    assert_eq!(false, allocator.is_managed_obj(base - 1));
    assert_eq!(false, allocator.is_managed_obj(base + SIZE));
}

#[test]
fn test_buddy() {
    const SIZE: usize = 1 << MAX_ORDER;
    let nodes = make_frames(SIZE);
    let allocator = BuddyAllocator::new(nodes, 0);

    let compare_buddy =
        |expected: usize, node: usize, order: usize| -> bool {
            if let Some(buddy) = allocator.buddy(node, order) {
                expected == buddy
            } else {
                false
            }
        };

    let n0 = 0usize;
    for i in 0..MAX_ORDER {
        assert_eq!(true, compare_buddy(1 << i, n0, i));
    }
    assert_eq!(false, compare_buddy(0, n0, MAX_ORDER));

    let n1 = 1usize;
    assert_eq!(true, compare_buddy(0, n1, 0));
    for i in 1..MAX_ORDER {
        assert_eq!(true, compare_buddy((1 << i) + 1, n1, i));
    }
    assert_eq!(false, compare_buddy(0, n1, MAX_ORDER));
}

#[test]
fn test_construction_non_power_of_two() {
    // 1023 = 0b11_1111_1111: one free block per set bit.
    let nodes = make_frames(1023);
    let bman = BuddyAllocator::new(nodes, 0);
    for order in 0..MAX_ORDER {
        let expected = if order < 10 { 1 } else { 0 };
        assert_eq!(bman.free_count(order), expected);
    }
    assert_eq!(1023, bman.count_free_objs());
}

#[test]
fn test_construction_single_frame() {
    let nodes = make_frames(1);
    let bman = BuddyAllocator::new(nodes, 0);
    assert_eq!(1, bman.count());
    assert_eq!(1, bman.count_free_objs());
    assert_eq!(1, bman.free_count(0));
}

#[test]
fn test_allocate_order_out_of_bounds() {
    let nodes = make_frames(64);
    let mut allocator = BuddyAllocator::new(nodes, 0);
    assert!(allocator.allocate(MAX_ORDER).is_none());
    assert!(allocator.allocate(100).is_none());
    assert_eq!(64, allocator.count_free_objs());
}

#[test]
fn test_round_trip_restores_per_order_counts() {
    let nodes = make_frames(64);
    let mut allocator = BuddyAllocator::new(nodes, 0);

    let mut before = [0usize; MAX_ORDER];
    for order in 0..MAX_ORDER {
        before[order] = allocator.free_count(order);
    }

    let obj = allocator.allocate(1).unwrap();
    allocator.free(obj);

    for order in 0..MAX_ORDER {
        assert_eq!(allocator.free_count(order), before[order]);
    }
    assert_eq!(64, allocator.count_free_objs());

    assert_eq!(true, allocator.allocate_then_free(3));
    assert_eq!(64, allocator.count_free_objs());
}

#[test]
fn test_allocate_all_distinct_handles() {
    const SIZE: usize = 32;
    let nodes = make_frames(SIZE);
    let mut allocator = BuddyAllocator::new(nodes, 0);

    let mut handles: Vec<usize> = Vec::new();
    for _ in 0..SIZE {
        let obj = allocator.allocate(0).expect("allocation should succeed");
        handles.push(obj);
    }
    assert!(allocator.allocate(0).is_none());

    let mut sorted = handles.clone();
    sorted.sort();
    sorted.dedup();
    assert_eq!(SIZE, sorted.len());

    for obj in handles {
        allocator.free(obj);
    }
    assert_eq!(SIZE, allocator.count_free_objs());
}

#[test]
fn test_buddy_involution_concrete() {
    let nodes = make_frames(1024);
    let allocator = BuddyAllocator::new(nodes, 0);

    for (idx, order) in [(12usize, 2usize), (8, 2), (0, 3), (640, 7), (1, 0)] {
        let b = allocator.buddy(idx, order).unwrap();
        assert_eq!(Some(idx), allocator.buddy(b, order));
    }
}

#[test]
fn test_is_managed_base_zero() {
    let nodes = make_frames(32);
    let allocator = BuddyAllocator::new(nodes, 0);
    assert!(allocator.is_managed_obj(0));
    assert!(allocator.is_managed_obj(31));
    assert!(!allocator.is_managed_obj(32));
    assert!(!allocator.is_managed_obj(usize::MAX));
}

#[test]
fn test_top_order_blocks_never_merge() {
    // Two top-order buddies coexist and merging never makes an order
    // beyond the bound.
    const SIZE: usize = 1 << MAX_ORDER;
    let nodes = make_frames(SIZE);
    let mut allocator = BuddyAllocator::new(nodes, 0);
    assert_eq!(2, allocator.free_count(MAX_ORDER - 1));

    let a = allocator.allocate(MAX_ORDER - 1).unwrap();
    let b = allocator.allocate(MAX_ORDER - 1).unwrap();
    assert_eq!(0, allocator.count_free_objs());

    allocator.free(a);
    allocator.free(b);
    assert_eq!(2, allocator.free_count(MAX_ORDER - 1));
    assert_eq!(SIZE, allocator.count_free_objs());
}

#[test]
fn test_merge_chain_and_stop_at_used_buddy() {
    let nodes = make_frames(4);
    let mut allocator = BuddyAllocator::new(nodes, 0);
    assert_eq!(1, allocator.free_count(2));

    let h0 = allocator.allocate(0).unwrap();
    assert_eq!(1, allocator.free_count(0));
    assert_eq!(1, allocator.free_count(1));
    assert_eq!(0, allocator.free_count(2));

    let h1 = allocator.allocate(0).unwrap();
    assert_eq!(0, allocator.free_count(0));
    assert_eq!(1, allocator.free_count(1));

    // h1 (the buddy of h0) is still used, so freeing h0 must not merge.
    allocator.free(h0);
    assert_eq!(1, allocator.free_count(0));
    assert_eq!(1, allocator.free_count(1));
    assert_eq!(3, allocator.count_free_objs());

    // Freeing h1 merges all the way back to a single order-2 block.
    allocator.free(h1);
    assert_eq!(0, allocator.free_count(0));
    assert_eq!(0, allocator.free_count(1));
    assert_eq!(1, allocator.free_count(2));
    assert_eq!(4, allocator.count_free_objs());
}

#[test]
fn test_frame_capability_contract() {
    let mut f = Frame::new();
    assert!(!f.is_used());
    assert_eq!(0, f.order());
    f.mark_used();
    assert!(f.is_used());
    f.set_order(7);
    assert_eq!(7, f.order());
    assert!(f.is_used());
    f.mark_free();
    assert!(!f.is_used());
    assert_eq!(7, f.order());
    assert_eq!(128, f.size());
    f.set_order(0);
    assert_eq!(1, f.size());
}
