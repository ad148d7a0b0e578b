use allocators::freelist::FreeListAllocator;
use allocators::handle::FreeListPtr;
use allocators::model::{HEADER_ALIGN, HEADER_SIZE, INVALID};
use allocators::node::Node;

fn arena(size: usize, base: usize) -> FreeListAllocator {
    FreeListAllocator::new(vec![0u8; size], base)
}

fn free_total(allocator: &FreeListAllocator) -> u64 {
    allocator.free_sizes().iter().map(|s| u64::from(*s)).sum()
}

fn assert_no_touching(allocator: &FreeListAllocator) {
    let blocks = allocator.free_blocks();
    for pair in blocks.windows(2) {
        assert!(pair[0].0 < pair[1].0);
        assert_ne!(pair[0].0 + pair[0].1, pair[1].0);
    }
}

#[test]
fn constants_describe_the_header() {
    assert_eq!(INVALID, u32::MAX);
    assert_eq!(HEADER_SIZE, 8);
    assert_eq!(HEADER_ALIGN, 4);
}

#[test]
fn new_arena_is_one_free_block() {
    let allocator = arena(64, 0);
    assert_eq!(allocator.free_blocks(), vec![(0, 64)]);
    assert_eq!(allocator.free_sizes(), vec![64]);
}

#[test]
fn smallest_arena_is_one_header() {
    let mut allocator = arena(8, 0);
    assert_eq!(allocator.free_blocks(), vec![(0, 8)]);
    let handle = allocator.allocate(8, 1).unwrap();
    assert_eq!(handle.size(), 8);
    assert!(allocator.free_blocks().is_empty());
    allocator.dealloc(handle);
    assert_eq!(allocator.free_blocks(), vec![(0, 8)]);
}

#[test]
fn full_capacity_edge_case() {
    let mut allocator = arena(64, 0);
    let first = allocator.allocate(64, 1).unwrap();
    assert_eq!(first.as_ptr(), 0);
    assert_eq!(first.size(), 64);
    assert_eq!(first.padding(), 0);
    assert!(allocator.free_blocks().is_empty());
    assert!(allocator.allocate(8, 1).is_none());
    allocator.dealloc(first);
    assert_eq!(allocator.free_blocks(), vec![(0, 64)]);
    let again = allocator.allocate(64, 1).unwrap();
    assert_eq!(again.as_ptr(), 0);
    assert_eq!(again.size(), 64);
}

#[test]
fn fragmentation_scenario() {
    let mut allocator = arena(64, 0);
    let a = allocator.allocate(16, 1).unwrap();
    let b = allocator.allocate(16, 1).unwrap();
    let c = allocator.allocate(16, 1).unwrap();
    assert_eq!((a.as_ptr(), b.as_ptr(), c.as_ptr()), (0, 16, 32));
    assert_eq!(allocator.free_blocks(), vec![(48, 16)]);

    allocator.dealloc(b);
    assert_eq!(allocator.free_blocks(), vec![(16, 16), (48, 16)]);
    assert!(allocator.allocate(32, 1).is_none());
    assert_eq!(allocator.free_blocks(), vec![(16, 16), (48, 16)]);

    allocator.dealloc(a);
    assert_eq!(allocator.free_blocks(), vec![(0, 32), (48, 16)]);
    allocator.dealloc(c);
    assert_eq!(allocator.free_blocks(), vec![(0, 64)]);

    let big = allocator.allocate(32, 1).unwrap();
    assert_eq!(big.as_ptr(), 0);
    assert_eq!(big.size(), 32);
    assert_eq!(allocator.free_blocks(), vec![(32, 32)]);
}

#[test]
fn first_fit_takes_the_lowest_block_that_fits() {
    let mut allocator = arena(128, 0);
    let a = allocator.allocate(16, 1).unwrap();
    let _b = allocator.allocate(16, 1).unwrap();
    let c = allocator.allocate(32, 1).unwrap();
    let _d = allocator.allocate(16, 1).unwrap();
    allocator.dealloc(a);
    allocator.dealloc(c);
    assert_eq!(allocator.free_blocks(), vec![(0, 16), (32, 32), (80, 48)]);
    // 24 bytes do not fit at 0, and fit at 32 before they fit at 80
    let e = allocator.allocate(24, 1).unwrap();
    assert_eq!(e.as_ptr(), 32);
    assert_eq!(e.size(), 24);
    assert_eq!(allocator.free_blocks(), vec![(0, 16), (56, 8), (80, 48)]);
    // 16 bytes fit at 0 exactly
    let f = allocator.allocate(16, 1).unwrap();
    assert_eq!(f.as_ptr(), 0);
    assert_eq!(allocator.free_blocks(), vec![(56, 8), (80, 48)]);
}

#[test]
fn alignment_correctness() {
    // the arena starts at address 4, so its first block is not 16-aligned
    let mut allocator = arena(64, 4);
    let handle = allocator.allocate(16, 16).unwrap();
    assert_eq!(handle.as_ptr() % 16, 0);
    assert_eq!(handle.as_ptr(), 16);
    assert_eq!(handle.padding(), 12);
    assert_eq!(handle.size(), 28);
    assert_eq!(allocator.free_blocks(), vec![(28, 36)]);
    assert_eq!(free_total(&allocator) + u64::from(handle.size()), 64);
}

#[test]
fn alignment_is_worked_out_for_each_block() {
    let mut allocator = arena(96, 4);
    let a = allocator.allocate(8, 1).unwrap();
    let _b = allocator.allocate(8, 1).unwrap();
    allocator.dealloc(a);
    // block at address 4 has 8 bytes: padding 4 leaves no room; block at address 20 needs padding 4
    assert_eq!(allocator.free_blocks(), vec![(0, 8), (16, 80)]);
    let c = allocator.allocate(8, 8).unwrap();
    assert_eq!(c.as_ptr(), 24);
    assert_eq!(c.padding(), 4);
    assert_eq!(c.size(), 12);
    assert_eq!(allocator.free_blocks(), vec![(0, 8), (28, 68)]);
}

#[test]
fn aligned_block_needs_no_padding() {
    let mut allocator = arena(64, 16);
    let handle = allocator.allocate(16, 16).unwrap();
    assert_eq!(handle.as_ptr(), 16);
    assert_eq!(handle.padding(), 0);
    assert_eq!(handle.size(), 16);
    assert_eq!(allocator.free_blocks(), vec![(16, 48)]);
}

#[test]
fn slack_absorption() {
    let mut allocator = arena(64, 0);
    // 60 bytes would leave 4, too few for a header
    let handle = allocator.allocate(60, 1).unwrap();
    assert_eq!(handle.size(), 64);
    assert_eq!(handle.padding(), 0);
    assert!(allocator.free_blocks().is_empty());
    allocator.dealloc(handle);
    assert_eq!(allocator.free_blocks(), vec![(0, 64)]);
}

#[test]
fn leftover_of_a_header_is_split_off() {
    let mut allocator = arena(64, 0);
    let handle = allocator.allocate(56, 1).unwrap();
    assert_eq!(handle.size(), 56);
    assert_eq!(allocator.free_blocks(), vec![(56, 8)]);
    let mut other = arena(64, 0);
    let whole = other.allocate(57, 1).unwrap();
    assert_eq!(whole.size(), 64);
    assert!(other.free_blocks().is_empty());
}

#[test]
fn request_larger_than_the_arena_fails() {
    let mut allocator = arena(64, 0);
    assert!(allocator.allocate(65, 1).is_none());
    assert!(allocator.allocate(usize::MAX, 1).is_none());
    assert!(allocator.allocate(64, 128).is_some());
    assert_eq!(allocator.free_blocks(), vec![]);
}

#[test]
fn padding_can_make_a_request_fail() {
    let mut allocator = arena(64, 4);
    assert!(allocator.allocate(64, 8).is_none());
    assert_eq!(allocator.free_blocks(), vec![(0, 64)]);
    let handle = allocator.allocate(60, 8).unwrap();
    assert_eq!(handle.as_ptr(), 8);
    assert_eq!(handle.padding(), 4);
    assert_eq!(handle.size(), 64);
}

#[test]
fn release_joins_the_block_behind() {
    let mut allocator = arena(64, 0);
    let a = allocator.allocate(16, 1).unwrap();
    let b = allocator.allocate(16, 1).unwrap();
    allocator.dealloc(b);
    assert_eq!(allocator.free_blocks(), vec![(16, 48)]);
    allocator.dealloc(a);
    assert_eq!(allocator.free_blocks(), vec![(0, 64)]);
}

#[test]
fn release_joins_the_block_before() {
    let mut allocator = arena(64, 0);
    let a = allocator.allocate(16, 1).unwrap();
    let b = allocator.allocate(16, 1).unwrap();
    let _c = allocator.allocate(32, 1).unwrap();
    assert!(allocator.free_blocks().is_empty());
    allocator.dealloc(a);
    assert_eq!(allocator.free_blocks(), vec![(0, 16)]);
    allocator.dealloc(b);
    assert_eq!(allocator.free_blocks(), vec![(0, 32)]);
}

#[test]
fn release_joins_both_neighbours() {
    let mut allocator = arena(96, 0);
    let a = allocator.allocate(16, 1).unwrap();
    let b = allocator.allocate(16, 1).unwrap();
    let c = allocator.allocate(16, 1).unwrap();
    let _d = allocator.allocate(16, 1).unwrap();
    allocator.dealloc(a);
    allocator.dealloc(c);
    assert_eq!(allocator.free_blocks(), vec![(0, 16), (32, 16), (64, 32)]);
    allocator.dealloc(b);
    assert_eq!(allocator.free_blocks(), vec![(0, 48), (64, 32)]);
}

#[test]
fn release_links_a_block_that_touches_nothing() {
    let mut allocator = arena(96, 0);
    let _a = allocator.allocate(16, 1).unwrap();
    let b = allocator.allocate(16, 1).unwrap();
    let _c = allocator.allocate(16, 1).unwrap();
    let d = allocator.allocate(16, 1).unwrap();
    let _e = allocator.allocate(16, 1).unwrap();
    assert_eq!(allocator.free_blocks(), vec![(80, 16)]);
    allocator.dealloc(b);
    assert_eq!(allocator.free_blocks(), vec![(16, 16), (80, 16)]);
    allocator.dealloc(d);
    assert_eq!(allocator.free_blocks(), vec![(16, 16), (48, 16), (80, 16)]);
}

#[test]
fn release_into_an_empty_list() {
    let mut allocator = arena(32, 0);
    let a = allocator.allocate(16, 1).unwrap();
    let b = allocator.allocate(16, 1).unwrap();
    assert!(allocator.free_blocks().is_empty());
    allocator.dealloc(b);
    assert_eq!(allocator.free_blocks(), vec![(16, 16)]);
    allocator.dealloc(a);
    assert_eq!(allocator.free_blocks(), vec![(0, 32)]);
}

#[test]
fn padded_release_gives_back_size_and_padding() {
    let mut allocator = arena(64, 4);
    let handle = allocator.allocate(16, 16).unwrap();
    assert_eq!((handle.padding(), handle.size()), (12, 28));
    assert_eq!(allocator.free_blocks(), vec![(28, 36)]);
    allocator.dealloc(handle);
    // 28 + 12 bytes from offset 0 on: they reach past the 28 reserved ones
    assert_eq!(allocator.free_blocks(), vec![(0, 40), (28, 36)]);
}

#[test]
fn conservation_over_a_sequence() {
    let mut allocator = arena(256, 0);
    let mut live: Vec<FreeListPtr<u8>> = Vec::new();
    let reserved = |live: &Vec<FreeListPtr<u8>>| -> u64 {
        live.iter().map(|h| u64::from(h.size())).sum()
    };
    let sizes = [8usize, 24, 16, 40, 9, 31, 8, 64];
    for size in sizes {
        if let Some(handle) = allocator.allocate(size, 1) {
            live.push(handle);
        }
        assert_eq!(free_total(&allocator) + reserved(&live), 256);
        assert_no_touching(&allocator);
    }
    for index in [3usize, 0, 4, 1, 0, 1, 0] {
        if index < live.len() {
            let handle = live.remove(index);
            allocator.dealloc(handle);
        }
        assert_eq!(free_total(&allocator) + reserved(&live), 256);
        assert_no_touching(&allocator);
    }
}

#[test]
fn everything_released_is_one_block_again() {
    let mut allocator = arena(200, 0);
    let mut live = Vec::new();
    for size in [8usize, 16, 24, 32, 40] {
        live.push(allocator.allocate(size, 1).unwrap());
    }
    for index in [2usize, 0, 2, 0, 0] {
        let handle = live.remove(index);
        allocator.dealloc(handle);
        assert_no_touching(&allocator);
    }
    assert_eq!(allocator.free_blocks(), vec![(0, 200)]);
}

#[test]
fn round_trip() {
    let mut allocator = arena(128, 0);
    for (size, align) in [(8usize, 1usize), (16, 4), (24, 8), (17, 16)] {
        let handle = allocator.allocate(size, align).unwrap();
        let usable = (handle.size() - handle.padding()) as usize;
        let pattern: Vec<u8> = (0..usable).map(|i| (i * 7 + size) as u8).collect();
        allocator.write(&handle, &pattern);
        assert_eq!(allocator.read(&handle), pattern);
    }
}

#[test]
fn write_fills_the_front_only() {
    let mut allocator = arena(64, 0);
    let handle = allocator.allocate(16, 1).unwrap();
    allocator.write(&handle, &[1u8; 16]);
    allocator.write(&handle, &[9, 8, 7]);
    let mut expected = vec![1u8; 16];
    expected[0] = 9;
    expected[1] = 8;
    expected[2] = 7;
    assert_eq!(allocator.read(&handle), expected);
}

#[test]
fn contents_survive_other_operations() {
    let mut allocator = arena(128, 0);
    let a = allocator.allocate(16, 1).unwrap();
    let b = allocator.allocate(16, 1).unwrap();
    let c = allocator.allocate(16, 1).unwrap();
    allocator.write(&a, &[0xAA; 16]);
    allocator.write(&b, &[0xBB; 16]);
    allocator.write(&c, &[0xCC; 16]);
    allocator.dealloc(b);
    assert_eq!(allocator.read(&a), vec![0xAA; 16]);
    assert_eq!(allocator.read(&c), vec![0xCC; 16]);
    let d = allocator.allocate(8, 1).unwrap();
    assert_eq!(d.as_ptr(), 16);
    allocator.write(&d, &[0xDD; 8]);
    assert_eq!(allocator.read(&a), vec![0xAA; 16]);
    assert_eq!(allocator.read(&c), vec![0xCC; 16]);
    assert_eq!(allocator.read(&d), vec![0xDD; 8]);
    assert_eq!(allocator.free_blocks(), vec![(24, 8), (48, 80)]);
}

#[test]
fn written_bytes_do_not_disturb_the_list() {
    let mut allocator = arena(64, 0);
    let a = allocator.allocate(24, 1).unwrap();
    allocator.write(&a, &[0xFF; 24]);
    assert_eq!(allocator.free_blocks(), vec![(24, 40)]);
    let b = allocator.allocate(8, 1).unwrap();
    assert_eq!(b.as_ptr(), 24);
    assert_eq!(allocator.free_blocks(), vec![(32, 32)]);
}

#[test]
fn addresses_count_from_the_base() {
    let mut allocator = arena(64, 4096);
    let a = allocator.allocate(16, 1).unwrap();
    let b = allocator.allocate(16, 1).unwrap();
    assert_eq!(a.as_ptr(), 4096);
    assert_eq!(b.as_ptr(), 4112);
    assert_eq!(allocator.free_blocks(), vec![(32, 32)]);
    allocator.dealloc(a);
    assert_eq!(allocator.free_blocks(), vec![(0, 16), (32, 32)]);
}

#[test]
fn cast_keeps_the_handle() {
    let mut allocator = arena(64, 4);
    let handle = allocator.allocate(16, 16).unwrap();
    let other: FreeListPtr<u32> = handle.cast();
    assert_eq!(other.as_ptr(), handle.as_ptr());
    assert_eq!(other.padding(), handle.padding());
    assert_eq!(other.size(), handle.size());
    let copy = other;
    assert_eq!(copy.as_ptr(), 16);
    assert_eq!(other.clone().size(), 28);
}

#[test]
fn cast_handle_can_be_released() {
    let mut allocator = arena(64, 0);
    let handle = allocator.allocate(16, 1).unwrap();
    let typed: FreeListPtr<u64> = handle.cast();
    allocator.dealloc(typed);
    assert_eq!(allocator.free_blocks(), vec![(0, 64)]);
}

#[test]
fn touches_either_way() {
    let low = Node { next: INVALID, size: 16 };
    let high = Node { next: INVALID, size: 8 };
    assert!(Node::touches(0, &low, 16, &high));
    assert!(Node::touches(16, &high, 0, &low));
    assert!(!Node::touches(0, &low, 24, &high));
    assert!(!Node::touches(24, &high, 0, &low));
    // the block's own size decides, not the other one's
    assert!(!Node::touches(0, &low, 8, &high));
    assert!(Node::touches(8, &high, 16, &low));
}

#[test]
fn touches_near_the_top_of_the_range() {
    let a = Node { next: INVALID, size: u32::MAX };
    let b = Node { next: INVALID, size: 8 };
    assert!(!Node::touches(8, &a, 7, &b));
    assert!(Node::touches(0, &a, u32::MAX, &b));
}
