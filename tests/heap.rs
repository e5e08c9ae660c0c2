use buddy_alloc::buddy::{Heap, OutOfMemory};

const WORD: usize = 8;

#[test]
fn test_empty_heap() {
    let mut heap = Heap::<10>::new();
    assert_eq!(heap.total(), 0);
    assert_eq!(heap.allocated(), 0);
    assert!(heap.allocate(1, 1).is_err());
}

#[test]
fn test_add_range() {
    let mut heap = Heap::<32>::new();
    assert!(heap.allocate(1, 1).is_err());
    let start: usize = 0x2_0000;
    heap.add_range(start, start + 100 * WORD);
    let addr = heap.allocate(1, 1);
    assert!(addr.is_ok());
}

#[test]
fn test_add_size() {
    let mut heap = Heap::<32>::new();
    assert!(heap.allocate(1, 1).is_err());
    let start: usize = 0x2_0000;
    heap.add_size(start, 100);
    let addr = heap.allocate(1, 1);
    assert!(addr.is_ok());
}

#[test]
fn tests_test_alloc_dealloc() {
    let mut heap = Heap::<32>::new();
    heap.add_size(0x1_0000, 256 * WORD);
    for _ in 0..256 {
        let addr = heap.allocate(1, 1).unwrap();
        heap.dealloc(addr, 1, 1);
    }
    heap.allocate(96, 1).unwrap();
}

#[test]
fn test_alloc_large() {
    let mut heap = Heap::<32>::new();
    heap.add_size(0x1_0000, 256 * WORD);
    assert!(heap.allocate(4096, 1).is_err());
}

#[test]
fn fragmented_region_coalesces_after_frees() {
    let mut heap = Heap::<32>::new();
    heap.add_size(0x1_0008, 2048);
    assert_eq!(heap.total(), 2048);
    let mem1 = heap.allocate(512, 1);
    assert!(mem1.is_ok());
    let mem2 = heap.allocate(512, 1);
    assert!(mem2.is_ok());
    assert_eq!(heap.allocate(1024, 1), Err(OutOfMemory));
    heap.dealloc(mem1.unwrap(), 512, 1);
    heap.dealloc(mem2.unwrap(), 512, 1);
    assert!(heap.allocate(1024, 1).is_ok());
}

#[test]
fn region_below_one_word_registers_nothing() {
    let mut heap = Heap::<32>::new();
    heap.add_size(0x3_0000, 1);
    assert_eq!(heap.total(), 0);
    assert!(heap.allocate(1, 1).is_err());
    assert_eq!(heap.allocate(1, 1), Err(OutOfMemory));
}

#[test]
fn registration_counts_the_word_aligned_part() {
    let mut heap = Heap::<32>::new();
    heap.add_range(0x1003, 0x1003 + 100);
    assert_eq!(heap.total(), 0x1060 - 0x1008);
    let mut other = Heap::<32>::new();
    other.add_size(0x2000, 800);
    assert_eq!(other.total(), 800);
}

#[test]
fn small_order_bound_limits_blocks() {
    let mut heap = Heap::<5>::new();
    heap.add_size(0x1000, 256);
    assert_eq!(heap.total(), 256);
    assert!(heap.allocate(16, 1).is_ok());
    assert!(heap.allocate(32, 1).is_err());
}

#[test]
fn counters_follow_block_sizes() {
    let mut heap = Heap::<32>::new();
    heap.add_size(0x1_0000, 4096);
    let a = heap.allocate(100, 1).unwrap();
    assert_eq!(heap.allocated(), 128);
    let b = heap.allocate(1, 1).unwrap();
    assert_eq!(heap.allocated(), 136);
    assert!(heap.allocated() <= heap.total());
    heap.dealloc(b, 1, 1);
    assert_eq!(heap.allocated(), 128);
    heap.dealloc(a, 100, 1);
    assert_eq!(heap.allocated(), 0);
    assert_eq!(heap.total(), 4096);
}

#[test]
fn allocations_honour_alignment() {
    let mut heap = Heap::<32>::new();
    heap.add_range(0x1_0008, 0x1_0008 + 8192);
    for align in [1usize, 2, 8, 16, 64, 256, 1024] {
        let a = heap.allocate(24, align).unwrap();
        assert_eq!(a % align, 0);
    }
}

#[test]
fn live_blocks_do_not_overlap() {
    let mut heap = Heap::<32>::new();
    heap.add_size(0x1_0000, 4096);
    let sizes = [8usize, 100, 24, 512, 64, 8, 200];
    let mut blocks: Vec<(usize, usize)> = Vec::new();
    for s in sizes {
        let a = heap.allocate(s, 1).unwrap();
        blocks.push((a, s.next_power_of_two().max(WORD)));
    }
    for i in 0..blocks.len() {
        for j in 0..blocks.len() {
            if i != j {
                let (a1, s1) = blocks[i];
                let (a2, s2) = blocks[j];
                assert!(a1 + s1 <= a2 || a2 + s2 <= a1);
            }
        }
    }
}

#[test]
fn equal_blocks_can_be_allocated_again_after_freeing() {
    let mut heap = Heap::<32>::new();
    heap.add_size(0x1_0000, 2048);
    let mut blocks = Vec::new();
    loop {
        match heap.allocate(64, 1) {
            Ok(a) => blocks.push(a),
            Err(_) => break,
        }
    }
    let n = blocks.len();
    assert_eq!(n, 32);
    for a in blocks {
        heap.dealloc(a, 64, 1);
    }
    assert!(heap.allocate(2048, 1).is_ok());
    let mut again = Heap::<32>::new();
    again.add_size(0x1_0000, 2048);
    let first: Vec<usize> = (0..n).map(|_| again.allocate(64, 1).unwrap()).collect();
    for a in first.iter().rev() {
        again.dealloc(*a, 64, 1);
    }
    for _ in 0..n {
        assert!(again.allocate(64, 1).is_ok());
    }
}

#[test]
fn buddies_merge_back_into_the_parent() {
    let mut heap = Heap::<32>::new();
    heap.add_size(0x1_0000, 64);
    let a = heap.allocate(8, 1).unwrap();
    assert_eq!(a, 0x1_0000);
    let b = heap.allocate(8, 1).unwrap();
    assert_eq!(b, 0x1_0008);
    heap.dealloc(a, 8, 1);
    heap.dealloc(b, 8, 1);
    assert_eq!(heap.allocate(64, 1), Ok(0x1_0000));
}
