use lib::memory::allocator::{AllocationStrategy, Block, MemoryAllocator};
use lib::memory::block;

fn layout(a: &MemoryAllocator) -> Vec<(usize, usize, bool, Option<u32>)> {
    a.dump().iter().map(|b: &Block| (b.start, b.size, b.free, b.id)).collect()
}

#[test]
fn new_heap_is_one_free_block() {
    let a = MemoryAllocator::new(1024);
    assert_eq!(layout(&a), vec![(0, 1024, true, None)]);
    assert_eq!(a.next_id, 1);
    assert_eq!(a.alloc_attempts, 0);
    assert_eq!(a.alloc_success, 0);
    assert!(matches!(a.strategy, AllocationStrategy::FirstFit));
}

#[test]
fn readme_session_first_fit() {
    let mut a = MemoryAllocator::new(1024);
    a.set_strategy(AllocationStrategy::FirstFit);
    assert_eq!(a.malloc(200), Some((1, 0)));
    assert_eq!(a.malloc(50), Some((2, 200)));
    assert!(a.free(1));
    assert_eq!(
        layout(&a),
        vec![(0, 200, true, None), (200, 50, false, Some(2)), (250, 774, true, None)]
    );
    let st = a.stats();
    assert_eq!(st.total, 1024);
    assert_eq!(st.used, 50);
    assert_eq!(st.free, 974);
    assert_eq!(st.largest_free, 774);
    assert_eq!(st.alloc_attempts, 2);
    assert_eq!(st.alloc_success, 2);
}

#[test]
fn allocation_workload_best_fit() {
    let mut a = MemoryAllocator::new(1024);
    a.set_strategy(AllocationStrategy::BestFit);
    assert_eq!(a.malloc(200), Some((1, 0)));
    assert_eq!(a.malloc(50), Some((2, 200)));
    assert_eq!(a.malloc(300), Some((3, 250)));
    assert!(a.free(2));
    assert!(layout(&a).contains(&(200, 50, true, None)));
    // the 50-byte hole is too small, the smallest block that fits is the tail
    assert_eq!(a.malloc(120), Some((4, 550)));
    let st = a.stats();
    assert_eq!(st.alloc_success, 4);
    assert_eq!(st.used, 620);
    assert_eq!(st.free, 404);
    assert_eq!(st.largest_free, 354);
    let free_blocks = layout(&a).iter().filter(|b| b.2).count();
    assert!(free_blocks >= 1);
    let external = 1.0 - st.largest_free as f64 / st.free as f64;
    assert!(external > 0.0);
    let utilization = st.used as f64 / st.total as f64;
    assert!(utilization > 0.5);
}

fn holes() -> MemoryAllocator {
    // free holes of 100 bytes at 0 and 50 bytes at 110, free tail of 230 bytes at 170
    let mut a = MemoryAllocator::new(400);
    assert_eq!(a.malloc(100), Some((1, 0)));
    assert_eq!(a.malloc(10), Some((2, 100)));
    assert_eq!(a.malloc(50), Some((3, 110)));
    assert_eq!(a.malloc(10), Some((4, 160)));
    assert!(a.free(1));
    assert!(a.free(3));
    a
}

#[test]
fn first_fit_takes_the_first_hole() {
    let mut a = holes();
    a.set_strategy(AllocationStrategy::FirstFit);
    assert_eq!(a.malloc(40), Some((5, 0)));
}

#[test]
fn best_fit_takes_the_smallest_hole() {
    let mut a = holes();
    a.set_strategy(AllocationStrategy::BestFit);
    assert_eq!(a.malloc(40), Some((5, 110)));
}

#[test]
fn worst_fit_takes_the_largest_hole() {
    let mut a = holes();
    a.set_strategy(AllocationStrategy::WorstFit);
    assert_eq!(a.malloc(40), Some((5, 170)));
}

#[test]
fn best_fit_prefers_the_first_of_equal_holes() {
    let mut a = MemoryAllocator::new(300);
    assert_eq!(a.malloc(50), Some((1, 0)));
    assert_eq!(a.malloc(10), Some((2, 50)));
    assert_eq!(a.malloc(50), Some((3, 60)));
    assert_eq!(a.malloc(190), Some((4, 110)));
    assert!(a.free(1));
    assert!(a.free(3));
    a.set_strategy(AllocationStrategy::BestFit);
    assert_eq!(a.malloc(50), Some((5, 0)));
    a.set_strategy(AllocationStrategy::WorstFit);
    assert_eq!(a.malloc(50), Some((6, 60)));
}

#[test]
fn exact_fit_does_not_split() {
    let mut a = MemoryAllocator::new(100);
    assert_eq!(a.malloc(100), Some((1, 0)));
    assert_eq!(layout(&a), vec![(0, 100, false, Some(1))]);
    assert_eq!(a.malloc(1), None);
}

#[test]
fn failed_malloc_counts_an_attempt_only() {
    let mut a = MemoryAllocator::new(64);
    assert_eq!(a.malloc(65), None);
    assert_eq!(a.alloc_attempts, 1);
    assert_eq!(a.alloc_success, 0);
    assert_eq!(a.next_id, 1);
    assert_eq!(layout(&a), vec![(0, 64, true, None)]);
}

#[test]
fn zero_byte_malloc_gets_an_empty_block() {
    let mut a = MemoryAllocator::new(10);
    assert_eq!(a.malloc(0), Some((1, 0)));
    assert_eq!(layout(&a), vec![(0, 0, false, Some(1)), (0, 10, true, None)]);
    assert!(a.free(1));
    assert_eq!(layout(&a), vec![(0, 10, true, None)]);
}

#[test]
fn empty_heap() {
    let mut a = MemoryAllocator::new(0);
    assert_eq!(a.malloc(1), None);
    assert_eq!(a.malloc(0), Some((1, 0)));
    assert_eq!(a.stats().used, 0);
}

#[test]
fn free_of_unknown_id_fails() {
    let mut a = MemoryAllocator::new(100);
    assert!(!a.free(1));
    assert_eq!(a.malloc(10), Some((1, 0)));
    assert!(!a.free(2));
    assert_eq!(layout(&a), vec![(0, 10, false, Some(1)), (10, 90, true, None)]);
}

#[test]
fn double_free_is_refused() {
    let mut a = MemoryAllocator::new(100);
    assert_eq!(a.malloc(10), Some((1, 0)));
    assert!(a.free(1));
    let before = layout(&a);
    assert!(!a.free(1));
    assert_eq!(layout(&a), before);
}

#[test]
fn free_undoes_malloc() {
    let mut a = MemoryAllocator::new(500);
    assert_eq!(a.malloc(100), Some((1, 0)));
    assert_eq!(a.malloc(100), Some((2, 100)));
    assert!(a.free(1));
    let before = layout(&a);
    let (id, _) = a.malloc(30).unwrap();
    assert_ne!(layout(&a), before);
    assert!(a.free(id));
    assert_eq!(layout(&a), before);
}

#[test]
fn free_merges_both_neighbours() {
    let mut a = MemoryAllocator::new(300);
    assert_eq!(a.malloc(100), Some((1, 0)));
    assert_eq!(a.malloc(100), Some((2, 100)));
    assert_eq!(a.malloc(100), Some((3, 200)));
    assert!(a.free(1));
    assert!(a.free(3));
    assert_eq!(
        layout(&a),
        vec![(0, 100, true, None), (100, 100, false, Some(2)), (200, 100, true, None)]
    );
    assert!(a.free(2));
    assert_eq!(layout(&a), vec![(0, 300, true, None)]);
}

#[test]
fn ids_keep_growing_after_free() {
    let mut a = MemoryAllocator::new(100);
    assert_eq!(a.malloc(10), Some((1, 0)));
    assert!(a.free(1));
    assert_eq!(a.malloc(10), Some((2, 0)));
}

#[test]
fn malloc_adds_exactly_the_request_to_used_bytes() {
    let mut a = MemoryAllocator::new(1000);
    assert_eq!(a.malloc(123), Some((1, 0)));
    assert_eq!(a.stats().used, 123);
    assert_eq!(a.malloc(7), Some((2, 123)));
    assert_eq!(a.stats().used, 130);
    assert!(a.free(1));
    assert_eq!(a.stats().used, 7);
    assert_eq!(a.stats().free, 993);
}

#[test]
fn can_fit_reports_a_large_enough_free_block() {
    let mut a = MemoryAllocator::new(100);
    assert!(a.can_fit(100));
    assert!(!a.can_fit(101));
    assert_eq!(a.malloc(60), Some((1, 0)));
    assert!(a.can_fit(40));
    assert!(!a.can_fit(41));
}

#[test]
fn block_constructors() {
    let f = block::Block::new_free(16, 32);
    assert_eq!((f.id, f.start, f.size, f.allocated), (None, 16, 32, false));
    let a = block::Block::new_alloc(48, 8, 3);
    assert_eq!((a.id, a.start, a.size, a.allocated), (Some(3), 48, 8, true));
}
