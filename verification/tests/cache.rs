use lib::cache::{Cache, CacheLevel, ReplacementPolicy};

#[test]
fn geometry_of_a_new_cache() {
    let c = Cache::new(32768, 64, 4, ReplacementPolicy::LRU);
    assert_eq!(c.sets.len(), 128);
    assert!(c.sets.iter().all(|s| s.lines.len() == 4));
    assert!(c.sets.iter().all(|s| s.lines.iter().all(|l| !l.valid && l.tag == 0)));
    assert_eq!((c.accesses, c.hits, c.timestamp), (0, 0, 0));
}

#[test]
fn cache_smaller_than_one_set_has_no_sets() {
    let c = Cache::new(100, 64, 4, ReplacementPolicy::LRU);
    assert_eq!(c.sets.len(), 0);
}

#[test]
fn cache_workload_miss_hit_miss_hit() {
    let mut c = CacheLevel::new(32768, 262144, 64, 4, ReplacementPolicy::LRU);
    assert!(!c.access(0x1000));
    assert!(c.access(0x1004));
    assert!(!c.access(0x2000));
    assert!(c.access(0x1008));
    assert_eq!(c.l1.accesses, 4);
    assert_eq!(c.l1.hits, 2);
    assert_eq!(c.l1.misses(), 2);
    let rate = c.l1.hits as f64 / c.l1.accesses as f64 * 100.0;
    assert_eq!(format!("{:.2}", rate), "50.00");
}

#[test]
fn readme_repeated_access() {
    let mut c = CacheLevel::new(32768, 262144, 64, 4, ReplacementPolicy::LRU);
    c.access(0x1000);
    c.access(0x1000);
    assert_eq!(c.l1.accesses, 2);
    assert_eq!(c.l1.hits, 1);
    assert_eq!(c.l1.misses(), 1);
}

#[test]
fn address_maps_to_set_and_tag() {
    let mut c = Cache::new(32768, 64, 4, ReplacementPolicy::LRU);
    assert!(!c.access(0x2000));
    // block 0x80 = 128, 128 sets: set 0, tag 1
    assert!(c.sets[0].lines[0].valid);
    assert_eq!(c.sets[0].lines[0].tag, 1);
    assert_eq!(c.sets[0].lines[0].last_used, 1);
    assert_eq!(c.sets[0].lines[0].insert_order, 1);
}

fn one_set(policy: ReplacementPolicy) -> Cache {
    // one set of two ways: block n has tag n
    Cache::new(128, 64, 2, policy)
}

#[test]
fn lru_evicts_the_least_recently_used_line() {
    let mut c = one_set(ReplacementPolicy::LRU);
    assert!(!c.access(0));
    assert!(!c.access(64));
    assert!(c.access(0));
    assert!(!c.access(128)); // evicts block 1
    assert!(c.access(0));
    assert!(!c.access(64));
}

#[test]
fn fifo_evicts_the_line_filled_first() {
    let mut c = one_set(ReplacementPolicy::FIFO);
    assert!(!c.access(0));
    assert!(!c.access(64));
    assert!(c.access(0));
    assert!(!c.access(128)); // evicts block 0
    assert!(c.access(64));
    assert!(!c.access(0));
}

#[test]
fn hit_only_stamps_the_line() {
    let mut c = one_set(ReplacementPolicy::LRU);
    c.access(0);
    c.access(64);
    assert!(c.access(10));
    let l = &c.sets[0].lines[0];
    assert!(l.valid);
    assert_eq!(l.tag, 0);
    assert_eq!(l.last_used, 3);
    assert_eq!(l.insert_order, 1);
}

#[test]
fn l2_is_consulted_only_on_l1_miss() {
    let mut c = CacheLevel::new(128, 256, 64, 2, ReplacementPolicy::LRU);
    assert!(!c.access(0));
    assert_eq!((c.l1.accesses, c.l2.accesses), (1, 1));
    assert!(c.access(0));
    assert_eq!((c.l1.accesses, c.l2.accesses), (2, 1));
    // blocks 1 and 3 push block 0 out of L1 (one set of 2 ways); in L2 they go to the
    // other set, so block 0 stays there
    c.access(64);
    c.access(64 * 3);
    assert!(!c.access(0)); // L1 misses, L2 hits, still reported as a miss
    assert_eq!(c.l2.hits, 1);
}

fn inclusive(c: &CacheLevel) -> bool {
    let n1 = c.l1.sets.len() as u128;
    let n2 = c.l2.sets.len() as u128;
    c.l1.sets.iter().enumerate().all(|(i, set)| {
        set.lines.iter().filter(|l| l.valid).all(|l| {
            let b = l.tag as u128 * n1 + i as u128;
            let s2 = &c.l2.sets[(b % n2) as usize];
            s2.lines.iter().any(|m| m.valid && m.tag as u128 == b / n2)
        })
    })
}

#[test]
fn l2_eviction_drops_the_block_from_l1() {
    // L1: one set of two ways; L2: two sets of two ways
    let mut c = CacheLevel::new(128, 256, 64, 2, ReplacementPolicy::LRU);
    for addr in [0u64, 128, 0, 256] {
        c.access(addr);
        assert!(inclusive(&c));
    }
    // block 4 evicted block 0 from L2, so L1 lost it too
    assert!(!c.l1.probe(0));
    assert!(!c.l2.probe(0));
    assert!(!c.access(0));
}

#[test]
fn hierarchy_stays_inclusive() {
    let mut c = CacheLevel::new(256, 512, 64, 2, ReplacementPolicy::FIFO);
    let mut x: u64 = 12345;
    for _ in 0..500 {
        x = x.wrapping_mul(6364136223846793005).wrapping_add(1442695040888963407);
        c.access((x >> 40) % 4096);
        assert!(inclusive(&c));
    }
}

#[test]
fn evicted_by_access_and_invalidate() {
    let mut c = Cache::new(128, 64, 2, ReplacementPolicy::LRU);
    assert_eq!(c.evicted_by_access(0), None);
    c.access(0);
    c.access(64);
    assert_eq!(c.evicted_by_access(64), None);
    assert_eq!(c.evicted_by_access(128), Some(0));
    c.invalidate_block(1);
    assert!(!c.probe(64));
    assert!(c.probe(0));
    assert_eq!(c.accesses, 2);
}

#[test]
fn invalidated_line_is_refilled_first() {
    let mut c = Cache::new(128, 64, 2, ReplacementPolicy::LRU);
    c.access(0);
    c.access(64);
    c.access(64);
    c.invalidate_block(0);
    let l = &c.sets[0].lines[0];
    assert!(!l.valid);
    assert_eq!((l.tag, l.last_used, l.insert_order), (0, 0, 0));
    // the empty way takes the next block; block 1 stays
    assert_eq!(c.evicted_by_access(128), None);
    assert!(!c.access(128));
    assert!(c.access(64));
    assert!(c.access(128));
}

#[test]
fn fifo_fills_an_invalidated_way_first() {
    let mut c = Cache::new(128, 64, 2, ReplacementPolicy::FIFO);
    c.access(0);
    c.access(64);
    c.invalidate_block(1);
    assert!(!c.access(128));
    assert!(c.access(0));
    assert!(c.access(128));
}
