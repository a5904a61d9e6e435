use lib::vm::page_table::PageTable;
use lib::vm::{PageReplacementPolicy, VMState, VirtualMemory, PAGE_SIZE};

#[test]
fn address_space_of_32_bits_with_4k_pages() {
    let vm = VirtualMemory::new(32, 4096);
    assert_eq!(vm.page_size, 4096);
    assert_eq!(vm.offset_bits, 12);
    assert_eq!(vm.num_pages, 1 << 20);
}

#[test]
fn offset_bits_round_down_for_other_page_sizes() {
    assert_eq!(VirtualMemory::new(32, 3000).offset_bits, 11);
    assert_eq!(VirtualMemory::new(32, 1).offset_bits, 0);
    assert_eq!(VirtualMemory::new(16, 0).offset_bits, 0);
    assert_eq!(VirtualMemory::new(16, 0).num_pages, 1 << 16);
    assert_eq!(VirtualMemory::new(20, 1 << 20).num_pages, 1);
}

#[test]
fn split_address_into_page_and_offset() {
    let vm = VirtualMemory::new(32, 4096);
    assert_eq!(vm.split_address(0x1234_5678), (0x12345, 0x678));
    assert_eq!(vm.split_address(0x1000), (1, 0));
    assert_eq!(vm.split_address(0xFFFF_FFFF), (0xFFFFF, 0xFFF));
    let (vpn, off) = vm.split_address(0xDEAD_BEEF);
    assert_eq!(vpn * vm.page_size + off, 0xDEAD_BEEF);
}

#[test]
fn new_page_table_is_empty() {
    let t = PageTable::new(5);
    assert_eq!(t.entries.len(), 5);
    assert!(t.entries.iter().all(|e| !e.valid && e.frame == 0 && e.last_used == 0));
}

#[test]
fn vm_workload_faults_three_times() {
    let vm = VirtualMemory::new(32, 4096);
    let mut s = VMState::new(vm.num_pages, 8, PageReplacementPolicy::LRU);
    for (addr, fault) in [(0x1000u32, true), (0x2000, true), (0x1000, false), (0xF000, true)] {
        let before = s.faults;
        let (vpn, off) = vm.split_address(addr);
        assert!(s.translate(vpn, off).is_some());
        assert_eq!(s.faults - before, fault as usize);
    }
    assert_eq!(s.faults, 3);
}

#[test]
fn free_frames_are_used_in_order() {
    let mut s = VMState::new(16, 4, PageReplacementPolicy::LRU);
    assert_eq!(s.translate(5, 7), Some(7));
    assert_eq!(s.translate(9, 1), Some(PAGE_SIZE + 1));
    assert_eq!(s.translate(5, 8), Some(8));
    assert_eq!(s.frames, vec![Some(5), Some(9), None, None]);
    assert_eq!(s.faults, 2);
    assert_eq!(s.timestamp, 3);
}

#[test]
fn lru_replaces_the_least_recently_used_page() {
    let mut s = VMState::new(16, 2, PageReplacementPolicy::LRU);
    assert_eq!(s.translate(1, 0), Some(0));
    assert_eq!(s.translate(2, 0), Some(PAGE_SIZE));
    assert_eq!(s.translate(1, 0), Some(0));
    // frame 1 holds page 2, used least recently
    assert_eq!(s.translate(3, 5), Some(PAGE_SIZE + 5));
    assert_eq!(s.frames, vec![Some(1), Some(3)]);
    assert_eq!(s.faults, 3);
    assert_eq!(s.replacements, 1);
    assert!(!s.page_table.entries[2].valid);
    assert!(s.page_table.entries[3].valid);
    assert_eq!(s.page_table.entries[3].frame, 1);
}

#[test]
fn evicted_page_faults_again() {
    let mut s = VMState::new(16, 2, PageReplacementPolicy::LRU);
    assert_eq!(s.translate(0, 0), Some(0));
    assert_eq!(s.translate(1, 0), Some(PAGE_SIZE));
    assert_eq!(s.translate(0, 0), Some(0));
    // page 1 is the least recently used: it loses frame 1 to page 2
    assert_eq!(s.translate(2, 5), Some(PAGE_SIZE + 5));
    assert!(!s.page_table.entries[1].valid);
    assert_eq!(s.replacements, 1);
    // page 1 faults again and evicts page 0, now the least recently used
    assert_eq!(s.translate(1, 0), Some(0));
    assert_eq!(s.faults, 4);
    assert_eq!(s.replacements, 2);
    assert!(!s.page_table.entries[0].valid);
    assert_eq!(s.frames, vec![Some(1), Some(2)]);
}

#[test]
fn frame_for_predicts_the_frame() {
    let mut s = VMState::new(16, 2, PageReplacementPolicy::LRU);
    assert_eq!(s.frame_for(3), 0);
    s.translate(3, 0);
    assert_eq!(s.frame_for(3), 0);
    assert_eq!(s.frame_for(4), 1);
    s.translate(4, 0);
    assert_eq!(s.frame_for(5), 0);
}

#[test]
fn repeated_translation_does_not_fault() {
    let mut s = VMState::new(8, 2, PageReplacementPolicy::LRU);
    let a = s.translate(4, 10);
    let faults = s.faults;
    let b = s.translate(4, 20);
    assert_eq!(s.faults, faults);
    assert_eq!(a.unwrap() - 10, b.unwrap() - 20);
}
