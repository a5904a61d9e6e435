use vstd::arithmetic::power2::{lemma2_to64, pow2};
use vstd::prelude::*;

use super::command::{CacheCounts, Command, Reply, UsageOf};
use crate::cache::{CacheLevel, CacheLine, ReplacementPolicy};
use crate::memory::allocator::{AllocationStrategy, Block, MemoryAllocator, MemoryStats};
use crate::memory::layout::{free_bytes, has_fit, largest_free, used_bytes};
use crate::vm::page_table::PageTableEntry;
use crate::vm::paging::lemma_split_recombines;
use crate::vm::{PageReplacementPolicy, VMState, VirtualMemory, PAGE_SIZE};

verus! {

/// Width of the simulated virtual addresses.
pub const VA_BITS: u32 = 32;

/// Physical frames of the simulated machine.
pub const NUM_FRAMES: usize = 8;

/// Block size of both cache levels.
pub const CACHE_BLOCK: usize = 64;

/// Ways per set of both cache levels.
pub const CACHE_WAYS: usize = 4;

/// The interactive front end: the heap it manages once `init` has made one, the paged
/// address space once `vm_init` has made one, and the two cache levels once `cache_init`
/// has made them.
pub struct Shell {
    allocator: Option<MemoryAllocator>,
    vm: Option<(VirtualMemory, VMState)>,
    cache: Option<CacheLevel>,
}

/// `a` is the allocator `init n` makes.
pub open spec fn fresh(a: MemoryAllocator, n: usize) -> bool {
    &&& a.wf()
    &&& a.total == n
    &&& a.blocks@ == seq![Block { start: 0, size: n, free: true, id: None }]
    &&& a.strategy == AllocationStrategy::FirstFit
    &&& a.next_id == 1
    &&& a.alloc_attempts == 0
    &&& a.alloc_success == 0
}

/// `b` is `a` with strategy `s`.
pub open spec fn with_strategy(a: MemoryAllocator, b: MemoryAllocator, s: AllocationStrategy) -> bool {
    &&& b.strategy == s
    &&& b.total == a.total
    &&& b.blocks@ == a.blocks@
    &&& b.next_id == a.next_id
    &&& b.alloc_attempts == a.alloc_attempts
    &&& b.alloc_success == a.alloc_success
}

/// `st` holds the figures of `a`.
pub open spec fn stats_of(a: MemoryAllocator, st: MemoryStats) -> bool {
    &&& st.total == a.total
    &&& st.used == used_bytes(a.blocks@)
    &&& st.free == free_bytes(a.blocks@)
    &&& st.largest_free == largest_free(a.blocks@)
    &&& st.alloc_attempts == a.alloc_attempts
    &&& st.alloc_success == a.alloc_success
}

/// A 32-bit address space of 4 KB pages over eight frames.
pub open spec fn vm_ready(v: VirtualMemory, s: VMState) -> bool {
    &&& v.page_size == PAGE_SIZE
    &&& v.offset_bits == 12
    &&& v.num_pages == pow2(20)
    &&& s.wf()
    &&& s.entries().len() == pow2(20)
    &&& s.frames@.len() == NUM_FRAMES
}

/// The address space `vm_init` makes: nothing resident, every frame empty.
pub open spec fn fresh_vm(v: VirtualMemory, s: VMState) -> bool {
    &&& vm_ready(v, s)
    &&& s.entries() == Seq::new(pow2(20), |i: int| PageTableEntry::unmapped())
    &&& s.frames@ == Seq::new(NUM_FRAMES as nat, |i: int| None::<usize>)
    &&& s.next_frame == 0
    &&& s.timestamp == 0
    &&& s.faults == 0
    &&& s.replacements == 0
    &&& s.policy == PageReplacementPolicy::LRU
}

/// The page number of virtual address `a`.
pub open spec fn page_of(a: u32) -> usize {
    (a as nat / pow2(12)) as usize
}

/// The offset of virtual address `a` in its page.
pub open spec fn offset_of(a: u32) -> usize {
    (a & 4095u32) as usize
}

/// The physical address virtual address `a` translates to in `s`.
pub open spec fn physical(s: VMState, a: u32) -> usize {
    (s.target_frame(page_of(a) as int) * PAGE_SIZE + offset_of(a)) as usize
}

/// The caches `cache_init l1 l2` make: empty, 64-byte blocks, four ways, LRU.
pub open spec fn fresh_cache(c: CacheLevel, l1: usize, l2: usize) -> bool {
    &&& c.wf()
    &&& c.l1.size == l1
    &&& c.l2.size == l2
    &&& c.l1.block_size == CACHE_BLOCK && c.l2.block_size == CACHE_BLOCK
    &&& c.l1.associativity == CACHE_WAYS && c.l2.associativity == CACHE_WAYS
    &&& c.l1.policy == ReplacementPolicy::LRU && c.l2.policy == ReplacementPolicy::LRU
    &&& c.l1.sets@.len() == l1 as int / 256
    &&& c.l2.sets@.len() == l2 as int / 256
    &&& c.l1.accesses == 0 && c.l1.hits == 0 && c.l1.timestamp == 0
    &&& c.l2.accesses == 0 && c.l2.hits == 0 && c.l2.timestamp == 0
    &&& forall|i: int, j: int|
        0 <= i < c.l1.sets@.len() && 0 <= j < CACHE_WAYS ==> #[trigger] c.l1.lines(i)[j]
            == CacheLine::empty()
    &&& forall|i: int, j: int|
        0 <= i < c.l2.sets@.len() && 0 <= j < CACHE_WAYS ==> #[trigger] c.l2.lines(i)[j]
            == CacheLine::empty()
}

impl Shell {
    /// The heap, once initialised.
    pub closed spec fn memory(&self) -> Option<MemoryAllocator> {
        self.allocator
    }

    /// The address space and its paging state, once initialised.
    pub closed spec fn vm(&self) -> Option<(VirtualMemory, VMState)> {
        self.vm
    }

    /// The cache levels, once initialised.
    pub closed spec fn cache(&self) -> Option<CacheLevel> {
        self.cache
    }

    /// The heap, the address space and the caches, where they exist, are well formed;
    /// the address space has the fixed shape `vm_init` gives it, and both cache levels
    /// have sets.
    pub open spec fn wf(&self) -> bool {
        &&& self.memory() matches Some(a) ==> a.wf()
        &&& self.vm() matches Some((v, s)) ==> vm_ready(v, s)
        &&& self.cache() matches Some(c) ==> c.wf() && c.l1.sets@.len() > 0 && c.l2.sets@.len()
            > 0
    }

    /// Running `c` keeps the counters it advances in range.
    pub open spec fn can_run(&self, c: Command) -> bool {
        match c {
            Command::Malloc(Some(n)) => match self.memory() {
                Some(a) => a.alloc_attempts < usize::MAX && (has_fit(a.blocks@, n) ==> a.next_id
                    < u32::MAX),
                None => true,
            },
            Command::VmAccess(Some(a)) => match self.vm() {
                Some((v, s)) => {
                    &&& s.timestamp < u64::MAX
                    &&& !s.entries()[page_of(a) as int].valid ==> s.faults < usize::MAX
                    &&& self.cache() matches Some(cl) ==> cl.can_access(physical(s, a) as u64)
                },
                None => true,
            },
            Command::CacheAccess(Some(a)) => match self.cache() {
                Some(cl) => cl.can_access(a),
                None => true,
            },
            _ => true,
        }
    }

    /// What a heap command does, answering `r`.
    pub open spec fn memory_post(pre: Shell, post: Shell, c: Command, r: Reply) -> bool {
        let unchanged = post.memory() == pre.memory();
        match c {
            Command::Empty => unchanged && r is Silent,
            Command::Unknown => unchanged && r is UnknownCommand,
            Command::Usage(u) => unchanged && match u {
                UsageOf::Init => r == Reply::Usage(UsageOf::Init),
                UsageOf::SetAllocator => if pre.memory() is Some {
                    r == Reply::Usage(UsageOf::SetAllocator)
                } else {
                    r is NotInitialized
                },
                UsageOf::Malloc => if pre.memory() is Some {
                    r == Reply::Usage(UsageOf::Malloc)
                } else {
                    r is NotInitialized
                },
                UsageOf::Free => if pre.memory() is Some {
                    r == Reply::Usage(UsageOf::Free)
                } else {
                    r is Silent
                },
                _ => false,
            },
            Command::Init(None) => unchanged && r is Silent,
            Command::Init(Some(n)) => {
                &&& post.memory() matches Some(a) && fresh(a, n)
                &&& r == Reply::Initialized(n)
            },
            Command::SetAllocator(s) => match pre.memory() {
                None => unchanged && r is NotInitialized,
                Some(a) => match s {
                    None => unchanged && r is InvalidStrategy,
                    Some(st) => {
                        &&& post.memory() matches Some(b) && with_strategy(a, b, st)
                        &&& r is StrategyUpdated
                    },
                },
            },
            Command::Malloc(n) => match pre.memory() {
                None => unchanged && r is NotInitialized,
                Some(a) => match n {
                    None => unchanged && r is Silent,
                    Some(size) => post.memory() matches Some(b) && match r {
                        Reply::Allocated(id, addr) => MemoryAllocator::malloc_post(a, b, size, Some((id, addr))),
                        Reply::AllocationFailed => MemoryAllocator::malloc_post(a, b, size, None),
                        _ => false,
                    },
                },
            },
            Command::Free(id) => match pre.memory() {
                None => unchanged && r is Silent,
                Some(a) => match id {
                    None => unchanged && r is Silent,
                    Some(i) => post.memory() matches Some(b) && match r {
                        Reply::Freed(j) => j == i && MemoryAllocator::free_post(a, b, i, true),
                        Reply::InvalidBlockId => MemoryAllocator::free_post(a, b, i, false),
                        _ => false,
                    },
                },
            },
            Command::Dump => unchanged && match pre.memory() {
                None => r is NotInitialized,
                Some(a) => r matches Reply::Layout(v) && v@ == a.blocks@,
            },
            Command::Stats => unchanged && match pre.memory() {
                None => r is NotInitialized,
                Some(a) => r matches Reply::Stats(st) && stats_of(a, st),
            },
            _ => false,
        }
    }

    /// What a paging command does, answering `r`. An access goes on to the caches, when
    /// they exist, with the physical address.
    pub open spec fn vm_post(pre: Shell, post: Shell, c: Command, r: Reply) -> bool {
        let same_vm = post.vm() == pre.vm();
        let same_cache = post.cache() == pre.cache();
        match c {
            Command::VmInit => {
                &&& post.vm() matches Some((v, s)) && fresh_vm(v, s)
                &&& same_cache
                &&& r is VmInitialized
            },
            Command::VmStats => same_vm && same_cache && match pre.vm() {
                None => r is VmNotInitialized,
                Some((v, s)) => r == Reply::VmStats(s.faults, s.replacements),
            },
            Command::Usage(UsageOf::VmAccess) => same_vm && same_cache && match pre.vm() {
                None => r is VmNotInitialized,
                Some(_) => r == Reply::Usage(UsageOf::VmAccess),
            },
            Command::VmAccess(a) => match pre.vm() {
                None => same_vm && same_cache && r is VmNotInitialized,
                Some((v, s)) => match a {
                    None => same_vm && same_cache && r is Silent,
                    Some(addr) => {
                        let pa = physical(s, addr);
                        let fault = !s.entries()[page_of(addr) as int].valid;
                        &&& post.vm() matches Some((v2, s2)) && v2 == v && VMState::translate_post(
                            s,
                            s2,
                            page_of(addr),
                            offset_of(addr),
                            Some(pa),
                        )
                        &&& match pre.cache() {
                            None => same_cache && r == Reply::Translated(pa, fault, None),
                            Some(cl) => post.cache() matches Some(cl2) && r matches Reply::Translated(
                                p,
                                f,
                                Some(h),
                            ) && p == pa && f == fault && CacheLevel::access_post(cl, cl2, pa as u64, h),
                        }
                    },
                },
            },
            _ => false,
        }
    }

    /// What a cache command does, answering `r`.
    pub open spec fn cache_post(pre: Shell, post: Shell, c: Command, r: Reply) -> bool {
        let same_cache = post.cache() == pre.cache();
        match c {
            Command::CacheInit(a, b) => match (a, b) {
                (Some(l1), Some(l2)) => if l1 >= 256 && l2 >= 256 {
                    post.cache() matches Some(cl) && fresh_cache(cl, l1, l2) && r
                        == Reply::CacheInitialized(l1, l2)
                } else {
                    same_cache && r is InvalidCacheSize
                },
                _ => same_cache && r is Silent,
            },
            Command::Usage(UsageOf::CacheInit) => same_cache && r == Reply::Usage(UsageOf::CacheInit),
            Command::Usage(UsageOf::CacheAccess) => same_cache && match pre.cache() {
                None => r is CacheNotInitialized,
                Some(_) => r == Reply::Usage(UsageOf::CacheAccess),
            },
            Command::CacheAccess(a) => match pre.cache() {
                None => same_cache && r is CacheNotInitialized,
                Some(cl) => match a {
                    None => same_cache && r is Silent,
                    Some(addr) => post.cache() matches Some(cl2) && r matches Reply::CacheAccessed(h)
                        && CacheLevel::access_post(cl, cl2, addr, h),
                },
            },
            Command::CacheStats => same_cache && match pre.cache() {
                None => r is CacheNotInitialized,
                Some(cl) => r matches Reply::CacheStats(k) && k.l1_accesses == cl.l1.accesses
                    && k.l1_hits == cl.l1.hits && k.l2_accesses == cl.l2.accesses && k.l2_hits
                    == cl.l2.hits,
            },
            _ => false,
        }
    }

    /// The command drives the paging simulation.
    pub open spec fn is_vm_command(c: Command) -> bool {
        match c {
            Command::VmInit | Command::VmAccess(_) | Command::VmStats | Command::Usage(
                UsageOf::VmAccess,
            ) => true,
            _ => false,
        }
    }

    /// The command drives the caches alone.
    pub open spec fn is_cache_command(c: Command) -> bool {
        match c {
            Command::CacheInit(_, _) | Command::CacheAccess(_) | Command::CacheStats
            | Command::Usage(UsageOf::CacheInit) | Command::Usage(UsageOf::CacheAccess) => true,
            _ => false,
        }
    }

    /// What running `c` does, answering `r`: each command touches only its own part of
    /// the machine, except that a virtual access goes on to the caches.
    pub open spec fn execute_post(pre: Shell, post: Shell, c: Command, r: Reply) -> bool {
        let same_mem = post.memory() == pre.memory();
        let same_vm = post.vm() == pre.vm();
        let same_cache = post.cache() == pre.cache();
        if Self::is_vm_command(c) {
            same_mem && Self::vm_post(pre, post, c, r)
        } else if Self::is_cache_command(c) {
            same_mem && same_vm && Self::cache_post(pre, post, c, r)
        } else {
            same_vm && same_cache && Self::memory_post(pre, post, c, r)
        }
    }

    /// A shell with no heap, address space or caches yet.
    pub fn new() -> (s: Self)
        ensures
            s.wf(),
            s.memory() is None,
            s.vm() is None,
            s.cache() is None,
    {
        Shell { allocator: None, vm: None, cache: None }
    }

    /// Whether running `c` keeps the counters it advances in range.
    pub fn can_execute(&self, c: &Command) -> (b: bool)
        requires
            self.wf(),
        ensures
            b == self.can_run(*c),
    {
        match c {
            Command::Malloc(Some(n)) => match &self.allocator {
                Some(a) => a.alloc_attempts < usize::MAX && (!a.can_fit(*n) || a.next_id < u32::MAX),
                None => true,
            },
            Command::VmAccess(Some(a)) => match &self.vm {
                Some((v, s)) => {
                    let (vpn, off) = v.split_address(*a);
                    proof {
                        lemma2_to64();
                        lemma_split_recombines(*v, *a, (vpn, off));
                    }
                    if s.timestamp == u64::MAX {
                        return false;
                    }
                    if !s.page_table.entries[vpn].valid && s.faults == usize::MAX {
                        return false;
                    }
                    let f = s.frame_for(vpn);
                    proof {
                        s.lemma_target_frame_in_range(vpn as int);
                    }
                    let pa = f * PAGE_SIZE + off;
                    match &self.cache {
                        Some(cl) => cl.can_access_exec(pa as u64),
                        None => true,
                    }
                },
                None => true,
            },
            Command::CacheAccess(Some(a)) => match &self.cache {
                Some(cl) => cl.can_access_exec(*a),
                None => true,
            },
            _ => true,
        }
    }

    /// Run one command and say what to answer.
    pub fn execute(&mut self, c: Command) -> (r: Reply)
        requires
            old(self).wf(),
            old(self).can_run(c),
        ensures
            final(self).wf(),
            Self::execute_post(*old(self), *final(self), c, r),
    {
        match c {
            Command::VmInit => self.vm_init(),
            Command::VmAccess(a) => self.vm_access(a),
            Command::VmStats => match &self.vm {
                None => Reply::VmNotInitialized,
                Some((_, s)) => Reply::VmStats(s.faults, s.replacements),
            },
            Command::Usage(UsageOf::VmAccess) => match &self.vm {
                None => Reply::VmNotInitialized,
                Some(_) => Reply::Usage(UsageOf::VmAccess),
            },
            Command::CacheInit(a, b) => match (a, b) {
                (Some(l1), Some(l2)) => if l1 >= 256 && l2 >= 256 {
                    self.cache = Some(CacheLevel::new(l1, l2, CACHE_BLOCK, CACHE_WAYS, ReplacementPolicy::LRU));
                    Reply::CacheInitialized(l1, l2)
                } else {
                    Reply::InvalidCacheSize
                },
                _ => Reply::Silent,
            },
            Command::Usage(UsageOf::CacheInit) => Reply::Usage(UsageOf::CacheInit),
            Command::Usage(UsageOf::CacheAccess) => match &self.cache {
                None => Reply::CacheNotInitialized,
                Some(_) => Reply::Usage(UsageOf::CacheAccess),
            },
            Command::CacheAccess(a) => match &mut self.cache {
                None => Reply::CacheNotInitialized,
                Some(cl) => match a {
                    None => Reply::Silent,
                    Some(addr) => Reply::CacheAccessed(cl.access(addr)),
                },
            },
            Command::CacheStats => match &self.cache {
                None => Reply::CacheNotInitialized,
                Some(cl) => Reply::CacheStats(
                    CacheCounts {
                        l1_accesses: cl.l1.accesses,
                        l1_hits: cl.l1.hits,
                        l2_accesses: cl.l2.accesses,
                        l2_hits: cl.l2.hits,
                    },
                ),
            },
            _ => self.execute_memory(c),
        }
    }

    /// `vm_init`: a fresh 32-bit address space of 4 KB pages over eight frames.
    fn vm_init(&mut self) -> (r: Reply)
        requires
            old(self).wf(),
        ensures
            final(self).wf(),
            Self::execute_post(*old(self), *final(self), Command::VmInit, r),
    {
        proof {
            lemma2_to64();
            vstd::arithmetic::logarithm::lemma_log_pow(2, 12);
            vstd::arithmetic::power2::lemma_pow2(12);
        }
        let v = VirtualMemory::new(VA_BITS, PAGE_SIZE);
        let s = VMState::new(v.num_pages, NUM_FRAMES, PageReplacementPolicy::LRU);
        self.vm = Some((v, s));
        Reply::VmInitialized
    }

    /// `vm_access a`: translate `a`, then look the physical address up in the caches.
    fn vm_access(&mut self, a: Option<u32>) -> (r: Reply)
        requires
            old(self).wf(),
            old(self).can_run(Command::VmAccess(a)),
        ensures
            final(self).wf(),
            Self::execute_post(*old(self), *final(self), Command::VmAccess(a), r),
    {
        match &mut self.vm {
            None => Reply::VmNotInitialized,
            Some((v, s)) => match a {
                None => Reply::Silent,
                Some(addr) => {
                    let (vpn, off) = v.split_address(addr);
                    proof {
                        lemma2_to64();
                        lemma_split_recombines(*v, addr, (vpn, off));
                        s.lemma_target_frame_in_range(vpn as int);
                    }
                    let fault = !s.page_table.entries[vpn].valid;
                    let pa = s.translate(vpn, off).unwrap();
                    match &mut self.cache {
                        None => Reply::Translated(pa, fault, None),
                        Some(cl) => {
                            let h = cl.access(pa as u64);
                            Reply::Translated(pa, fault, Some(h))
                        },
                    }
                },
            },
        }
    }

    /// The heap commands.
    fn execute_memory(&mut self, c: Command) -> (r: Reply)
        requires
            old(self).wf(),
            old(self).can_run(c),
            !Self::is_vm_command(c),
            !Self::is_cache_command(c),
        ensures
            final(self).wf(),
            Self::execute_post(*old(self), *final(self), c, r),
    {
        match c {
            Command::Empty => Reply::Silent,
            Command::Unknown => Reply::UnknownCommand,
            Command::Usage(u) => match u {
                UsageOf::Init => Reply::Usage(UsageOf::Init),
                UsageOf::SetAllocator => if self.allocator.is_some() {
                    Reply::Usage(UsageOf::SetAllocator)
                } else {
                    Reply::NotInitialized
                },
                UsageOf::Malloc => if self.allocator.is_some() {
                    Reply::Usage(UsageOf::Malloc)
                } else {
                    Reply::NotInitialized
                },
                UsageOf::Free => if self.allocator.is_some() {
                    Reply::Usage(UsageOf::Free)
                } else {
                    Reply::Silent
                },
                _ => Reply::Silent,
            },
            Command::Init(None) => Reply::Silent,
            Command::Init(Some(n)) => {
                self.allocator = Some(MemoryAllocator::new(n));
                Reply::Initialized(n)
            },
            Command::SetAllocator(s) => match &mut self.allocator {
                None => Reply::NotInitialized,
                Some(a) => match s {
                    None => Reply::InvalidStrategy,
                    Some(st) => {
                        a.set_strategy(st);
                        Reply::StrategyUpdated
                    },
                },
            },
            Command::Malloc(n) => match &mut self.allocator {
                None => Reply::NotInitialized,
                Some(a) => match n {
                    None => Reply::Silent,
                    Some(size) => match a.malloc(size) {
                        Some((id, addr)) => Reply::Allocated(id, addr),
                        None => Reply::AllocationFailed,
                    },
                },
            },
            Command::Free(id) => match &mut self.allocator {
                None => Reply::Silent,
                Some(a) => match id {
                    None => Reply::Silent,
                    Some(i) => if a.free(i) {
                        Reply::Freed(i)
                    } else {
                        Reply::InvalidBlockId
                    },
                },
            },
            Command::Dump => match &self.allocator {
                None => Reply::NotInitialized,
                Some(a) => Reply::Layout(a.dump()),
            },
            Command::Stats => match &self.allocator {
                None => Reply::NotInitialized,
                Some(a) => Reply::Stats(a.stats()),
            },
            _ => Reply::Silent,
        }
    }
}


/// Page number and offset of a 32-bit address under 4 KB pages.
proof fn lemma_page_and_offset(a: u32)
    ensures
        page_of(a) == a as int / 4096,
        offset_of(a) == a as int % 4096,
        page_of(a) < pow2(20),
{
    lemma2_to64();
    assert(a & 4095u32 == a % 4096) by (bit_vector);
    assert(a as int / 4096 < 0x100000) by {
        vstd::arithmetic::div_mod::lemma_div_is_ordered(a as int, 0xffffffff, 4096);
    }
}

/// A virtual access to `a` works on page `a / 4096` and keeps the offset `a % 4096`: the
/// physical address it answers is that page's frame times 4096 plus the offset, the page
/// is resident in that frame afterwards, the frame holds that page, and the access faults
/// exactly when the page was not resident before. A page already resident keeps its frame.
pub proof fn lemma_vm_access_translates_page(pre: Shell, post: Shell, a: u32, r: Reply)
    requires
        pre.wf(),
        pre.vm() is Some,
        Shell::execute_post(pre, post, Command::VmAccess(Some(a)), r),
    ensures
        match (pre.vm(), post.vm(), r) {
            (Some((v, s)), Some((v2, s2)), Reply::Translated(p, f, _)) => {
                let vpn = a as int / 4096;
                let q = p as int;
                &&& v2 == v
                &&& q % 4096 == a as int % 4096
                &&& q / 4096 < s.frames@.len()
                &&& s2.entries()[vpn].valid
                &&& s2.entries()[vpn].frame == q / 4096
                &&& q == s2.entries()[vpn].frame * 4096 + a as int % 4096
                &&& s2.frames@[q / 4096] == Some(vpn as usize)
                &&& f == !s.entries()[vpn].valid
                &&& s.entries()[vpn].valid ==> s.entries()[vpn].frame == q / 4096
            },
            _ => false,
        },
{
    let (_, s) = pre.vm()->0;
    let (_, s2) = post.vm()->0;
    lemma_page_and_offset(a);
    let vpn = a as int / 4096;
    s.lemma_target_frame_in_range(vpn);
    let t = s.target_frame(vpn);
    let off = a as int % 4096;
    let p = t * 4096 + off;
    assert(p % 4096 == off && p / 4096 == t) by {
        vstd::arithmetic::div_mod::lemma_fundamental_div_mod_converse(p, 4096, t, off);
    }
    assert(s2.entries()[vpn].frame == t);
    if s.entries()[vpn].valid {
        assert(s.frames@[t] == Some(vpn as usize));
    }
}

/// With caches present, a virtual access looks them up with the physical address it
/// answers, not the virtual one: the caches change, and the hit is reported, exactly as a
/// `cache_access` of that physical address would do.
pub proof fn lemma_vm_access_feeds_cache(pre: Shell, post: Shell, a: u32, r: Reply)
    requires
        pre.wf(),
        pre.vm() is Some,
        pre.cache() is Some,
        Shell::execute_post(pre, post, Command::VmAccess(Some(a)), r),
    ensures
        post.cache() is Some,
        match (post.vm(), r) {
            (Some((_, s2)), Reply::Translated(p, _, Some(h))) => {
                &&& p == s2.entries()[a as int / 4096].frame * 4096 + a as int % 4096
                &&& CacheLevel::access_post(pre.cache()->0, post.cache()->0, p as u64, h)
                &&& Shell::cache_post(
                    pre,
                    post,
                    Command::CacheAccess(Some(p as u64)),
                    Reply::CacheAccessed(h),
                )
            },
            _ => false,
        },
{
    lemma_vm_access_translates_page(pre, post, a, r);
}

/// `cache_init l1 l2` with both sizes at least one set's worth (256 bytes) builds a first
/// level of `l1` bytes in `l1 / 256` sets and a second level of `l2` bytes in `l2 / 256`
/// sets, both empty, and answers with the two sizes in that order.
pub proof fn lemma_cache_init_sizes(pre: Shell, post: Shell, l1: usize, l2: usize, r: Reply)
    requires
        l1 >= 256,
        l2 >= 256,
        Shell::execute_post(pre, post, Command::CacheInit(Some(l1), Some(l2)), r),
    ensures
        r == Reply::CacheInitialized(l1, l2),
        post.cache() is Some,
        post.cache()->0.l1.size == l1,
        post.cache()->0.l2.size == l2,
        post.cache()->0.l1.sets@.len() == l1 / 256,
        post.cache()->0.l2.sets@.len() == l2 / 256,
        post.cache()->0.l1.accesses == 0 && post.cache()->0.l2.accesses == 0,
        forall|b: int| 0 <= b ==> !post.cache()->0.l1.holds_block(b) && !post.cache()->0.l2.holds_block(b),
        post.memory() == pre.memory(),
        post.vm() == pre.vm(),
{
    let c = post.cache()->0;
    assert forall|b: int| 0 <= b implies !c.l1.holds_block(b) && !c.l2.holds_block(b) by {
        if c.l1.holds_block(b) {
            let n = c.l1.sets@.len() as int;
            let h = choose|h: int| 0 <= h < c.l1.lines(b % n).len() && #[trigger] c.l1.lines(b % n)[h].holds(b / n);
            assert(c.l1.lines(b % n)[h] == CacheLine::empty());
        }
        if c.l2.holds_block(b) {
            let n = c.l2.sets@.len() as int;
            let h = choose|h: int| 0 <= h < c.l2.lines(b % n).len() && #[trigger] c.l2.lines(b % n)[h].holds(b / n);
            assert(c.l2.lines(b % n)[h] == CacheLine::empty());
        }
    }
}


/// Two addresses on different 4 KB pages that are both resident never share a physical
/// address: each resident page has a frame of its own.
pub proof fn lemma_distinct_pages_distinct_addresses(s: VMState, a: u32, b: u32)
    requires
        s.wf(),
        a as int / 4096 != b as int / 4096,
        a as int / 4096 < s.entries().len(),
        b as int / 4096 < s.entries().len(),
        s.entries()[a as int / 4096].valid,
        s.entries()[b as int / 4096].valid,
    ensures
        s.entries()[a as int / 4096].frame != s.entries()[b as int / 4096].frame,
        s.entries()[a as int / 4096].frame * 4096 + a as int % 4096 != s.entries()[b as int
            / 4096].frame * 4096 + b as int % 4096,
{
    let u = a as int / 4096;
    let v = b as int / 4096;
    let fu = s.entries()[u].frame as int;
    let fv = s.entries()[v].frame as int;
    assert(s.frames@[fu] == Some(u as usize));
    assert(s.frames@[fv] == Some(v as usize));
    if fu * 4096 + a as int % 4096 == fv * 4096 + b as int % 4096 {
        let x = fu * 4096 + a as int % 4096;
        vstd::arithmetic::div_mod::lemma_fundamental_div_mod_converse(x, 4096, fu, a as int % 4096);
        vstd::arithmetic::div_mod::lemma_fundamental_div_mod_converse(x, 4096, fv, b as int % 4096);
    }
}

} // verus!
