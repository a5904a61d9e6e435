use vstd::arithmetic::logarithm::{lemma_log0, lemma_log_s, log};
use vstd::arithmetic::power2::{lemma2_to64, lemma_pow2_strictly_increases, pow2};
use vstd::bits::{lemma_u32_shr_is_div, lemma_usize_pow2_no_overflow, lemma_usize_shl_is_mul};
use vstd::prelude::*;

use super::page_table::{PageTable, PageTableEntry};
use super::replacement::PageReplacementPolicy;
use super::PAGE_SIZE;

verus! {

/// The shape of a virtual address space: its page size, its number of pages and the
/// width of the in-page offset.
pub struct VirtualMemory {
    pub page_size: usize,
    pub num_pages: usize,
    pub offset_bits: u32,
}

/// Largest `k` with `2^k <= n`, and 0 when `n <= 1`.
fn floor_log2(n: usize) -> (r: u32)
    ensures
        r == log(2, n as int),
{
    let mut r: u32 = 0;
    let mut m: usize = n;
    proof {
        lemma2_to64();
    }
    while m >= 2
        invariant
            r + log(2, m as int) == log(2, n as int),
            pow2(r as nat) * m <= n,
            r < 64,
        decreases m,
    {
        proof {
            lemma_log_s(2, m as int);
            let p = pow2(r as nat);
            assert(p * 2 <= p * m) by (nonlinear_arith)
                requires
                    m >= 2,
                    p >= 0,
            ;
            vstd::arithmetic::power2::lemma_pow2_unfold((r + 1) as nat);
            assert(pow2((r + 1) as nat) * (m / 2) <= p * m) by (nonlinear_arith)
                requires
                    pow2((r + 1) as nat) == 2 * p,
                    p >= 0,
                    m >= 0,
            ;
            if r + 1 >= 64 {
                lemma2_to64();
                if r + 1 > 64 {
                    lemma_pow2_strictly_increases(64, (r + 1) as nat);
                }
            }
        }
        m = m / 2;
        r = r + 1;
    }
    proof {
        lemma_log0(2, m as int);
    }
    r
}

impl VirtualMemory {
    /// A `va_bits`-bit address space cut into pages of `page_size` bytes: the offset takes
    /// the low `log2(page_size)` bits and the page number the rest.
    pub fn new(va_bits: u32, page_size: usize) -> (vm: Self)
        requires
            log(2, page_size as int) <= va_bits,
            va_bits - log(2, page_size as int) < usize::BITS,
        ensures
            vm.page_size == page_size,
            vm.offset_bits == log(2, page_size as int),
            vm.num_pages == pow2((va_bits - vm.offset_bits) as nat),
    {
        let offset_bits = floor_log2(page_size);
        let shift = (va_bits - offset_bits) as usize;
        proof {
            lemma_usize_pow2_no_overflow(shift as nat);
            lemma_usize_shl_is_mul(1, shift);
        }
        let num_pages: usize = 1usize << shift;
        Self { page_size, num_pages, offset_bits }
    }

    /// Split `addr` into its page number (the bits above the offset) and its offset (the
    /// bits under the page mask).
    pub fn split_address(&self, addr: u32) -> (r: (usize, usize))
        requires
            self.page_size >= 1,
            self.offset_bits < 32,
        ensures
            r.0 == addr as nat / pow2(self.offset_bits as nat),
            r.1 == (addr & ((self.page_size - 1) as u32)) as usize,
    {
        let offset_mask = (self.page_size - 1) as u32;
        let offset = (addr & offset_mask) as usize;
        proof {
            lemma_u32_shr_is_div(addr, self.offset_bits);
        }
        let vpn = (addr >> self.offset_bits) as usize;
        (vpn, offset)
    }
}

/// The paging state of one process: its page table, which page each physical frame
/// holds, a clock for LRU, and the fault count.
pub struct VMState {
    pub page_table: PageTable,
    pub frames: Vec<Option<usize>>,
    pub next_frame: usize,
    pub timestamp: u64,
    pub faults: usize,
    pub replacements: usize,
    pub policy: PageReplacementPolicy,
}

impl VMState {
    /// The page table's entries.
    pub open spec fn entries(self) -> Seq<PageTableEntry> {
        self.page_table.entries@
    }

    /// The page table and the frames agree both ways: a resident page's frame holds that
    /// very page, and an occupied frame holds a page resident in it. Replacements never
    /// outnumber faults.
    pub open spec fn wf(self) -> bool {
        &&& forall|v: int|
            0 <= v < self.entries().len() && #[trigger] self.entries()[v].valid ==> {
                &&& self.entries()[v].frame < self.frames@.len()
                &&& self.frames@[self.entries()[v].frame as int] matches Some(w) && w == v
            }
        &&& forall|f: int|
            0 <= f < self.frames@.len() && (#[trigger] self.frames@[f]) is Some ==> {
                let v = self.frames@[f]->0;
                &&& v < self.entries().len()
                &&& self.entries()[v as int].valid
                &&& self.entries()[v as int].frame == f
            }
        &&& self.replacements <= self.faults
    }

    /// Some frame is empty.
    pub open spec fn has_free_frame(self) -> bool {
        exists|f: int| 0 <= f < self.frames@.len() && (#[trigger] self.frames@[f]) is None
    }

    /// `f` is the first empty frame.
    pub open spec fn is_first_free(self, f: int) -> bool {
        &&& 0 <= f < self.frames@.len()
        &&& self.frames@[f] is None
        &&& forall|g: int| 0 <= g < f ==> (#[trigger] self.frames@[g]) is Some
    }

    /// The first empty frame.
    pub open spec fn first_free(self) -> int {
        choose|f: int| self.is_first_free(f)
    }

    /// When the page in frame `f` was last used.
    pub open spec fn age(self, f: int) -> u64 {
        self.entries()[self.frames@[f]->0 as int].last_used
    }

    /// Among the first `n` frames, `f` holds the page used least recently (the first such).
    pub open spec fn oldest_within(self, n: int, f: int) -> bool {
        &&& 0 <= f < n <= self.frames@.len()
        &&& forall|g: int| 0 <= g < n ==> self.age(f) <= #[trigger] self.age(g)
        &&& forall|g: int| 0 <= g < f ==> self.age(f) < #[trigger] self.age(g)
    }

    /// The frame LRU replacement evicts.
    pub open spec fn lru_frame(self) -> int {
        choose|f: int| self.oldest_within(self.frames@.len() as int, f)
    }

    /// The frame an access to page `vpn` ends up in: its own if resident, else the first
    /// empty frame, else the LRU victim.
    pub open spec fn target_frame(self, vpn: int) -> int {
        if self.entries()[vpn].valid {
            self.entries()[vpn].frame as int
        } else if self.has_free_frame() {
            self.first_free()
        } else {
            self.lru_frame()
        }
    }

    /// Every frame is taken and the access to `vpn` faults, so a page is evicted.
    pub open spec fn evicts(self, vpn: int) -> bool {
        !self.entries()[vpn].valid && !self.has_free_frame()
    }

    /// What `translate(vpn, offset)` does, returning `r`. On a fault with every frame
    /// taken, the page in the victim frame is evicted: its entry stops being resident.
    pub open spec fn translate_post(
        pre: VMState,
        post: VMState,
        vpn: usize,
        offset: usize,
        r: Option<usize>,
    ) -> bool {
        let e = pre.entries()[vpn as int];
        let f = pre.target_frame(vpn as int);
        let loaded = PageTableEntry { valid: true, frame: f as usize, last_used: post.timestamp };
        let u = pre.frames@[f]->0 as int;
        &&& post.timestamp == pre.timestamp + 1
        &&& post.policy == pre.policy
        &&& post.next_frame == pre.next_frame
        &&& r == Some((f * PAGE_SIZE + offset) as usize)
        &&& post.entries() == if pre.evicts(vpn as int) {
            pre.entries().update(u, PageTableEntry { valid: false, ..pre.entries()[u] }).update(
                vpn as int,
                loaded,
            )
        } else {
            pre.entries().update(vpn as int, loaded)
        }
        &&& post.frames@ == if e.valid {
            pre.frames@
        } else {
            pre.frames@.update(f, Some(vpn))
        }
        &&& post.faults == pre.faults + if e.valid {
            0int
        } else {
            1int
        }
        &&& post.replacements == pre.replacements + if pre.evicts(vpn as int) {
            1int
        } else {
            0int
        }
    }

    /// `num_pages` non-resident pages, `num_frames` empty frames.
    pub fn new(num_pages: usize, num_frames: usize, policy: PageReplacementPolicy) -> (s: Self)
        ensures
            s.wf(),
            s.entries() == Seq::new(num_pages as nat, |i: int| PageTableEntry::unmapped()),
            s.frames@ == Seq::new(num_frames as nat, |i: int| None::<usize>),
            s.next_frame == 0,
            s.timestamp == 0,
            s.faults == 0,
            s.replacements == 0,
            s.policy == policy,
    {
        let mut frames: Vec<Option<usize>> = Vec::new();
        let mut i: usize = 0;
        while i < num_frames
            invariant
                i <= num_frames,
                frames@ == Seq::new(i as nat, |k: int| None::<usize>),
            decreases num_frames - i,
        {
            frames.push(None);
            i += 1;
            assert(frames@ =~= Seq::new(i as nat, |k: int| None::<usize>));
        }
        Self {
            page_table: PageTable::new(num_pages),
            frames,
            next_frame: 0,
            timestamp: 0,
            faults: 0,
            replacements: 0,
            policy,
        }
    }

    /// The first empty frame, if any.
    fn find_free_frame(&self) -> (r: Option<usize>)
        ensures
            r matches Some(f) ==> self.is_first_free(f as int),
            r is None ==> !self.has_free_frame(),
    {
        let n = self.frames.len();
        let mut i: usize = 0;
        while i < n
            invariant
                n == self.frames@.len(),
                i <= n,
                forall|g: int| 0 <= g < i ==> (#[trigger] self.frames@[g]) is Some,
            decreases n - i,
        {
            if self.frames[i].is_none() {
                return Some(i);
            }
            i += 1;
        }
        None
    }

    /// The frame whose page was used least recently (the first such); every frame is taken.
    fn select_victim(&self) -> (victim: usize)
        requires
            self.wf(),
            self.frames@.len() > 0,
            !self.has_free_frame(),
        ensures
            self.oldest_within(self.frames@.len() as int, victim as int),
    {
        match self.policy {
            PageReplacementPolicy::LRU => {
                let mut oldest = u64::MAX;
                let mut victim: usize = 0;
                let n = self.frames.len();
                let mut i: usize = 0;
                while i < n
                    invariant
                        n == self.frames@.len(),
                        n > 0,
                        i <= n,
                        self.wf(),
                        !self.has_free_frame(),
                        i == 0 ==> victim == 0 && oldest == u64::MAX,
                        i > 0 ==> oldest == self.age(victim as int) && self.oldest_within(i as int, victim as int),
                    decreases n - i,
                {
                    assert(self.frames@[i as int] is Some);
                    if let Some(vpn) = self.frames[i] {
                        let ts = self.page_table.entries[vpn].last_used;
                        if ts < oldest {
                            oldest = ts;
                            victim = i;
                        }
                    }
                    i += 1;
                }
                victim
            },
        }
    }

    /// The frame an access to page `vpn` would end up in; lets a caller check the
    /// bound `translate` needs on the physical address.
    pub fn frame_for(&self, vpn: usize) -> (f: usize)
        requires
            self.wf(),
            vpn < self.entries().len(),
            self.frames@.len() > 0,
        ensures
            f == self.target_frame(vpn as int),
    {
        proof {
            self.lemma_target_frame_in_range(vpn as int);
        }
        if self.page_table.entries[vpn].valid {
            return self.page_table.entries[vpn].frame;
        }
        if let Some(idx) = self.find_free_frame() {
            proof {
                self.lemma_first_free_unique(idx as int);
            }
            return idx;
        }
        let victim = self.select_victim();
        proof {
            self.lemma_lru_unique(victim as int);
        }
        victim
    }

    /// Translate page `vpn` and `offset` to a physical address. A resident page is
    /// stamped; otherwise the access faults and the page is brought into the first
    /// empty frame, or, when every frame is taken, into the frame of the least recently
    /// used page, which is evicted.
    pub fn translate(&mut self, vpn: usize, offset: usize) -> (r: Option<usize>)
        requires
            old(self).wf(),
            vpn < old(self).entries().len(),
            old(self).timestamp < u64::MAX,
            !old(self).entries()[vpn as int].valid ==> old(self).faults < usize::MAX
                && old(self).frames@.len() > 0,
            old(self).target_frame(vpn as int) * PAGE_SIZE + offset <= usize::MAX,
        ensures
            final(self).wf(),
            Self::translate_post(*old(self), *final(self), vpn, offset, r),
            0 <= old(self).target_frame(vpn as int) < old(self).frames@.len(),
    {
        let ghost pre = *self;
        proof {
            if pre.entries()[vpn as int].valid {
                assert(pre.entries()[vpn as int].frame < pre.frames@.len());
            }
            pre.lemma_target_frame_in_range(vpn as int);
        }
        self.timestamp += 1;
        let now = self.timestamp;

        if self.page_table.entries[vpn].valid {
            let frame = self.page_table.entries[vpn].frame;
            self.page_table.entries[vpn].last_used = now;
            assert(self.entries() =~= pre.entries().update(
                vpn as int,
                PageTableEntry { valid: true, frame, last_used: now },
            ));
            return Some(frame * PAGE_SIZE + offset);
        }

        self.faults += 1;

        if let Some(idx) = self.find_free_frame() {
            proof {
                pre.lemma_first_free_unique(idx as int);
            }
            self.frames[idx] = Some(vpn);
            self.page_table.entries[vpn].valid = true;
            self.page_table.entries[vpn].frame = idx;
            self.page_table.entries[vpn].last_used = now;
            assert(self.entries() =~= pre.entries().update(
                vpn as int,
                PageTableEntry { valid: true, frame: idx, last_used: now },
            ));
            proof {
                self.lemma_fill_keeps_wf(pre, vpn, idx);
            }
            return Some(idx * PAGE_SIZE + offset);
        }

        let victim = self.select_victim();
        proof {
            let n = pre.frames@.len() as int;
            let v = victim as int;
            assert(self.age(v) == pre.age(v));
            assert forall|g: int| 0 <= g < n implies pre.age(v) <= #[trigger] pre.age(g) by {
                assert(self.age(g) == pre.age(g));
                assert(self.age(v) <= self.age(g));
            }
            assert forall|g: int| 0 <= g < v implies pre.age(v) < #[trigger] pre.age(g) by {
                assert(self.age(g) == pre.age(g));
                assert(self.age(v) < self.age(g));
            }
            pre.lemma_lru_unique(victim as int);
        }
        assert(self.frames@[victim as int] is Some);
        let evicted = self.frames[victim].unwrap();
        self.page_table.entries[evicted].valid = false;
        self.frames[victim] = Some(vpn);
        self.page_table.entries[vpn].valid = true;
        self.page_table.entries[vpn].frame = victim;
        self.page_table.entries[vpn].last_used = now;
        self.replacements += 1;
        proof {
            let u = evicted as int;
            assert(self.entries() =~= pre.entries().update(u, PageTableEntry { valid: false, ..pre.entries()[u] }).update(
                vpn as int,
                PageTableEntry { valid: true, frame: victim, last_used: now },
            ));
            self.lemma_replace_keeps_wf(pre, vpn, victim);
        }
        Some(victim * PAGE_SIZE + offset)
    }

    /// The frame an access ends up in is one of the frames.
    pub proof fn lemma_target_frame_in_range(self, vpn: int)
        requires
            self.wf(),
            0 <= vpn < self.entries().len(),
            self.frames@.len() > 0,
        ensures
            0 <= self.target_frame(vpn) < self.frames@.len(),
    {
        if !self.entries()[vpn].valid {
            if self.has_free_frame() {
                let f = choose|f: int| 0 <= f < self.frames@.len() && (#[trigger] self.frames@[f]) is None;
                self.lemma_first_free_exists(f);
            } else {
                self.lemma_oldest_exists(self.frames@.len() as int);
            }
        }
    }

    /// An empty frame means `first_free` names the first one.
    pub proof fn lemma_first_free_exists(self, f: int)
        requires
            0 <= f < self.frames@.len(),
            self.frames@[f] is None,
        ensures
            self.is_first_free(self.first_free()),
        decreases f,
    {
        if exists|g: int| 0 <= g < f && (#[trigger] self.frames@[g]) is None {
            let g = choose|g: int| 0 <= g < f && (#[trigger] self.frames@[g]) is None;
            self.lemma_first_free_exists(g);
        } else {
            assert(self.is_first_free(f));
        }
    }

    /// Some frame among the first `n` holds the least recently used page.
    pub proof fn lemma_oldest_exists(self, n: int)
        requires
            0 < n <= self.frames@.len(),
        ensures
            exists|f: int| self.oldest_within(n, f),
        decreases n,
    {
        if n == 1 {
            assert(self.oldest_within(n, 0));
        } else {
            let m = n - 1;
            self.lemma_oldest_exists(m);
            let f = choose|f: int| self.oldest_within(m, f);
            if self.age(m) < self.age(f) {
                assert(self.oldest_within(n, m));
            } else {
                assert(self.oldest_within(n, f));
            }
        }
    }

    /// The first empty frame is unique.
    pub proof fn lemma_first_free_unique(self, f: int)
        requires
            self.is_first_free(f),
        ensures
            self.first_free() == f,
    {
        let g = self.first_free();
        assert(self.is_first_free(g));
        if g < f {
            assert(self.frames@[g] is None);
        } else if f < g {
            assert(self.frames@[f] is None);
        }
    }

    /// The least recently used frame is unique.
    pub proof fn lemma_lru_unique(self, f: int)
        requires
            self.oldest_within(self.frames@.len() as int, f),
        ensures
            self.lru_frame() == f,
    {
        let g = self.lru_frame();
        assert(self.oldest_within(self.frames@.len() as int, g));
        assert(self.age(f) <= self.age(g));
        assert(self.age(g) <= self.age(f));
    }

    /// Loading a non-resident page into the empty frame `f` keeps the state well formed.
    proof fn lemma_fill_keeps_wf(self, pre: VMState, vpn: usize, f: usize)
        requires
            pre.wf(),
            vpn < pre.entries().len(),
            !pre.entries()[vpn as int].valid,
            f < pre.frames@.len(),
            pre.frames@[f as int] is None,
            self.frames@ == pre.frames@.update(f as int, Some(vpn)),
            self.entries() == pre.entries().update(
                vpn as int,
                PageTableEntry { valid: true, frame: f, last_used: self.timestamp },
            ),
            self.replacements == pre.replacements,
            self.faults == pre.faults + 1,
        ensures
            self.wf(),
    {
        assert forall|g: int| 0 <= g < self.frames@.len() && (#[trigger] self.frames@[g]) is Some implies {
            let v = self.frames@[g]->0;
            &&& v < self.entries().len()
            &&& self.entries()[v as int].valid
            &&& self.entries()[v as int].frame == g
        } by {
            if g != f {
                let v = pre.frames@[g]->0;
                assert(pre.entries()[v as int].valid);
                assert(self.entries()[v as int] == pre.entries()[v as int]);
            }
        }
        assert forall|v: int| 0 <= v < self.entries().len() && #[trigger] self.entries()[v].valid implies {
            &&& self.entries()[v].frame < self.frames@.len()
            &&& self.frames@[self.entries()[v].frame as int] matches Some(w) && w == v
        } by {
            if v != vpn {
                assert(self.entries()[v] == pre.entries()[v]);
                assert(pre.frames@[pre.entries()[v].frame as int] matches Some(w) && w == v);
            }
        }
    }

    /// Evicting the page in frame `f` and loading a non-resident page there keeps the
    /// state well formed.
    proof fn lemma_replace_keeps_wf(self, pre: VMState, vpn: usize, f: usize)
        requires
            pre.wf(),
            vpn < pre.entries().len(),
            !pre.entries()[vpn as int].valid,
            f < pre.frames@.len(),
            pre.frames@[f as int] is Some,
            self.frames@ == pre.frames@.update(f as int, Some(vpn)),
            self.entries() == ({
                let u = pre.frames@[f as int]->0 as int;
                pre.entries().update(u, PageTableEntry { valid: false, ..pre.entries()[u] }).update(
                    vpn as int,
                    PageTableEntry { valid: true, frame: f, last_used: self.timestamp },
                )
            }),
            self.replacements == pre.replacements + 1,
            self.faults == pre.faults + 1,
        ensures
            self.wf(),
    {
        let u = pre.frames@[f as int]->0 as int;
        assert(pre.entries()[u].valid);
        assert(u != vpn);
        assert forall|g: int| 0 <= g < self.frames@.len() && (#[trigger] self.frames@[g]) is Some implies {
            let v = self.frames@[g]->0;
            &&& v < self.entries().len()
            &&& self.entries()[v as int].valid
            &&& self.entries()[v as int].frame == g
        } by {
            if g != f {
                let v = pre.frames@[g]->0 as int;
                assert(pre.entries()[v].valid && pre.entries()[v].frame == g);
                assert(v != u);
                assert(v != vpn);
                assert(self.entries()[v] == pre.entries()[v]);
            }
        }
        assert forall|v: int| 0 <= v < self.entries().len() && #[trigger] self.entries()[v].valid implies {
            &&& self.entries()[v].frame < self.frames@.len()
            &&& self.frames@[self.entries()[v].frame as int] matches Some(w) && w == v
        } by {
            if v != vpn {
                assert(v != u);
                assert(self.entries()[v] == pre.entries()[v]);
                let g = pre.entries()[v].frame as int;
                assert(pre.frames@[g] matches Some(w) && w == v);
                if g == f {
                    assert(v == u);
                }
            }
        }
    }
}

/// With a power-of-two page size, an address is its page number times the page size plus
/// its offset, the offset lies inside the page, and in a 32-bit space the page number is
/// below the number of pages.
pub proof fn lemma_split_recombines(vm: VirtualMemory, addr: u32, r: (usize, usize))
    requires
        vm.offset_bits < 32,
        vm.page_size == pow2(vm.offset_bits as nat),
        r.0 == addr as nat / pow2(vm.offset_bits as nat),
        r.1 == (addr & ((vm.page_size - 1) as u32)) as usize,
    ensures
        r.0 * vm.page_size + r.1 == addr,
        r.1 < vm.page_size,
        r.0 < pow2((32 - vm.offset_bits) as nat),
{
    let k = vm.offset_bits as nat;
    let p = pow2(k) as int;
    vstd::bits::lemma_u32_pow2_no_overflow(k);
    vstd::bits::lemma_u32_low_bits_mask_is_mod(addr, k);
    assert((vm.page_size - 1) as u32 == vstd::bits::low_bits_mask(k) as u32);
    assert(pow2(k) as u32 == p);
    vstd::arithmetic::div_mod::lemma_fundamental_div_mod(addr as int, p);
    vstd::arithmetic::div_mod::lemma_mod_bound(addr as int, p);
    vstd::arithmetic::mul::lemma_mul_is_commutative(p, r.0 as int);
    vstd::arithmetic::power2::lemma_pow2_adds(k, (32 - k) as nat);
    lemma2_to64();
    vstd::arithmetic::div_mod::lemma_multiply_divide_lt(addr as int, p, pow2((32 - k) as nat) as int);
}

/// A page just translated is resident: translating it again does not fault, leaves the
/// frames as they are, and lands in the same frame.
pub proof fn lemma_repeat_translation_no_fault(
    s0: VMState,
    s1: VMState,
    s2: VMState,
    vpn: usize,
    o1: usize,
    o2: usize,
    r1: Option<usize>,
    r2: Option<usize>,
)
    requires
        vpn < s0.entries().len(),
        VMState::translate_post(s0, s1, vpn, o1, r1),
        VMState::translate_post(s1, s2, vpn, o2, r2),
        s0.wf(),
        0 < s0.frames@.len() <= usize::MAX,
    ensures
        s2.faults == s1.faults,
        s2.frames@ == s1.frames@,
        s1.target_frame(vpn as int) == s0.target_frame(vpn as int),
        r1 == Some((s0.target_frame(vpn as int) * PAGE_SIZE + o1) as usize),
        r2 == Some((s0.target_frame(vpn as int) * PAGE_SIZE + o2) as usize),
{
    s0.lemma_target_frame_in_range(vpn as int);
    assert(s1.entries()[vpn as int].valid);
}

} // verus!
