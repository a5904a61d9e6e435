use vstd::prelude::*;

use crate::memory::layout::{
    allocated_blocks, choice, coalesced, contiguous, free_blocks_unowned, free_bytes, has_fit,
    ids_below, ids_distinct, is_allocated, largest_free, lemma_bounds, lemma_choice,
    lemma_coalesced, lemma_largest_free_le_free, lemma_largest_free_is_largest, lemma_ordered, lemma_owner, lemma_pick_exists,
    lemma_place, lemma_place_used, lemma_rank, lemma_release, lemma_release_after_place,
    lemma_release_contiguous, lemma_release_used, lemma_size_sum_extent, lemma_used_le_size_sum,
    lemma_used_plus_free, merge, no_adjacent_free, owner, picks, place, rank, release, tiles,
    used_bytes,
};

verus! {

/// One entry of the heap layout: `size` bytes from `start`, free or owned by `id`.
#[derive(Clone, Debug)]
pub struct Block {
    pub start: usize,
    pub size: usize,
    pub free: bool,
    pub id: Option<u32>,
}

/// How `malloc` picks among the free blocks that are large enough.
#[derive(Clone, Copy, Debug, PartialEq, Eq, Structural)]
pub enum AllocationStrategy {
    FirstFit,
    BestFit,
    WorstFit,
}

/// A free-list allocator over a simulated heap of `total` bytes.
pub struct MemoryAllocator {
    pub total: usize,
    pub blocks: Vec<Block>,
    pub strategy: AllocationStrategy,
    pub next_id: u32,
    pub alloc_attempts: usize,
    pub alloc_success: usize,
}

/// The figures behind the allocator's statistics.
pub struct MemoryStats {
    pub total: usize,
    pub used: usize,
    pub free: usize,
    pub largest_free: usize,
    pub alloc_attempts: usize,
    pub alloc_success: usize,
}

impl Block {
    /// First byte past the block.
    pub open spec fn end(self) -> int {
        self.start + self.size
    }

    /// The block can serve a request of `size` bytes.
    pub open spec fn fits(self, size: usize) -> bool {
        self.free && self.size >= size
    }
}

impl MemoryAllocator {
    /// The layout tiles the heap, no two free blocks touch, free blocks carry no id,
    /// blocks in use carry distinct ids below `next_id`, and successes never exceed attempts.
    pub open spec fn wf(&self) -> bool {
        let s = self.blocks@;
        let a = allocated_blocks(s);
        &&& tiles(s, self.total as int)
        &&& no_adjacent_free(s)
        &&& free_blocks_unowned(s)
        &&& ids_below(a, self.next_id as int)
        &&& ids_distinct(a)
        &&& self.alloc_success <= self.alloc_attempts
    }

    /// What `malloc(size)` does, returning `r`.
    pub open spec fn malloc_post(
        pre: MemoryAllocator,
        post: MemoryAllocator,
        size: usize,
        r: Option<(u32, usize)>,
    ) -> bool {
        &&& post.total == pre.total
        &&& post.strategy == pre.strategy
        &&& post.alloc_attempts == pre.alloc_attempts + 1
        &&& if has_fit(pre.blocks@, size) {
            let c = choice(pre.blocks@, size, pre.strategy);
            &&& r == Some((pre.next_id, pre.blocks@[c].start))
            &&& post.blocks@ == place(pre.blocks@, c, size, pre.next_id)
            &&& post.next_id == pre.next_id + 1
            &&& post.alloc_success == pre.alloc_success + 1
        } else {
            &&& r is None
            &&& post.blocks@ == pre.blocks@
            &&& post.next_id == pre.next_id
            &&& post.alloc_success == pre.alloc_success
        }
    }

    /// What `free(id)` does, returning `r`.
    pub open spec fn free_post(pre: MemoryAllocator, post: MemoryAllocator, id: u32, r: bool) -> bool {
        &&& post.total == pre.total
        &&& post.strategy == pre.strategy
        &&& post.next_id == pre.next_id
        &&& post.alloc_attempts == pre.alloc_attempts
        &&& post.alloc_success == pre.alloc_success
        &&& r == is_allocated(pre.blocks@, id)
        &&& if r {
            post.blocks@ == coalesced(release(pre.blocks@, owner(pre.blocks@, id)))
        } else {
            post.blocks@ == pre.blocks@
        }
    }

    /// A heap of `size` bytes made of one free block, using first fit.
    pub fn new(size: usize) -> (a: Self)
        ensures
            a.wf(),
            a.total == size,
            a.blocks@ == seq![Block { start: 0, size, free: true, id: None }],
            a.strategy == AllocationStrategy::FirstFit,
            a.next_id == 1,
            a.alloc_attempts == 0,
            a.alloc_success == 0,
    {
        let mut blocks = Vec::new();
        blocks.push(Block { start: 0, size, free: true, id: None });
        let a = Self {
            total: size,
            blocks,
            strategy: AllocationStrategy::FirstFit,
            next_id: 1,
            alloc_attempts: 0,
            alloc_success: 0,
        };
        proof {
            let s = a.blocks@;
            assert(s.drop_last() =~= Seq::<Block>::empty());
            assert(allocated_blocks(s.drop_last()) =~= Seq::<Block>::empty());
            assert(allocated_blocks(s) =~= Seq::<Block>::empty());
        }
        a
    }

    /// The block `malloc(size)` would use, searching in address order.
    fn pick(&self, size: usize) -> (r: Option<usize>)
        ensures
            r matches Some(c) ==> picks(self.blocks@, self.blocks@.len() as int, size, self.strategy, c as int),
            r is None ==> !has_fit(self.blocks@, size),
    {
        let mut candidate: Option<usize> = None;
        let n = self.blocks.len();
        let mut i: usize = 0;
        while i < n
            invariant
                n == self.blocks@.len(),
                i <= n,
                candidate matches Some(c) ==> picks(self.blocks@, i as int, size, self.strategy, c as int),
                candidate is None ==> forall|j: int| 0 <= j < i ==> !#[trigger] self.blocks@[j].fits(size),
                self.strategy == AllocationStrategy::FirstFit ==> candidate is None,
            decreases n - i,
        {
            let b = &self.blocks[i];
            if b.free && b.size >= size {
                match self.strategy {
                    AllocationStrategy::FirstFit => {
                        return Some(i);
                    },
                    AllocationStrategy::BestFit => {
                        if let Some(ci) = candidate {
                            if b.size < self.blocks[ci].size {
                                candidate = Some(i);
                            }
                        } else {
                            candidate = Some(i);
                        }
                    },
                    AllocationStrategy::WorstFit => {
                        if let Some(ci) = candidate {
                            if b.size > self.blocks[ci].size {
                                candidate = Some(i);
                            }
                        } else {
                            candidate = Some(i);
                        }
                    },
                }
            }
            i += 1;
        }
        candidate
    }

    /// Allocate `size` bytes with the current strategy: on success the chosen free block
    /// is split (or used whole on an exact fit) and the new id and start address returned.
    pub fn malloc(&mut self, size: usize) -> (r: Option<(u32, usize)>)
        requires
            old(self).wf(),
            old(self).alloc_attempts < usize::MAX,
            has_fit(old(self).blocks@, size) ==> old(self).next_id < u32::MAX,
        ensures
            final(self).wf(),
            Self::malloc_post(*old(self), *final(self), size, r),
            r matches Some((id, start)) ==> start + size <= final(self).total,
            r is Some ==> used_bytes(final(self).blocks@) == used_bytes(old(self).blocks@) + size,
    {
        self.alloc_attempts += 1;
        let i = match self.pick(size) {
            Some(i) => i,
            None => return None,
        };
        let ghost s = self.blocks@;
        proof {
            lemma_choice(s, size, self.strategy, i as int);
            lemma_bounds(s);
            lemma_place(s, i as int, size, self.next_id, self.total as int);
            lemma_place_used(s, i as int, size, self.next_id);
        }
        let start = self.blocks[i].start;
        let bsize = self.blocks[i].size;
        let id = self.next_id;
        self.next_id += 1;
        if bsize == size {
            self.blocks[i].free = false;
            self.blocks[i].id = Some(id);
            assert(self.blocks@ =~= place(s, i as int, size, id));
        } else {
            let new_block = Block { start, size, free: false, id: Some(id) };
            let remainder = Block { start: start + size, size: bsize - size, free: true, id: None };
            self.blocks.remove(i);
            self.blocks.insert(i, new_block);
            assert(i < self.blocks.len());
            self.blocks.insert(i + 1, remainder);
            assert(self.blocks@ =~= place(s, i as int, size, id));
        }
        self.alloc_success += 1;
        Some((id, start))
    }

    /// The first block in use that carries `id`, if any.
    fn find_owner(&self, id: u32) -> (r: Option<usize>)
        ensures
            r is None ==> !is_allocated(self.blocks@, id),
            r matches Some(i) ==> i < self.blocks@.len() && !self.blocks@[i as int].free
                && self.blocks@[i as int].id == Some(id),
    {
        let n = self.blocks.len();
        let mut i: usize = 0;
        while i < n
            invariant
                n == self.blocks@.len(),
                i <= n,
                forall|j: int| 0 <= j < i ==> !(!#[trigger] self.blocks@[j].free && self.blocks@[j].id == Some(id)),
            decreases n - i,
        {
            let b = &self.blocks[i];
            if !b.free && b.id == Some(id) {
                return Some(i);
            }
            i += 1;
        }
        None
    }

    /// Release the block that carries `id` and merge free neighbours; false when no
    /// block in use carries `id`.
    pub fn free(&mut self, id: u32) -> (r: bool)
        requires
            old(self).wf(),
        ensures
            final(self).wf(),
            Self::free_post(*old(self), *final(self), id, r),
            !is_allocated(final(self).blocks@, id),
            r ==> used_bytes(final(self).blocks@) == used_bytes(old(self).blocks@) - old(
                self,
            ).blocks@[owner(old(self).blocks@, id)].size,
    {
        let i = match self.find_owner(id) {
            Some(v) => v,
            None => return false,
        };
        let ghost s = self.blocks@;
        proof {
            lemma_owner(s, i as int, id);
            lemma_release(s, i as int, id, self.total as int, self.next_id as int);
            lemma_release_used(s, i as int);
        }
        self.blocks[i].free = true;
        self.blocks[i].id = None;
        assert(self.blocks@ =~= release(s, i as int));
        proof {
            lemma_release_contiguous(s, i as int);
        }
        self.coalesce();
        true
    }

    /// Merge every run of neighbouring free blocks into one block.
    fn coalesce(&mut self)
        requires
            old(self).blocks@.len() > 0,
            contiguous(old(self).blocks@),
            old(self).blocks@.last().end() <= usize::MAX,
        ensures
            final(self).blocks@ == coalesced(old(self).blocks@),
            final(self).total == old(self).total,
            final(self).strategy == old(self).strategy,
            final(self).next_id == old(self).next_id,
            final(self).alloc_attempts == old(self).alloc_attempts,
            final(self).alloc_success == old(self).alloc_success,
    {
        let ghost orig = self.blocks@;
        let ghost mut k: int = 1;
        proof {
            assert(orig.take(1).drop_last() =~= Seq::<Block>::empty());
            assert(coalesced(Seq::<Block>::empty()) =~= Seq::<Block>::empty());
            assert(coalesced(orig.take(1)) =~= orig.take(1));
            assert(self.blocks@ =~= orig.take(1) + orig.skip(1));
            lemma_bounds(orig);
        }
        let mut i: usize = 0;
        while i < self.blocks.len() - 1
            invariant
                orig.len() > 0,
                contiguous(orig),
                orig.last().end() <= usize::MAX,
                1 <= k <= orig.len(),
                self.blocks@ == coalesced(orig.take(k)) + orig.skip(k),
                i + 1 == coalesced(orig.take(k)).len(),
                self.total == old(self).total,
                self.strategy == old(self).strategy,
                self.next_id == old(self).next_id,
                self.alloc_attempts == old(self).alloc_attempts,
                self.alloc_success == old(self).alloc_success,
            decreases orig.len() - k,
        {
            let ghost c = coalesced(orig.take(k));
            proof {
                let p = orig.take(k);
                assert forall|a: int, b: int| 0 <= a && b == a + 1 && b < p.len() implies #[trigger] p[b].start
                    == #[trigger] p[a].end() by {
                    assert(orig[b].start == orig[a].end());
                }
                lemma_bounds(orig);
                assert(p.last() == orig[k - 1]);
                lemma_coalesced(p);
                assert(self.blocks@[i as int] == c.last());
                assert(self.blocks@[i as int + 1] == orig[k]);
                assert(orig[k].start == orig[k - 1].end());
                assert(orig.take(k + 1).drop_last() =~= p);
                assert(orig.take(k + 1).last() == orig[k]);
            }
            if self.blocks[i].free && self.blocks[i + 1].free {
                let sz = self.blocks[i].size + self.blocks[i + 1].size;
                self.blocks[i].size = sz;
                self.blocks.remove(i + 1);
                proof {
                    assert(coalesced(orig.take(k + 1)) == c.update(c.len() - 1, merge(c.last(), orig[k])));
                    assert(self.blocks@ =~= coalesced(orig.take(k + 1)) + orig.skip(k + 1));
                    k = k + 1;
                }
            } else {
                proof {
                    assert(coalesced(orig.take(k + 1)) == c.push(orig[k]));
                    assert(self.blocks@ =~= coalesced(orig.take(k + 1)) + orig.skip(k + 1));
                    k = k + 1;
                }
                i += 1;
            }
        }
        proof {
            assert(k == orig.len());
            assert(orig.take(orig.len() as int) =~= orig);
        }
    }

    /// Bytes in use and free, the largest free block, and the allocation counters.
    pub fn stats(&self) -> (st: MemoryStats)
        requires
            self.wf(),
        ensures
            st.total == self.total,
            st.used == used_bytes(self.blocks@),
            st.free == self.total - used_bytes(self.blocks@),
            st.free == free_bytes(self.blocks@),
            st.largest_free == largest_free(self.blocks@),
            st.largest_free <= st.free,
            forall|i: int|
                0 <= i < self.blocks@.len() && (#[trigger] self.blocks@[i]).free
                    ==> self.blocks@[i].size <= st.largest_free,
            (exists|i: int| 0 <= i < self.blocks@.len() && (#[trigger] self.blocks@[i]).free)
                ==> exists|i: int|
                0 <= i < self.blocks@.len() && (#[trigger] self.blocks@[i]).free
                    && self.blocks@[i].size == st.largest_free,
            (forall|i: int| 0 <= i < self.blocks@.len() ==> !(#[trigger] self.blocks@[i]).free)
                ==> st.largest_free == 0,
            st.alloc_attempts == self.alloc_attempts,
            st.alloc_success == self.alloc_success,
    {
        let ghost s = self.blocks@;
        proof {
            lemma_bounds(s);
        }
        let n = self.blocks.len();
        let mut used: usize = 0;
        let mut max_free: usize = 0;
        let mut i: usize = 0;
        assert(s.take(0) =~= Seq::<Block>::empty());
        while i < n
            invariant
                s == self.blocks@,
                n == s.len(),
                i <= n,
                self.wf(),
                forall|k: int| 0 <= k < s.len() ==> #[trigger] s[k].end() <= self.total,
                used == used_bytes(s.take(i as int)),
                max_free == largest_free(s.take(i as int)),
            decreases n - i,
        {
            let b = &self.blocks[i];
            proof {
                let p = s.take(i + 1);
                assert(p.drop_last() =~= s.take(i as int));
                assert(p.last() == s[i as int]);
                assert forall|a: int, c: int| 0 <= a && c == a + 1 && c < p.len() implies #[trigger] p[c].start
                    == #[trigger] p[a].end() by {
                    assert(s[c].start == s[a].end());
                }
                lemma_size_sum_extent(p);
                lemma_used_le_size_sum(p);
                if !s[i as int].free {
                    assert(allocated_blocks(s.take(i as int)).push(s[i as int]).drop_last()
                        =~= allocated_blocks(s.take(i as int)));
                }
            }
            if !b.free {
                used = used + b.size;
            } else if b.size > max_free {
                max_free = b.size;
            }
            i += 1;
        }
        proof {
            assert(s.take(n as int) =~= s);
            lemma_size_sum_extent(s);
            lemma_used_le_size_sum(s);
            lemma_used_plus_free(s);
            lemma_largest_free_le_free(s);
            lemma_largest_free_is_largest(s);
        }
        MemoryStats {
            total: self.total,
            used,
            free: self.total - used,
            largest_free: max_free,
            alloc_attempts: self.alloc_attempts,
            alloc_success: self.alloc_success,
        }
    }

    /// A copy of the layout, in address order.
    pub fn dump(&self) -> (v: Vec<Block>)
        ensures
            v@ == self.blocks@,
    {
        let mut v: Vec<Block> = Vec::new();
        let n = self.blocks.len();
        let mut i: usize = 0;
        while i < n
            invariant
                n == self.blocks@.len(),
                i <= n,
                v@ == self.blocks@.take(i as int),
            decreases n - i,
        {
            let b = &self.blocks[i];
            v.push(Block { start: b.start, size: b.size, free: b.free, id: b.id });
            i += 1;
            assert(v@ =~= self.blocks@.take(i as int));
        }
        assert(self.blocks@.take(n as int) =~= self.blocks@);
        v
    }

    /// Some free block can serve `size` bytes.
    pub fn can_fit(&self, size: usize) -> (b: bool)
        ensures
            b == has_fit(self.blocks@, size),
    {
        match self.pick(size) {
            Some(c) => {
                assert(self.blocks@[c as int].fits(size));
                true
            },
            None => false,
        }
    }

    /// Use `s` for the allocations that follow.
    pub fn set_strategy(&mut self, s: AllocationStrategy)
        requires
            old(self).wf(),
        ensures
            final(self).wf(),
            final(self).strategy == s,
            final(self).total == old(self).total,
            final(self).blocks@ == old(self).blocks@,
            final(self).next_id == old(self).next_id,
            final(self).alloc_attempts == old(self).alloc_attempts,
            final(self).alloc_success == old(self).alloc_success,
    {
        self.strategy = s;
    }
}

// ---------------------------------------------------------------------------
// Laws of the allocator
// ---------------------------------------------------------------------------

/// Blocks never overlap: in a well-formed allocator each block ends no later than the
/// next one begins.
pub proof fn lemma_blocks_disjoint(a: MemoryAllocator)
    requires
        a.wf(),
    ensures
        forall|i: int, j: int|
            0 <= i < j < a.blocks@.len() ==> #[trigger] a.blocks@[i].end() <= #[trigger] a.blocks@[j].start,
{
    lemma_ordered(a.blocks@);
}

/// Freeing what `malloc` just handed out gives back exactly the layout from before the
/// allocation: the split block is merged again.
pub proof fn lemma_free_undoes_malloc(
    a0: MemoryAllocator,
    a1: MemoryAllocator,
    a2: MemoryAllocator,
    size: usize,
    id: u32,
    start: usize,
    r: bool,
)
    requires
        a0.wf(),
        a0.next_id < u32::MAX,
        MemoryAllocator::malloc_post(a0, a1, size, Some((id, start))),
        MemoryAllocator::free_post(a1, a2, id, r),
    ensures
        r,
        a2.blocks@ == a0.blocks@,
{
    let s = a0.blocks@;
    lemma_pick_exists(s, s.len() as int, size, a0.strategy);
    let c = choice(s, size, a0.strategy);
    lemma_place(s, c, size, id, a0.total as int);
    let t = place(s, c, size, id);
    assert(t[c].id == Some(id) && !t[c].free);
    lemma_owner(t, c, id);
    lemma_release_after_place(s, c, size, id, a0.total as int);
}

/// An id can be freed only once: after a successful `free(id)`, freeing `id` again fails.
pub proof fn lemma_double_free_refused(
    a0: MemoryAllocator,
    a1: MemoryAllocator,
    a2: MemoryAllocator,
    id: u32,
    r: bool,
)
    requires
        a0.wf(),
        MemoryAllocator::free_post(a0, a1, id, true),
        MemoryAllocator::free_post(a1, a2, id, r),
    ensures
        !r,
        a2.blocks@ == a1.blocks@,
{
    let s = a0.blocks@;
    let i = choose|i: int| 0 <= i < s.len() && !s[i].free && s[i].id == Some(id);
    lemma_owner(s, i, id);
    lemma_release(s, i, id, a0.total as int, a0.next_id as int);
}

/// Whenever some free block is large enough, `malloc` succeeds, and the block it hands
/// out lies inside the heap, starts where the chosen free block started and is owned by
/// the fresh id.
pub proof fn lemma_malloc_succeeds_on_fit(
    a0: MemoryAllocator,
    a1: MemoryAllocator,
    size: usize,
    r: Option<(u32, usize)>,
)
    requires
        a0.wf(),
        MemoryAllocator::malloc_post(a0, a1, size, r),
        has_fit(a0.blocks@, size),
    ensures
        r == Some((a0.next_id, (r->0).1)),
        (r->0).1 + size <= a0.total,
        is_allocated(a1.blocks@, a0.next_id),
        !is_allocated(a0.blocks@, a0.next_id),
{
    let s = a0.blocks@;
    lemma_pick_exists(s, s.len() as int, size, a0.strategy);
    let c = choice(s, size, a0.strategy);
    lemma_bounds(s);
    lemma_place(s, c, size, a0.next_id, a0.total as int);
    let t = place(s, c, size, a0.next_id);
    assert(!t[c].free && t[c].id == Some(a0.next_id));
    if is_allocated(s, a0.next_id) {
        let k = choose|k: int| 0 <= k < s.len() && !s[k].free && s[k].id == Some(a0.next_id);
        lemma_rank(s, k);
        assert(allocated_blocks(s)[rank(s, k)].id->0 < a0.next_id);
    }
}


/// A successful `malloc` hands out the front of a free block of at least `size` bytes,
/// chosen by the strategy: under first fit no earlier free block is large enough; under
/// best fit no large-enough free block is smaller, and none before it is as small; under
/// worst fit no large-enough free block is larger, and none before it is as large. The
/// new block in use starts there, holds `size` bytes and carries the fresh id.
pub proof fn lemma_malloc_follows_strategy(
    a0: MemoryAllocator,
    a1: MemoryAllocator,
    size: usize,
    id: u32,
    start: usize,
)
    requires
        a0.wf(),
        MemoryAllocator::malloc_post(a0, a1, size, Some((id, start))),
    ensures
        id == a0.next_id,
        exists|c: int|
            #![trigger a0.blocks@[c]]
            0 <= c < a0.blocks@.len() && a0.blocks@[c].start == start && a0.blocks@[c].free
                && a0.blocks@[c].size >= size && match a0.strategy {
                AllocationStrategy::FirstFit => forall|j: int|
                    0 <= j < c ==> !((#[trigger] a0.blocks@[j]).free && a0.blocks@[j].size >= size),
                AllocationStrategy::BestFit => forall|j: int|
                    0 <= j < a0.blocks@.len() && (#[trigger] a0.blocks@[j]).free
                        && a0.blocks@[j].size >= size ==> a0.blocks@[c].size <= a0.blocks@[j].size
                        && (j < c ==> a0.blocks@[c].size < a0.blocks@[j].size),
                AllocationStrategy::WorstFit => forall|j: int|
                    0 <= j < a0.blocks@.len() && (#[trigger] a0.blocks@[j]).free
                        && a0.blocks@[j].size >= size ==> a0.blocks@[c].size >= a0.blocks@[j].size
                        && (j < c ==> a0.blocks@[c].size > a0.blocks@[j].size),
            },
        exists|k: int|
            0 <= k < a1.blocks@.len() && #[trigger] a1.blocks@[k] == (Block {
                start,
                size,
                free: false,
                id: Some(id),
            }),
{
    let s = a0.blocks@;
    if !has_fit(s, size) {
        assert(false);
    }
    lemma_pick_exists(s, s.len() as int, size, a0.strategy);
    let c = choice(s, size, a0.strategy);
    assert(picks(s, s.len() as int, size, a0.strategy, c));
    assert(s[c].fits(size));
    match a0.strategy {
        AllocationStrategy::FirstFit => {
            assert forall|j: int| 0 <= j < c implies !((#[trigger] s[j]).free && s[j].size >= size) by {
                assert(!s[j].fits(size));
            }
        },
        AllocationStrategy::BestFit => {
            assert forall|j: int|
                0 <= j < s.len() && (#[trigger] s[j]).free && s[j].size >= size implies s[c].size
                <= s[j].size && (j < c ==> s[c].size < s[j].size) by {
                assert(s[j].fits(size));
            }
        },
        AllocationStrategy::WorstFit => {
            assert forall|j: int|
                0 <= j < s.len() && (#[trigger] s[j]).free && s[j].size >= size implies s[c].size
                >= s[j].size && (j < c ==> s[c].size > s[j].size) by {
                assert(s[j].fits(size));
            }
        },
    }
    let t = place(s, c, size, id);
    assert(t[c] == Block { start, size, free: false, id: Some(id) });
    assert(0 <= c < t.len());
}

} // verus!
