use vstd::prelude::*;

use super::cache::{lemma_access_blocks, lemma_invalidate_blocks, lemma_tag_in_range};
use super::{Cache, CacheLine, ReplacementPolicy};

verus! {

/// An L1 cache backed by an inclusive L2 cache: every block L1 holds, L2 holds too.
pub struct CacheLevel {
    pub l1: Cache,
    pub l2: Cache,
}

impl CacheLevel {
    /// Every block L1 holds, L2 holds.
    pub open spec fn inclusive(self) -> bool {
        forall|b: int| 0 <= b && #[trigger] self.l1.holds_block(b) ==> self.l2.holds_block(b)
    }

    /// Both caches are well formed, share their block size, and the hierarchy is inclusive.
    pub open spec fn wf(self) -> bool {
        &&& self.l1.wf()
        &&& self.l2.wf()
        &&& self.l1.block_size == self.l2.block_size
        &&& self.inclusive()
    }

    /// What `access(addr)` does, returning `hit`: L1 is looked up; on a miss L2 is looked
    /// up too, and the block L2 evicts, if any, is dropped from L1.
    pub open spec fn access_post(pre: CacheLevel, post: CacheLevel, addr: u64, hit: bool) -> bool {
        &&& hit == pre.l1.would_hit(addr)
        &&& hit ==> Cache::access_post(pre.l1, post.l1, addr, true) && post.l2 == pre.l2
        &&& !hit ==> Cache::access_post(pre.l2, post.l2, addr, pre.l2.would_hit(addr))
        &&& !hit ==> exists|m: Cache|
            #![trigger Cache::access_post(pre.l1, m, addr, false)]
            Cache::access_post(pre.l1, m, addr, false) && match pre.l2.evicted_by(addr) {
                None => post.l1 == m,
                Some(x) => Cache::invalidate_post(m, post.l1, x),
            }
    }

    /// The requirements of `access(addr)`: the sets it looks in exist and the counters it
    /// advances are below their maxima.
    pub open spec fn can_access(self, addr: u64) -> bool {
        &&& self.l1.sets@.len() > 0
        &&& self.l1.accesses < usize::MAX
        &&& self.l1.timestamp < u64::MAX
        &&& !self.l1.would_hit(addr) ==> self.l2.sets@.len() > 0 && self.l2.accesses < usize::MAX
            && self.l2.timestamp < u64::MAX
    }

    /// Whether `access(addr)` may be called.
    pub fn can_access_exec(&self, addr: u64) -> (b: bool)
        requires
            self.wf(),
        ensures
            b == self.can_access(addr),
    {
        if self.l1.sets.len() == 0 || self.l1.accesses == usize::MAX || self.l1.timestamp == u64::MAX {
            return false;
        }
        if self.l1.probe(addr) {
            return true;
        }
        self.l2.sets.len() > 0 && self.l2.accesses < usize::MAX && self.l2.timestamp < u64::MAX
    }

    /// Two caches of the same geometry and policy, of `l1_size` and `l2_size` bytes.
    pub fn new(l1_size: usize, l2_size: usize, block_size: usize, assoc: usize, policy: ReplacementPolicy) -> (c: Self)
        requires
            block_size * assoc > 0,
            block_size * assoc <= usize::MAX,
        ensures
            c.wf(),
            c.l1.size == l1_size,
            c.l2.size == l2_size,
            c.l1.block_size == block_size && c.l2.block_size == block_size,
            c.l1.associativity == assoc && c.l2.associativity == assoc,
            c.l1.policy == policy && c.l2.policy == policy,
            c.l1.sets@.len() == l1_size as int / (block_size * assoc),
            c.l2.sets@.len() == l2_size as int / (block_size * assoc),
            c.l1.accesses == 0 && c.l1.hits == 0 && c.l1.timestamp == 0,
            c.l2.accesses == 0 && c.l2.hits == 0 && c.l2.timestamp == 0,
            forall|i: int, j: int|
                0 <= i < c.l1.sets@.len() && 0 <= j < assoc ==> #[trigger] c.l1.lines(i)[j]
                    == CacheLine::empty(),
            forall|i: int, j: int|
                0 <= i < c.l2.sets@.len() && 0 <= j < assoc ==> #[trigger] c.l2.lines(i)[j]
                    == CacheLine::empty(),
    {
        let c = Self {
            l1: Cache::new(l1_size, block_size, assoc, policy),
            l2: Cache::new(l2_size, block_size, assoc, policy),
        };
        assert forall|b: int| 0 <= b && #[trigger] c.l1.holds_block(b) implies c.l2.holds_block(b) by {
            let n = c.l1.sets@.len() as int;
            assert(n > 0);
            let h = choose|h: int|
                0 <= h < c.l1.lines(b % n).len() && #[trigger] c.l1.lines(b % n)[h].holds(b / n);
            vstd::arithmetic::div_mod::lemma_mod_bound(b, n);
            assert(c.l1.lines(b % n)[h] == CacheLine::empty());
        }
        c
    }

    /// Look `addr` up in L1, and in L2 only when L1 misses. A block L2 evicts is dropped
    /// from L1 too, so the hierarchy stays inclusive. Returns whether L1 hit.
    pub fn access(&mut self, addr: u64) -> (hit: bool)
        requires
            old(self).wf(),
            old(self).can_access(addr),
        ensures
            final(self).wf(),
            Self::access_post(*old(self), *final(self), addr, hit),
    {
        let ghost pre = *self;
        if self.l1.access(addr) {
            proof {
                lemma_access_blocks(pre.l1, self.l1, addr, true);
                assert forall|b: int| 0 <= b && #[trigger] self.l1.holds_block(b) implies self.l2.holds_block(b) by {
                    assert(pre.l1.holds_block(b));
                }
            }
            return true;
        }
        let ghost mid = self.l1;
        let evicted = self.l2.evicted_by_access(addr);
        let l2_hit = self.l2.access(addr);
        let ghost l2_mid = self.l2;
        if let Some(x) = evicted {
            self.l1.invalidate_block(x);
        }
        proof {
            lemma_access_blocks(pre.l1, mid, addr, false);
            lemma_access_blocks(pre.l2, self.l2, addr, l2_hit);
            lemma_tag_in_range(pre.l1, addr);
            assert(pre.l1.block_number(addr) == pre.l2.block_number(addr));
            if let Some(x) = evicted {
                lemma_invalidate_blocks(mid, self.l1, x as int);
            }
            assert forall|b: int| 0 <= b && #[trigger] self.l1.holds_block(b) implies self.l2.holds_block(b) by {
                assert(mid.holds_block(b));
                if b != pre.l1.block_number(addr) {
                    assert(pre.l1.holds_block(b));
                    assert(pre.l2.holds_block(b));
                }
            }
        }
        false
    }
}

} // verus!
