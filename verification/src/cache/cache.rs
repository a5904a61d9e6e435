use vstd::prelude::*;

use super::ReplacementPolicy;

verus! {

/// One way of a cache set.
#[derive(Clone)]
pub struct CacheLine {
    pub valid: bool,
    pub tag: u64,
    pub last_used: u64,
    pub insert_order: u64,
}

/// The ways of one set.
pub struct CacheSet {
    pub lines: Vec<CacheLine>,
}

/// A set-associative, read-only cache that counts its hits.
pub struct Cache {
    pub size: usize,
    pub block_size: usize,
    pub associativity: usize,
    pub sets: Vec<CacheSet>,
    pub policy: ReplacementPolicy,
    pub accesses: usize,
    pub hits: usize,
    pub timestamp: u64,
}

impl CacheLine {
    /// The line holds the block with tag `tag`.
    pub open spec fn holds(self, tag: int) -> bool {
        self.valid && self.tag == tag
    }

    /// The stamp the policy evicts by: fill time for FIFO, last use for LRU.
    pub open spec fn age(self, policy: ReplacementPolicy) -> u64 {
        match policy {
            ReplacementPolicy::FIFO => self.insert_order,
            ReplacementPolicy::LRU => self.last_used,
        }
    }

    /// A line that holds nothing yet.
    pub open spec fn empty() -> CacheLine {
        CacheLine { valid: false, tag: 0, last_used: 0, insert_order: 0 }
    }
}

/// Some line of the set holds tag `tag`.
pub open spec fn holds_tag(lines: Seq<CacheLine>, tag: int) -> bool {
    exists|h: int| 0 <= h < lines.len() && #[trigger] lines[h].holds(tag)
}

/// `h` is the first line of the set that holds tag `tag`.
pub open spec fn first_holding(lines: Seq<CacheLine>, tag: int, h: int) -> bool {
    &&& 0 <= h < lines.len()
    &&& lines[h].holds(tag)
    &&& forall|j: int| 0 <= j < h ==> !#[trigger] lines[j].holds(tag)
}

/// The line a hit on `tag` touches.
pub open spec fn hit_way(lines: Seq<CacheLine>, tag: int) -> int {
    choose|h: int| first_holding(lines, tag, h)
}

/// Among the first `n` lines, `v` is the first with the smallest stamp.
pub open spec fn oldest_within(lines: Seq<CacheLine>, n: int, policy: ReplacementPolicy, v: int) -> bool {
    &&& 0 <= v < n <= lines.len()
    &&& forall|j: int| 0 <= j < n ==> lines[v].age(policy) <= #[trigger] lines[j].age(policy)
    &&& forall|j: int| 0 <= j < v ==> lines[v].age(policy) < #[trigger] lines[j].age(policy)
}

/// The line a miss evicts.
pub open spec fn victim(lines: Seq<CacheLine>, policy: ReplacementPolicy) -> int {
    choose|v: int| oldest_within(lines, lines.len() as int, policy, v)
}

/// No tag is held by two lines of the set.
pub open spec fn distinct_tags(lines: Seq<CacheLine>) -> bool {
    forall|j: int, k: int|
        0 <= j < k < lines.len() ==> !(#[trigger] lines[j].valid && #[trigger] lines[k].valid
            && lines[j].tag == lines[k].tag)
}

/// The set after an access to tag `tag` at time `now`: a hit stamps the line that holds
/// the tag; a miss fills the victim line with the tag.
pub open spec fn after_access(
    lines: Seq<CacheLine>,
    tag: int,
    policy: ReplacementPolicy,
    now: u64,
) -> Seq<CacheLine> {
    if holds_tag(lines, tag) {
        let h = hit_way(lines, tag);
        lines.update(h, CacheLine { last_used: now, ..lines[h] })
    } else {
        lines.update(
            victim(lines, policy),
            CacheLine { valid: true, tag: tag as u64, last_used: now, insert_order: now },
        )
    }
}

/// The set with the line that holds tag `t`, if any, emptied: it holds nothing and its
/// stamps are reset, so the next miss in the set fills it first.
pub open spec fn without_tag(lines: Seq<CacheLine>, t: int) -> Seq<CacheLine> {
    if holds_tag(lines, t) {
        let h = hit_way(lines, t);
        lines.update(h, CacheLine::empty())
    } else {
        lines
    }
}

/// The first line holding a tag is unique.
pub proof fn lemma_first_holding_unique(lines: Seq<CacheLine>, tag: int, h1: int, h2: int)
    requires
        first_holding(lines, tag, h1),
        first_holding(lines, tag, h2),
    ensures
        h1 == h2,
{
    if h1 < h2 {
        assert(lines[h1].holds(tag));
    } else if h2 < h1 {
        assert(lines[h2].holds(tag));
    }
}

/// The oldest line is unique.
pub proof fn lemma_oldest_unique(
    lines: Seq<CacheLine>,
    n: int,
    policy: ReplacementPolicy,
    v1: int,
    v2: int,
)
    requires
        oldest_within(lines, n, policy, v1),
        oldest_within(lines, n, policy, v2),
    ensures
        v1 == v2,
{
    assert(lines[v1].age(policy) <= lines[v2].age(policy));
    assert(lines[v2].age(policy) <= lines[v1].age(policy));
}

/// A non-empty set has an oldest line.
pub proof fn lemma_oldest_exists(lines: Seq<CacheLine>, n: int, policy: ReplacementPolicy)
    requires
        0 < n <= lines.len(),
    ensures
        exists|v: int| oldest_within(lines, n, policy, v),
    decreases n,
{
    if n == 1 {
        assert(oldest_within(lines, n, policy, 0));
    } else {
        let m = n - 1;
        lemma_oldest_exists(lines, m, policy);
        let v = choose|v: int| oldest_within(lines, m, policy, v);
        if lines[n - 1].age(policy) < lines[v].age(policy) {
            assert(oldest_within(lines, n, policy, n - 1));
        } else {
            assert(oldest_within(lines, n, policy, v));
        }
    }
}

/// After an access to `tag`, the set holds `tag`, keeps its size and keeps its tags distinct.
pub proof fn lemma_after_access(lines: Seq<CacheLine>, tag: int, policy: ReplacementPolicy, now: u64)
    requires
        lines.len() > 0,
        distinct_tags(lines),
        0 <= tag <= u64::MAX,
    ensures
        ({
            let post = after_access(lines, tag, policy, now);
            &&& post.len() == lines.len()
            &&& holds_tag(post, tag)
            &&& distinct_tags(post)
        }),
{
    let post = after_access(lines, tag, policy, now);
    if holds_tag(lines, tag) {
        let h0 = choose|h: int| 0 <= h < lines.len() && #[trigger] lines[h].holds(tag);
        lemma_first_exists(lines, tag, h0);
        let h = hit_way(lines, tag);
        assert(post[h].holds(tag));
        assert forall|j: int, k: int| 0 <= j < k < post.len() implies !(#[trigger] post[j].valid
            && #[trigger] post[k].valid && post[j].tag == post[k].tag) by {
            assert(!(lines[j].valid && lines[k].valid && lines[j].tag == lines[k].tag));
        }
    } else {
        lemma_oldest_exists(lines, lines.len() as int, policy);
        let v = victim(lines, policy);
        assert(post[v].holds(tag));
        assert forall|j: int, k: int| 0 <= j < k < post.len() implies !(#[trigger] post[j].valid
            && #[trigger] post[k].valid && post[j].tag == post[k].tag) by {
            if j == v {
                assert(!lines[k].holds(tag));
            } else if k == v {
                assert(!lines[j].holds(tag));
            } else {
                assert(!(lines[j].valid && lines[k].valid && lines[j].tag == lines[k].tag));
            }
        }
    }
}

/// A line holding `tag` means there is a first one.
pub proof fn lemma_first_exists(lines: Seq<CacheLine>, tag: int, h: int)
    requires
        0 <= h < lines.len(),
        lines[h].holds(tag),
    ensures
        first_holding(lines, tag, hit_way(lines, tag)),
    decreases h,
{
    if exists|j: int| 0 <= j < h && #[trigger] lines[j].holds(tag) {
        let j = choose|j: int| 0 <= j < h && #[trigger] lines[j].holds(tag);
        lemma_first_exists(lines, tag, j);
    } else {
        assert(first_holding(lines, tag, h));
    }
}

impl Cache {
    /// The ways of set `i`.
    pub open spec fn lines(self, i: int) -> Seq<CacheLine> {
        self.sets@[i].lines@
    }

    /// Number of the memory block that holds `address`.
    pub open spec fn block_number(self, address: u64) -> int {
        address as int / self.block_size as int
    }

    /// The set `address` maps to.
    pub open spec fn set_of(self, address: u64) -> int {
        self.block_number(address) % (self.sets@.len() as int)
    }

    /// The tag `address` carries within its set.
    pub open spec fn tag_of(self, address: u64) -> int {
        self.block_number(address) / (self.sets@.len() as int)
    }

    /// An access to `address` would hit.
    pub open spec fn would_hit(self, address: u64) -> bool {
        holds_tag(self.lines(self.set_of(address)), self.tag_of(address))
    }

    /// Geometry and counters agree, every set has `associativity` ways, and no set holds
    /// a tag twice.
    pub open spec fn wf(self) -> bool {
        &&& self.block_size > 0
        &&& self.associativity > 0
        &&& self.sets@.len() == self.size as int / (self.block_size * self.associativity)
        &&& forall|i: int| 0 <= i < self.sets@.len() ==> #[trigger] self.lines(i).len() == self.associativity
        &&& forall|i: int| 0 <= i < self.sets@.len() ==> distinct_tags(#[trigger] self.lines(i))
        &&& self.hits <= self.accesses
    }

    /// What `access(address)` does, returning `hit`.
    pub open spec fn access_post(pre: Cache, post: Cache, address: u64, hit: bool) -> bool {
        let i = pre.set_of(address);
        &&& post.size == pre.size
        &&& post.block_size == pre.block_size
        &&& post.associativity == pre.associativity
        &&& post.policy == pre.policy
        &&& post.sets@.len() == pre.sets@.len()
        &&& post.accesses == pre.accesses + 1
        &&& post.timestamp == pre.timestamp + 1
        &&& hit == pre.would_hit(address)
        &&& post.hits == pre.hits + if hit {
            1int
        } else {
            0int
        }
        &&& post.lines(i) == after_access(pre.lines(i), pre.tag_of(address), pre.policy, post.timestamp)
        &&& forall|j: int| 0 <= j < pre.sets@.len() && j != i ==> #[trigger] post.lines(j) == pre.lines(j)
    }

    /// The cache holds memory block `b`.
    pub open spec fn holds_block(self, b: int) -> bool {
        let n = self.sets@.len() as int;
        n > 0 && holds_tag(self.lines(b % n), b / n)
    }

    /// The memory block an access to `address` would evict: none on a hit, or when the
    /// victim line holds nothing.
    pub open spec fn evicted_by(self, address: u64) -> Option<int> {
        let i = self.set_of(address);
        let ls = self.lines(i);
        let v = victim(ls, self.policy);
        if self.would_hit(address) || !ls[v].valid {
            None
        } else {
            Some(ls[v].tag * (self.sets@.len() as int) + i)
        }
    }

    /// What `invalidate_block(b)` does: the line holding block `b`, if any, is emptied,
    /// stamps included.
    pub open spec fn invalidate_post(pre: Cache, post: Cache, b: int) -> bool {
        let n = pre.sets@.len() as int;
        let i = b % n;
        let t = b / n;
        &&& post.size == pre.size
        &&& post.block_size == pre.block_size
        &&& post.associativity == pre.associativity
        &&& post.policy == pre.policy
        &&& post.sets@.len() == pre.sets@.len()
        &&& post.accesses == pre.accesses
        &&& post.hits == pre.hits
        &&& post.timestamp == pre.timestamp
        &&& post.lines(i) == without_tag(pre.lines(i), t)
        &&& forall|j: int| 0 <= j < pre.sets@.len() && j != i ==> #[trigger] post.lines(j) == pre.lines(j)
    }

    /// A cache of `size` bytes in blocks of `block_size` bytes, `associativity` ways per
    /// set, all lines empty.
    pub fn new(size: usize, block_size: usize, associativity: usize, policy: ReplacementPolicy) -> (c: Self)
        requires
            block_size * associativity > 0,
            block_size * associativity <= usize::MAX,
        ensures
            c.wf(),
            c.size == size,
            c.block_size == block_size,
            c.associativity == associativity,
            c.policy == policy,
            c.sets@.len() == size as int / (block_size * associativity),
            forall|i: int, j: int|
                0 <= i < c.sets@.len() && 0 <= j < associativity ==> #[trigger] c.lines(i)[j]
                    == CacheLine::empty(),
            c.accesses == 0,
            c.hits == 0,
            c.timestamp == 0,
    {
        let num_sets = size / (block_size * associativity);
        let mut sets: Vec<CacheSet> = Vec::new();
        let mut s: usize = 0;
        while s < num_sets
            invariant
                s <= num_sets,
                sets@.len() == s,
                forall|i: int| 0 <= i < s ==> #[trigger] sets@[i].lines@ == Seq::new(associativity as nat, |j: int| CacheLine::empty()),
            decreases num_sets - s,
        {
            let mut lines: Vec<CacheLine> = Vec::new();
            let mut w: usize = 0;
            while w < associativity
                invariant
                    w <= associativity,
                    lines@ == Seq::new(w as nat, |j: int| CacheLine::empty()),
                decreases associativity - w,
            {
                lines.push(CacheLine { valid: false, tag: 0, last_used: 0, insert_order: 0 });
                w += 1;
                assert(lines@ =~= Seq::new(w as nat, |j: int| CacheLine::empty()));
            }
            sets.push(CacheSet { lines });
            s += 1;
        }
        Cache {
            size,
            block_size,
            associativity,
            sets,
            policy,
            accesses: 0,
            hits: 0,
            timestamp: 0,
        }
    }

    /// The way of set `i` that first holds `tag`, if any.
    fn find_line(&self, i: usize, tag: u64) -> (r: Option<usize>)
        requires
            i < self.sets@.len(),
        ensures
            r matches Some(j) ==> j == hit_way(self.lines(i as int), tag as int) && first_holding(
                self.lines(i as int),
                tag as int,
                j as int,
            ),
            r is None ==> !holds_tag(self.lines(i as int), tag as int),
    {
        let ghost lines = self.lines(i as int);
        let n = self.sets[i].lines.len();
        let mut j: usize = 0;
        while j < n
            invariant
                i < self.sets@.len(),
                lines == self.lines(i as int),
                n == lines.len(),
                j <= n,
                forall|k: int| 0 <= k < j ==> !#[trigger] lines[k].holds(tag as int),
            decreases n - j,
        {
            if self.sets[i].lines[j].valid && self.sets[i].lines[j].tag == tag {
                proof {
                    assert(first_holding(lines, tag as int, j as int));
                    lemma_first_exists(lines, tag as int, j as int);
                    lemma_first_holding_unique(lines, tag as int, j as int, hit_way(lines, tag as int));
                }
                return Some(j);
            }
            j += 1;
        }
        None
    }

    /// The way of set `i` the policy evicts: the first with the smallest stamp.
    fn victim_way(&self, i: usize) -> (v: usize)
        requires
            i < self.sets@.len(),
            self.lines(i as int).len() > 0,
        ensures
            v == victim(self.lines(i as int), self.policy),
            oldest_within(self.lines(i as int), self.lines(i as int).len() as int, self.policy, v as int),
    {
        let ghost lines = self.lines(i as int);
        let n = self.sets[i].lines.len();
        let mut v: usize = 0;
        let mut k: usize = 1;
        while k < n
            invariant
                i < self.sets@.len(),
                lines == self.lines(i as int),
                n == lines.len(),
                1 <= k <= n,
                oldest_within(lines, k as int, self.policy, v as int),
            decreases n - k,
        {
            if self.age_of(i, k) < self.age_of(i, v) {
                v = k;
            }
            k += 1;
        }
        proof {
            lemma_oldest_exists(lines, n as int, self.policy);
            lemma_oldest_unique(lines, n as int, self.policy, v as int, victim(lines, self.policy));
        }
        v
    }

    /// The set and the tag of `address`.
    fn locate(&self, address: u64) -> (r: (usize, u64))
        requires
            self.wf(),
            self.sets@.len() > 0,
        ensures
            r.0 == self.set_of(address),
            r.1 == self.tag_of(address),
            r.0 < self.sets@.len(),
    {
        let block_addr = address / self.block_size as u64;
        let num_sets = self.sets.len() as u64;
        let index = (block_addr % num_sets) as usize;
        let tag = block_addr / num_sets;
        (index, tag)
    }

    /// Whether an access to `address` would hit, without making it.
    pub fn probe(&self, address: u64) -> (b: bool)
        requires
            self.wf(),
            self.sets@.len() > 0,
        ensures
            b == self.would_hit(address),
    {
        let (index, tag) = self.locate(address);
        self.find_line(index, tag).is_some()
    }

    /// Look `address` up: on a hit stamp the line; on a miss fill the policy's victim
    /// line with the address's block. Returns whether it hit.
    pub fn access(&mut self, address: u64) -> (hit: bool)
        requires
            old(self).wf(),
            old(self).sets@.len() > 0,
            old(self).accesses < usize::MAX,
            old(self).timestamp < u64::MAX,
        ensures
            final(self).wf(),
            Self::access_post(*old(self), *final(self), address, hit),
    {
        let ghost pre = *self;
        let (index, tag) = self.locate(address);
        let ghost lines = pre.lines(index as int);
        proof {
            lemma_tag_in_range(pre, address);
        }
        self.accesses += 1;
        self.timestamp += 1;
        let now = self.timestamp;
        proof {
            lemma_after_access(lines, tag as int, self.policy, now);
        }
        match self.find_line(index, tag) {
            Some(j) => {
                self.hits += 1;
                self.sets[index].lines[j].last_used = now;
                assert(self.lines(index as int) =~= after_access(lines, tag as int, pre.policy, now));
                assert forall|k: int| 0 <= k < pre.sets@.len() && k != index implies #[trigger] self.lines(k)
                    == pre.lines(k) by {}
                true
            },
            None => {
                let v = self.victim_way(index);
                self.sets[index].lines[v] = CacheLine { valid: true, tag, last_used: now, insert_order: now };
                assert(self.lines(index as int) =~= after_access(lines, tag as int, pre.policy, now));
                assert forall|k: int| 0 <= k < pre.sets@.len() && k != index implies #[trigger] self.lines(k)
                    == pre.lines(k) by {}
                false
            },
        }
    }

    /// The memory block an access to `address` would evict, if it would evict one.
    pub fn evicted_by_access(&self, address: u64) -> (r: Option<u128>)
        requires
            self.wf(),
            self.sets@.len() > 0,
        ensures
            r matches Some(x) ==> self.evicted_by(address) == Some(x as int),
            r is None ==> self.evicted_by(address) is None,
    {
        let (index, tag) = self.locate(address);
        if self.find_line(index, tag).is_some() {
            return None;
        }
        let v = self.victim_way(index);
        if !self.sets[index].lines[v].valid {
            return None;
        }
        let t = self.sets[index].lines[v].tag as u128;
        let n = self.sets.len() as u128;
        proof {
            assert(t * n + index <= u128::MAX) by (nonlinear_arith)
                requires
                    t <= u64::MAX,
                    n <= u64::MAX,
                    index < n,
            ;
        }
        Some(t * n + index as u128)
    }

    /// Drop memory block `block` from the cache, if it is there: its line becomes empty,
    /// stamps included.
    pub fn invalidate_block(&mut self, block: u128)
        requires
            old(self).wf(),
            old(self).sets@.len() > 0,
        ensures
            final(self).wf(),
            Self::invalidate_post(*old(self), *final(self), block as int),
    {
        let ghost pre = *self;
        let n = self.sets.len() as u128;
        let index = (block % n) as usize;
        let t = block / n;
        if t > u64::MAX as u128 {
            assert(!holds_tag(pre.lines(index as int), t as int));
            return;
        }
        match self.find_line(index, t as u64) {
            Some(j) => {
                self.sets[index].lines[j] = CacheLine { valid: false, tag: 0, last_used: 0, insert_order: 0 };
                proof {
                    let ls = pre.lines(index as int);
                    assert(self.lines(index as int) =~= ls.update(
                        j as int,
                        CacheLine::empty(),
                    ));
                    assert forall|k: int| 0 <= k < pre.sets@.len() && k != index implies #[trigger] self.lines(k)
                        == pre.lines(k) by {}
                    let post = self.lines(index as int);
                    assert forall|a: int, b: int| 0 <= a < b < post.len() implies !(#[trigger] post[a].valid
                        && #[trigger] post[b].valid && post[a].tag == post[b].tag) by {
                        assert(!(ls[a].valid && ls[b].valid && ls[a].tag == ls[b].tag));
                    }
                    assert forall|k: int| 0 <= k < self.sets@.len() implies distinct_tags(
                        #[trigger] self.lines(k),
                    ) by {
                        if k != index {
                            assert(self.lines(k) == pre.lines(k));
                        }
                    }
                }
            },
            None => {},
        }
    }

    /// The stamp the policy evicts by, for way `w` of set `i`.
    fn age_of(&self, i: usize, w: usize) -> (a: u64)
        requires
            i < self.sets@.len(),
            w < self.lines(i as int).len(),
        ensures
            a == self.lines(i as int)[w as int].age(self.policy),
    {
        match self.policy {
            ReplacementPolicy::FIFO => self.sets[i].lines[w].insert_order,
            ReplacementPolicy::LRU => self.sets[i].lines[w].last_used,
        }
    }

    /// Accesses that missed.
    pub fn misses(&self) -> (m: usize)
        requires
            self.hits <= self.accesses,
        ensures
            m == self.accesses - self.hits,
    {
        self.accesses - self.hits
    }
}

/// Spatial locality: right after an access to `a`, an access to any address `b` in the
/// same memory block hits.
pub proof fn lemma_same_block_hits_again(
    c0: Cache,
    c1: Cache,
    c2: Cache,
    a: u64,
    b: u64,
    h1: bool,
    h2: bool,
)
    requires
        c0.wf(),
        c0.sets@.len() > 0,
        Cache::access_post(c0, c1, a, h1),
        Cache::access_post(c1, c2, b, h2),
        c0.block_number(a) == c0.block_number(b),
    ensures
        h2,
        c2.hits == c1.hits + 1,
{
    let i = c0.set_of(a);
    lemma_tag_in_range(c0, a);
    assert(c0.lines(i).len() == c0.associativity);
    assert(distinct_tags(c0.lines(i)));
    lemma_after_access(c0.lines(i), c0.tag_of(a), c0.policy, c1.timestamp);
    assert(c1.set_of(b) == i && c1.tag_of(b) == c0.tag_of(a));
}

/// An address's set is one of the sets, and its tag fits the tag field.
pub proof fn lemma_tag_in_range(c: Cache, a: u64)
    requires
        c.wf(),
        c.sets@.len() > 0,
    ensures
        0 <= c.set_of(a) < c.sets@.len(),
        0 <= c.tag_of(a) <= u64::MAX,
        0 <= c.block_number(a) <= u64::MAX,
{
    let n = c.sets@.len() as int;
    vstd::arithmetic::div_mod::lemma_mod_bound(c.block_number(a), n);
    vstd::arithmetic::div_mod::lemma_div_is_ordered_by_denominator(c.block_number(a), 1, n);
    vstd::arithmetic::div_mod::lemma_div_is_ordered_by_denominator(a as int, 1, c.block_size as int);
    vstd::arithmetic::div_mod::lemma_div_pos_is_pos(c.block_number(a), n);
    vstd::arithmetic::div_mod::lemma_div_pos_is_pos(a as int, c.block_size as int);
}

/// After an access to `tag`, the set holds `t` exactly when `t` is the accessed tag, or
/// the set held `t` before and a miss did not evict it.
pub proof fn lemma_after_access_holds(
    lines: Seq<CacheLine>,
    tag: int,
    policy: ReplacementPolicy,
    now: u64,
    t: int,
)
    requires
        lines.len() > 0,
        distinct_tags(lines),
        0 <= tag <= u64::MAX,
    ensures
        holds_tag(after_access(lines, tag, policy, now), t) == (t == tag || (holds_tag(lines, t)
            && !(!holds_tag(lines, tag) && lines[victim(lines, policy)].holds(t)))),
{
    let post = after_access(lines, tag, policy, now);
    lemma_after_access(lines, tag, policy, now);
    if holds_tag(lines, tag) {
        let h0 = choose|h: int| 0 <= h < lines.len() && #[trigger] lines[h].holds(tag);
        lemma_first_exists(lines, tag, h0);
        if holds_tag(post, t) {
            let j = choose|j: int| 0 <= j < post.len() && #[trigger] post[j].holds(t);
            assert(lines[j].holds(t));
        }
        if holds_tag(lines, t) {
            let j = choose|j: int| 0 <= j < lines.len() && #[trigger] lines[j].holds(t);
            assert(post[j].holds(t));
        }
    } else {
        lemma_oldest_exists(lines, lines.len() as int, policy);
        let v = victim(lines, policy);
        if holds_tag(post, t) && t != tag {
            let j = choose|j: int| 0 <= j < post.len() && #[trigger] post[j].holds(t);
            assert(j != v);
            assert(lines[j].holds(t));
            if lines[v].holds(t) {
                if j < v {
                    assert(!(lines[j].valid && lines[v].valid && lines[j].tag == lines[v].tag));
                } else {
                    assert(!(lines[v].valid && lines[j].valid && lines[v].tag == lines[j].tag));
                }
            }
        }
        if t == tag {
            assert(post[v].holds(t));
        } else if holds_tag(lines, t) && !lines[v].holds(t) {
            let j = choose|j: int| 0 <= j < lines.len() && #[trigger] lines[j].holds(t);
            assert(post[j].holds(t));
        }
    }
}

/// Emptying the line that holds `t` leaves every other tag as it was and keeps tags
/// distinct.
pub proof fn lemma_without_tag(lines: Seq<CacheLine>, t: int, t2: int)
    requires
        distinct_tags(lines),
    ensures
        without_tag(lines, t).len() == lines.len(),
        distinct_tags(without_tag(lines, t)),
        holds_tag(without_tag(lines, t), t2) == (holds_tag(lines, t2) && t2 != t),
{
    let post = without_tag(lines, t);
    if holds_tag(lines, t) {
        let h0 = choose|h: int| 0 <= h < lines.len() && #[trigger] lines[h].holds(t);
        lemma_first_exists(lines, t, h0);
        let h = hit_way(lines, t);
        assert forall|a: int, b: int| 0 <= a < b < post.len() implies !(#[trigger] post[a].valid
            && #[trigger] post[b].valid && post[a].tag == post[b].tag) by {
            assert(!(lines[a].valid && lines[b].valid && lines[a].tag == lines[b].tag));
        }
        if holds_tag(post, t2) {
            let j = choose|j: int| 0 <= j < post.len() && #[trigger] post[j].holds(t2);
            assert(j != h);
            assert(lines[j].holds(t2));
            if t2 == t {
                if j < h {
                    assert(!(lines[j].valid && lines[h].valid && lines[j].tag == lines[h].tag));
                } else {
                    assert(!(lines[h].valid && lines[j].valid && lines[h].tag == lines[j].tag));
                }
            }
        }
        if holds_tag(lines, t2) && t2 != t {
            let j = choose|j: int| 0 <= j < lines.len() && #[trigger] lines[j].holds(t2);
            assert(post[j].holds(t2));
        }
    }
}

/// Block `b` lies in set `b % n` under tag `b / n`, and a block is named by its set and tag.
proof fn lemma_block_parts(b: int, n: int, i: int, t: int)
    requires
        n > 0,
        0 <= b,
        0 <= i < n,
        0 <= t,
    ensures
        (b == t * n + i) == (b % n == i && b / n == t),
{
    vstd::arithmetic::div_mod::lemma_fundamental_div_mod(b, n);
    vstd::arithmetic::div_mod::lemma_mod_bound(b, n);
    if b == t * n + i {
        vstd::arithmetic::div_mod::lemma_fundamental_div_mod_converse(b, n, t, i);
    }
    vstd::arithmetic::mul::lemma_mul_is_commutative(n, b / n);
}

/// After an access to `a`, the cache holds block `b` exactly when `b` is the accessed
/// block, or it held `b` before and the access did not evict it.
pub proof fn lemma_access_blocks(pre: Cache, post: Cache, a: u64, hit: bool)
    requires
        pre.wf(),
        pre.sets@.len() > 0,
        Cache::access_post(pre, post, a, hit),
    ensures
        forall|b: int|
            0 <= b ==> #[trigger] post.holds_block(b) == (b == pre.block_number(a) || (
            pre.holds_block(b) && pre.evicted_by(a) != Some(b))),
{
    let n = pre.sets@.len() as int;
    let i = pre.set_of(a);
    let tag = pre.tag_of(a);
    lemma_tag_in_range(pre, a);
    lemma_block_parts(pre.block_number(a), n, i, tag);
    let ls = pre.lines(i);
    let v = victim(ls, pre.policy);
    lemma_oldest_exists(ls, ls.len() as int, pre.policy);
    assert forall|b: int| 0 <= b implies #[trigger] post.holds_block(b) == (b == pre.block_number(a)
        || (pre.holds_block(b) && pre.evicted_by(a) != Some(b))) by {
        let bi = b % n;
        let bt = b / n;
        vstd::arithmetic::div_mod::lemma_mod_bound(b, n);
        vstd::arithmetic::div_mod::lemma_div_pos_is_pos(b, n);
        lemma_block_parts(b, n, i, tag);
        if pre.evicted_by(a) is Some {
            lemma_block_parts(b, n, i, ls[v].tag as int);
        }
        if bi != i {
            assert(post.lines(bi) == pre.lines(bi));
        } else {
            lemma_after_access_holds(ls, tag, pre.policy, post.timestamp, bt);
        }
    }
}

/// After invalidating block `x`, the cache holds exactly the blocks it held but `x`.
pub proof fn lemma_invalidate_blocks(pre: Cache, post: Cache, x: int)
    requires
        pre.wf(),
        pre.sets@.len() > 0,
        0 <= x,
        Cache::invalidate_post(pre, post, x),
    ensures
        forall|b: int| 0 <= b ==> #[trigger] post.holds_block(b) == (pre.holds_block(b) && b != x),
{
    let n = pre.sets@.len() as int;
    let i = x % n;
    let t = x / n;
    vstd::arithmetic::div_mod::lemma_mod_bound(x, n);
    vstd::arithmetic::div_mod::lemma_div_pos_is_pos(x, n);
    lemma_block_parts(x, n, i, t);
    assert forall|b: int| 0 <= b implies #[trigger] post.holds_block(b) == (pre.holds_block(b) && b != x) by {
        let bi = b % n;
        let bt = b / n;
        vstd::arithmetic::div_mod::lemma_mod_bound(b, n);
        vstd::arithmetic::div_mod::lemma_div_pos_is_pos(b, n);
        lemma_block_parts(b, n, i, t);
        if bi != i {
            assert(post.lines(bi) == pre.lines(bi));
        } else {
            lemma_without_tag(pre.lines(i), t, bt);
        }
    }
}

} // verus!
