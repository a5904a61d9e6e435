use vstd::prelude::*;

use crate::memory::allocator::{AllocationStrategy, Block};

verus! {

/// Each block begins where its predecessor ends.
pub open spec fn contiguous(s: Seq<Block>) -> bool {
    forall|i: int, j: int|
        #![trigger s[i], s[j]]
        0 <= i && j == i + 1 && j < s.len() ==> s[j].start == s[i].end()
}

/// No two neighbouring blocks are both free.
pub open spec fn no_adjacent_free(s: Seq<Block>) -> bool {
    forall|i: int, j: int|
        #![trigger s[i], s[j]]
        0 <= i && j == i + 1 && j < s.len() ==> !(s[i].free && s[j].free)
}

/// The blocks cover `[0, total)` back to back.
pub open spec fn tiles(s: Seq<Block>, total: int) -> bool {
    &&& s.len() > 0
    &&& s[0].start == 0
    &&& s.last().end() == total
    &&& contiguous(s)
}

/// Free blocks carry no allocation id.
pub open spec fn free_blocks_unowned(s: Seq<Block>) -> bool {
    forall|i: int| 0 <= i < s.len() && #[trigger] s[i].free ==> s[i].id is None
}

/// Every block of `a` carries an id below `bound`.
pub open spec fn ids_below(a: Seq<Block>, bound: int) -> bool {
    forall|k: int| 0 <= k < a.len() ==> (#[trigger] a[k]).id is Some && a[k].id->0 < bound
}

/// No two blocks of `a` carry the same id.
pub open spec fn ids_distinct(a: Seq<Block>) -> bool {
    forall|k: int, l: int| 0 <= k < l < a.len() ==> #[trigger] a[k].id != #[trigger] a[l].id
}

/// The blocks in use, in address order.
pub open spec fn allocated_blocks(s: Seq<Block>) -> Seq<Block>
    decreases s.len(),
{
    if s.len() == 0 {
        Seq::empty()
    } else if s.last().free {
        allocated_blocks(s.drop_last())
    } else {
        allocated_blocks(s.drop_last()).push(s.last())
    }
}

/// Some block in use carries allocation id `id`.
pub open spec fn is_allocated(s: Seq<Block>, id: u32) -> bool {
    exists|i: int| 0 <= i < s.len() && !s[i].free && s[i].id == Some(id)
}

/// Some free block can serve a request of `size` bytes.
pub open spec fn has_fit(s: Seq<Block>, size: usize) -> bool {
    exists|i: int| 0 <= i < s.len() && #[trigger] s[i].fits(size)
}

/// Among the first `n` blocks, `c` is the one `strategy` picks for `size` bytes:
/// the first fitting block (first fit), the first smallest fitting block (best fit),
/// or the first largest fitting block (worst fit).
pub open spec fn picks(
    s: Seq<Block>,
    n: int,
    size: usize,
    strategy: AllocationStrategy,
    c: int,
) -> bool {
    &&& 0 <= c < n <= s.len()
    &&& s[c].fits(size)
    &&& match strategy {
        AllocationStrategy::FirstFit => forall|j: int| 0 <= j < c ==> !#[trigger] s[j].fits(size),
        AllocationStrategy::BestFit => forall|j: int|
            0 <= j < n && #[trigger] s[j].fits(size) ==> s[c].size <= s[j].size && (j < c
                ==> s[c].size < s[j].size),
        AllocationStrategy::WorstFit => forall|j: int|
            0 <= j < n && #[trigger] s[j].fits(size) ==> s[c].size >= s[j].size && (j < c
                ==> s[c].size > s[j].size),
    }
}

/// The block `strategy` picks for `size` bytes.
pub open spec fn choice(s: Seq<Block>, size: usize, strategy: AllocationStrategy) -> int {
    choose|c: int| picks(s, s.len() as int, size, strategy, c)
}

/// Hand the front `size` bytes of free block `i` to allocation `id`; the rest, if any,
/// stays free right behind it.
pub open spec fn place(s: Seq<Block>, i: int, size: usize, id: u32) -> Seq<Block> {
    let b = s[i];
    if b.size == size {
        s.update(i, Block { free: false, id: Some(id), ..b })
    } else {
        s.take(i) + seq![
            Block { start: b.start, size, free: false, id: Some(id) },
            Block { start: (b.start + size) as usize, size: (b.size - size) as usize, free: true, id: None },
        ] + s.skip(i + 1)
    }
}

/// The first block in use that carries `id`.
pub open spec fn owner(s: Seq<Block>, id: u32) -> int {
    choose|i: int|
        0 <= i < s.len() && !s[i].free && s[i].id == Some(id) && forall|j: int|
            0 <= j < i ==> !(!#[trigger] s[j].free && s[j].id == Some(id))
}

/// Block `i` turned free.
pub open spec fn release(s: Seq<Block>, i: int) -> Seq<Block> {
    s.update(i, Block { free: true, id: None, ..s[i] })
}

/// Two free neighbours merged into one.
pub open spec fn merge(a: Block, b: Block) -> Block {
    Block { size: (a.size + b.size) as usize, ..a }
}

/// The layout with every run of neighbouring free blocks merged into one block.
pub open spec fn coalesced(s: Seq<Block>) -> Seq<Block>
    decreases s.len(),
{
    if s.len() == 0 {
        s
    } else {
        let c = coalesced(s.drop_last());
        if c.len() > 0 && c.last().free && s.last().free {
            c.update(c.len() - 1, merge(c.last(), s.last()))
        } else {
            c.push(s.last())
        }
    }
}


/// Total size of the blocks of `s`.
pub open spec fn size_sum(s: Seq<Block>) -> int
    decreases s.len(),
{
    if s.len() == 0 {
        0
    } else {
        size_sum(s.drop_last()) + s.last().size
    }
}

/// Bytes held by blocks in use.
pub open spec fn used_bytes(s: Seq<Block>) -> int {
    size_sum(allocated_blocks(s))
}

/// Bytes held by free blocks.
pub open spec fn free_bytes(s: Seq<Block>) -> int
    decreases s.len(),
{
    if s.len() == 0 {
        0
    } else {
        free_bytes(s.drop_last()) + if s.last().free {
            s.last().size as int
        } else {
            0
        }
    }
}

/// Size of the largest free block, 0 when none is free.
pub open spec fn largest_free(s: Seq<Block>) -> int
    decreases s.len(),
{
    if s.len() == 0 {
        0
    } else {
        let m = largest_free(s.drop_last());
        if s.last().free && s.last().size > m {
            s.last().size as int
        } else {
            m
        }
    }
}

/// Position of block `i` among the blocks in use.
pub open spec fn rank(s: Seq<Block>, i: int) -> int {
    allocated_blocks(s.take(i)).len() as int
}

pub proof fn lemma_allocated_concat(a: Seq<Block>, b: Seq<Block>)
    ensures
        allocated_blocks(a + b) == allocated_blocks(a) + allocated_blocks(b),
    decreases b.len(),
{
    if b.len() == 0 {
        assert(a + b =~= a);
        assert(allocated_blocks(a) + allocated_blocks(b) =~= allocated_blocks(a));
    } else {
        lemma_allocated_concat(a, b.drop_last());
        assert((a + b).drop_last() =~= a + b.drop_last());
        assert((a + b).last() == b.last());
        if !b.last().free {
            assert(allocated_blocks(a) + allocated_blocks(b.drop_last()).push(b.last()) =~= (
            allocated_blocks(a) + allocated_blocks(b.drop_last())).push(b.last()));
        }
    }
}

pub proof fn lemma_allocated_single(x: Block)
    ensures
        allocated_blocks(seq![x]) == (if x.free {
            Seq::<Block>::empty()
        } else {
            seq![x]
        }),
{
    assert(seq![x].drop_last() =~= Seq::<Block>::empty());
    assert(allocated_blocks(Seq::<Block>::empty()) =~= Seq::<Block>::empty());
    if !x.free {
        assert(Seq::<Block>::empty().push(x) =~= seq![x]);
    }
}

/// Splitting the layout around block `i`: the blocks in use before it, itself if in
/// use, and those after it.
pub proof fn lemma_allocated_split(s: Seq<Block>, i: int)
    requires
        0 <= i < s.len(),
    ensures
        s == s.take(i) + seq![s[i]] + s.skip(i + 1),
        allocated_blocks(s) == allocated_blocks(s.take(i)) + allocated_blocks(seq![s[i]])
            + allocated_blocks(s.skip(i + 1)),
        allocated_blocks(s.take(i + 1)) == allocated_blocks(s.take(i)) + allocated_blocks(
            seq![s[i]],
        ),
{
    assert(s =~= s.take(i) + seq![s[i]] + s.skip(i + 1));
    assert(s.take(i + 1) =~= s.take(i) + seq![s[i]]);
    lemma_allocated_concat(s.take(i) + seq![s[i]], s.skip(i + 1));
    lemma_allocated_concat(s.take(i), seq![s[i]]);
}

/// A block in use sits at its rank among the blocks in use, and later blocks rank higher.
pub proof fn lemma_rank(s: Seq<Block>, i: int)
    requires
        0 <= i < s.len(),
        !s[i].free,
    ensures
        0 <= rank(s, i) < allocated_blocks(s).len(),
        allocated_blocks(s)[rank(s, i)] == s[i],
        forall|j: int| i < j <= s.len() ==> rank(s, i) < #[trigger] rank(s, j),
{
    lemma_allocated_split(s, i);
    lemma_allocated_single(s[i]);
    assert forall|j: int| i < j <= s.len() implies rank(s, i) < #[trigger] rank(s, j) by {
        let t = s.take(j);
        assert(t.take(i + 1) =~= s.take(i + 1));
        assert(t =~= t.take(i + 1) + t.skip(i + 1));
        lemma_allocated_concat(t.take(i + 1), t.skip(i + 1));
    }
}

/// Every block begins no earlier than the first and ends no later than the last.
pub proof fn lemma_bounds(s: Seq<Block>)
    requires
        s.len() > 0,
        contiguous(s),
    ensures
        forall|i: int|
            0 <= i < s.len() ==> s[0].start <= #[trigger] s[i].start && s[i].end() <= s.last().end(),
    decreases s.len(),
{
    if s.len() > 1 {
        let t = s.drop_last();
        assert forall|i: int, j: int| 0 <= i && j == i + 1 && j < t.len() implies #[trigger] t[j].start
            == #[trigger] t[i].end() by {
            assert(s[i] == t[i] && s[j] == t[j]);
        }
        lemma_bounds(t);
        assert(s[s.len() - 1].start == s[s.len() - 2].end());
        assert forall|i: int| 0 <= i < s.len() implies s[0].start <= #[trigger] s[i].start
            && s[i].end() <= s.last().end() by {
            if i < s.len() - 1 {
                assert(s[i] == t[i]);
            }
        }
    }
}

pub proof fn lemma_contiguous_drop_last(s: Seq<Block>)
    requires
        s.len() > 0,
        contiguous(s),
    ensures
        contiguous(s.drop_last()),
{
    let t = s.drop_last();
    assert forall|i: int, j: int| 0 <= i && j == i + 1 && j < t.len() implies #[trigger] t[j].start
        == #[trigger] t[i].end() by {
        assert(s[i] == t[i] && s[j] == t[j]);
    }
}

/// Merging free neighbours keeps the extent of the layout, leaves no two free blocks
/// touching, and keeps the blocks in use as they were.
pub proof fn lemma_coalesced(s: Seq<Block>)
    requires
        s.len() > 0,
        contiguous(s),
        s.last().end() <= usize::MAX,
    ensures
        ({
            let c = coalesced(s);
            &&& 0 < c.len() <= s.len()
            &&& c[0].start == s[0].start
            &&& c.last().end() == s.last().end()
            &&& contiguous(c)
            &&& no_adjacent_free(c)
            &&& allocated_blocks(c) == allocated_blocks(s)
            &&& (forall|i: int| 0 <= i < s.len() && #[trigger] s[i].free ==> s[i].id is None) ==> (
            forall|k: int| 0 <= k < c.len() && #[trigger] c[k].free ==> c[k].id is None)
        }),
    decreases s.len(),
{
    let t = s.drop_last();
    let b = s.last();
    let c = coalesced(s);
    if t.len() == 0 {
        assert(coalesced(t) =~= Seq::<Block>::empty());
        assert(c =~= seq![b]);
        assert(s =~= seq![b]);
    } else {
        lemma_contiguous_drop_last(s);
        lemma_bounds(s);
        assert(t.last() == s[s.len() - 2]);
        lemma_coalesced(t);
        let ct = coalesced(t);
        assert(b.start == t.last().end());
        if ct.last().free && b.free {
            let m = merge(ct.last(), b);
            assert(c == ct.update(ct.len() - 1, m));
            assert(m.end() == b.end());
            assert forall|i: int, j: int| 0 <= i && j == i + 1 && j < c.len() implies #[trigger] c[j].start
                == #[trigger] c[i].end() by {
                assert(ct[i] == c[i] || i == ct.len() - 1);
                if j == c.len() - 1 {
                    assert(c[j].start == ct[j].start);
                    assert(ct[j].start == ct[i].end());
                } else {
                    assert(ct[j].start == ct[i].end());
                }
            }
            assert forall|i: int, j: int| 0 <= i && j == i + 1 && j < c.len() implies !(
            #[trigger] c[i].free && #[trigger] c[j].free) by {
                assert(!(ct[i].free && ct[j].free));
            }
            assert(c.drop_last() =~= ct.drop_last());
            assert(allocated_blocks(c) == allocated_blocks(c.drop_last()));
            assert(allocated_blocks(ct) == allocated_blocks(ct.drop_last()));
            if forall|i: int| 0 <= i < s.len() && #[trigger] s[i].free ==> s[i].id is None {
                assert forall|i: int| 0 <= i < t.len() && #[trigger] t[i].free implies t[i].id is None by {
                    assert(s[i] == t[i]);
                }
                assert forall|k: int| 0 <= k < c.len() && #[trigger] c[k].free implies c[k].id is None by {
                    if k < c.len() - 1 {
                        assert(c[k] == ct[k]);
                    } else {
                        assert(ct[ct.len() - 1].free);
                    }
                }
            }
        } else {
            assert(c == ct.push(b));
            assert forall|i: int, j: int| 0 <= i && j == i + 1 && j < c.len() implies #[trigger] c[j].start
                == #[trigger] c[i].end() by {
                if j == c.len() - 1 {
                    assert(c[i] == ct.last());
                } else {
                    assert(ct[j].start == ct[i].end());
                }
            }
            assert forall|i: int, j: int| 0 <= i && j == i + 1 && j < c.len() implies !(
            #[trigger] c[i].free && #[trigger] c[j].free) by {
                if j == c.len() - 1 {
                    assert(c[i] == ct.last());
                } else {
                    assert(!(ct[i].free && ct[j].free));
                }
            }
            assert(c.drop_last() =~= ct);
            if forall|i: int| 0 <= i < s.len() && #[trigger] s[i].free ==> s[i].id is None {
                assert forall|i: int| 0 <= i < t.len() && #[trigger] t[i].free implies t[i].id is None by {
                    assert(s[i] == t[i]);
                }
                assert forall|k: int| 0 <= k < c.len() && #[trigger] c[k].free implies c[k].id is None by {
                    if k < c.len() - 1 {
                        assert(c[k] == ct[k]);
                    } else {
                        assert(s[s.len() - 1].free);
                    }
                }
            }
        }
    }
}

/// A layout with no two free blocks touching is left as it is.
pub proof fn lemma_coalesced_identity(s: Seq<Block>)
    requires
        no_adjacent_free(s),
    ensures
        coalesced(s) == s,
    decreases s.len(),
{
    if s.len() > 0 {
        let t = s.drop_last();
        assert forall|i: int, j: int| 0 <= i && j == i + 1 && j < t.len() implies !(#[trigger] t[i].free
            && #[trigger] t[j].free) by {
            assert(s[i] == t[i] && s[j] == t[j]);
        }
        lemma_coalesced_identity(t);
        if t.len() > 0 {
            assert(t.last() == s[s.len() - 2]);
        }
        assert(t.push(s.last()) =~= s);
    }
}

/// A layout whose only touching free blocks are `p` and `p + 1` has just those two merged.
pub proof fn lemma_coalesced_one_pair(s: Seq<Block>, p: int)
    requires
        0 <= p && p + 1 < s.len(),
        s[p].free,
        s[p + 1].free,
        forall|i: int, j: int|
            #![trigger s[i], s[j]]
            0 <= i && j == i + 1 && j < s.len() && i != p ==> !(s[i].free && s[j].free),
    ensures
        coalesced(s) == s.take(p) + seq![merge(s[p], s[p + 1])] + s.skip(p + 2),
    decreases s.len(),
{
    let t = s.drop_last();
    let b = s.last();
    if p + 1 == s.len() - 1 {
        assert forall|i: int, j: int| 0 <= i && j == i + 1 && j < t.len() implies !(#[trigger] t[i].free
            && #[trigger] t[j].free) by {
            assert(s[i] == t[i] && s[j] == t[j]);
        }
        lemma_coalesced_identity(t);
        assert(t.last() == s[p]);
        assert(coalesced(s) == t.update(p, merge(s[p], b)));
        assert(t.update(p, merge(s[p], b)) =~= s.take(p) + seq![merge(s[p], s[p + 1])] + s.skip(p + 2));
    } else {
        assert forall|i: int, j: int|
            #![trigger t[i], t[j]]
            0 <= i && j == i + 1 && j < t.len() && i != p implies !(t[i].free && t[j].free) by {
            assert(s[i] == t[i] && s[j] == t[j]);
        }
        assert(t[p] == s[p] && t[p + 1] == s[p + 1]);
        lemma_coalesced_one_pair(t, p);
        let ct = coalesced(t);
        assert(ct =~= t.take(p) + seq![merge(s[p], s[p + 1])] + t.skip(p + 2));
        let n = s.len();
        if p + 2 == n - 1 {
            assert(ct.last() == merge(s[p], s[p + 1]));
            assert(!(s[p + 1].free && s[p + 2].free));
        } else {
            assert(ct.last() == s[n - 2]);
            assert(!(s[n - 2].free && s[n - 1].free));
        }
        assert(coalesced(s) == ct.push(b));
        assert(ct.push(b) =~= s.take(p) + seq![merge(s[p], s[p + 1])] + s.skip(p + 2));
    }
}

/// The strategy's pick is unique.
pub proof fn lemma_picks_unique(
    s: Seq<Block>,
    n: int,
    size: usize,
    strategy: AllocationStrategy,
    c1: int,
    c2: int,
)
    requires
        picks(s, n, size, strategy, c1),
        picks(s, n, size, strategy, c2),
    ensures
        c1 == c2,
{
    if c1 < c2 {
        assert(s[c1].fits(size));
    } else if c2 < c1 {
        assert(s[c2].fits(size));
    }
}

/// When `c` is the strategy's pick, it is the one `choice` names.
pub proof fn lemma_choice(s: Seq<Block>, size: usize, strategy: AllocationStrategy, c: int)
    requires
        picks(s, s.len() as int, size, strategy, c),
    ensures
        has_fit(s, size),
        choice(s, size, strategy) == c,
{
    assert(s[c].fits(size));
    lemma_picks_unique(s, s.len() as int, size, strategy, c, choice(s, size, strategy));
}

/// With distinct ids, a block in use is the only one carrying its id.
pub proof fn lemma_unique_owner(s: Seq<Block>, i: int, j: int)
    requires
        ids_distinct(allocated_blocks(s)),
        0 <= i < s.len(),
        0 <= j < s.len(),
        !s[i].free,
        !s[j].free,
        s[i].id == s[j].id,
    ensures
        i == j,
{
    lemma_rank(s, i);
    lemma_rank(s, j);
    if i < j {
        assert(rank(s, i) < rank(s, j));
    } else if j < i {
        assert(rank(s, j) < rank(s, i));
    }
}

/// With distinct ids, `owner` names the block in use that carries `id`.
pub proof fn lemma_owner(s: Seq<Block>, i: int, id: u32)
    requires
        ids_distinct(allocated_blocks(s)),
        0 <= i < s.len(),
        !s[i].free,
        s[i].id == Some(id),
    ensures
        owner(s, id) == i,
{
    assert forall|j: int| 0 <= j < i implies !(!#[trigger] s[j].free && s[j].id == Some(id)) by {
        if !s[j].free && s[j].id == Some(id) {
            lemma_unique_owner(s, i, j);
        }
    }
    let o = owner(s, id);
    if o != i {
        lemma_unique_owner(s, i, o);
    }
}

/// Placing an allocation in a fitting free block keeps the layout well formed and adds
/// the new block, with an id above all others, to the blocks in use.
pub proof fn lemma_place(s: Seq<Block>, c: int, size: usize, id: u32, total: int)
    requires
        tiles(s, total),
        total <= usize::MAX,
        no_adjacent_free(s),
        free_blocks_unowned(s),
        ids_below(allocated_blocks(s), id as int),
        ids_distinct(allocated_blocks(s)),
        0 <= c < s.len(),
        s[c].fits(size),
    ensures
        ({
            let t = place(s, c, size, id);
            &&& tiles(t, total)
            &&& no_adjacent_free(t)
            &&& free_blocks_unowned(t)
            &&& ids_below(allocated_blocks(t), id + 1)
            &&& ids_distinct(allocated_blocks(t))
            &&& 0 <= c < t.len()
            &&& t[c] == Block { start: s[c].start, size, free: false, id: Some(id) }
            &&& t.take(c) == s.take(c)
        }),
{
    let b = s[c];
    let t = place(s, c, size, id);
    let x = Block { start: b.start, size, free: false, id: Some(id) };
    let r = Block { start: (b.start + size) as usize, size: (b.size - size) as usize, free: true, id: None };
    lemma_bounds(s);
    let mid = if b.size == size { seq![x] } else { seq![x, r] };
    assert(t =~= s.take(c) + mid + s.skip(c + 1));
    // the layout
    assert forall|i: int, j: int| 0 <= i && j == i + 1 && j < t.len() implies #[trigger] t[j].start
        == #[trigger] t[i].end() && !(t[i].free && t[j].free) by {
        let d = mid.len() as int;
        if j < c {
            assert(t[i] == s[i] && t[j] == s[j]);
        } else if j == c {
            assert(t[i] == s[i] && s[j] == s[c]);
        } else if j < c + d {
            assert(t[i] == x && t[j] == r);
        } else if j == c + d {
            assert(t[j] == s[c + 1]);
            assert(s[c].free);
        } else {
            assert(t[i] == s[i - d + 1] && t[j] == s[j - d + 1]);
        }
    }
    if c == s.len() - 1 {
        assert(t.last() == mid.last());
    } else {
        assert(t.last() == s.last());
    }
    assert(t[0].start == 0);
    assert forall|i: int| 0 <= i < t.len() && #[trigger] t[i].free implies t[i].id is None by {
        let d = mid.len() as int;
        if i < c {
            assert(t[i] == s[i]);
        } else if i >= c + d {
            assert(t[i] == s[i - d + 1]);
        }
    }
    // the blocks in use
    lemma_allocated_split(s, c);
    lemma_allocated_single(b);
    lemma_allocated_concat(s.take(c) + mid, s.skip(c + 1));
    lemma_allocated_concat(s.take(c), mid);
    if b.size != size {
        assert(mid =~= seq![x] + seq![r]);
        lemma_allocated_concat(seq![x], seq![r]);
        lemma_allocated_single(r);
    }
    lemma_allocated_single(x);
    assert(allocated_blocks(mid) =~= seq![x]);
    let a = allocated_blocks(s);
    let at = allocated_blocks(t);
    let p = allocated_blocks(s.take(c)).len() as int;
    assert(at =~= a.insert(p, x));
    assert forall|k: int, l: int| 0 <= k < l < at.len() implies #[trigger] at[k].id != #[trigger] at[l].id by {
        if k < p && l < p {
            assert(at[k] == a[k] && at[l] == a[l]);
        } else if k < p && l == p {
            assert(at[k] == a[k]);
        } else if k < p {
            assert(at[k] == a[k] && at[l] == a[l - 1]);
        } else if k == p {
            assert(at[l] == a[l - 1]);
        } else {
            assert(at[k] == a[k - 1] && at[l] == a[l - 1]);
        }
    }
    assert forall|k: int| 0 <= k < at.len() implies (#[trigger] at[k]).id is Some && at[k].id->0 < id + 1 by {
        if k < p {
            assert(at[k] == a[k]);
        } else if k > p {
            assert(at[k] == a[k - 1]);
        }
    }
    assert(t.take(c) =~= s.take(c));
}

/// Releasing the block that carries `id` and merging free neighbours keeps the layout
/// well formed, and no block in use carries `id` afterwards.
pub proof fn lemma_release(s: Seq<Block>, i: int, id: u32, total: int, bound: int)
    requires
        tiles(s, total),
        total <= usize::MAX,
        free_blocks_unowned(s),
        ids_below(allocated_blocks(s), bound),
        ids_distinct(allocated_blocks(s)),
        0 <= i < s.len(),
        !s[i].free,
        s[i].id == Some(id),
    ensures
        ({
            let t = coalesced(release(s, i));
            &&& tiles(t, total)
            &&& no_adjacent_free(t)
            &&& free_blocks_unowned(t)
            &&& ids_below(allocated_blocks(t), bound)
            &&& ids_distinct(allocated_blocks(t))
            &&& !is_allocated(t, id)
        }),
{
    let u = release(s, i);
    lemma_release_contiguous(s, i);
    assert forall|k: int| 0 <= k < u.len() && #[trigger] u[k].free implies u[k].id is None by {
        if k != i {
            assert(s[k].free);
        }
    }
    lemma_coalesced(u);
    let t = coalesced(u);
    // the blocks in use lose exactly the released one
    lemma_allocated_split(s, i);
    lemma_allocated_split(u, i);
    assert(u.take(i) =~= s.take(i));
    assert(u.skip(i + 1) =~= s.skip(i + 1));
    lemma_allocated_single(s[i]);
    lemma_allocated_single(u[i]);
    let a = allocated_blocks(s);
    let au = allocated_blocks(u);
    let p = allocated_blocks(s.take(i)).len() as int;
    assert(au =~= a.remove(p));
    assert(a[p] == s[i]);
    assert forall|k: int, l: int| 0 <= k < l < au.len() implies #[trigger] au[k].id != #[trigger] au[l].id by {
        if l < p {
            assert(au[k] == a[k] && au[l] == a[l]);
        } else if k < p {
            assert(au[k] == a[k] && au[l] == a[l + 1]);
        } else {
            assert(au[k] == a[k + 1] && au[l] == a[l + 1]);
        }
    }
    assert forall|k: int| 0 <= k < au.len() implies (#[trigger] au[k]).id is Some && au[k].id->0 < bound by {
        if k < p {
            assert(au[k] == a[k]);
        } else {
            assert(au[k] == a[k + 1]);
        }
    }
    if is_allocated(t, id) {
        let k = choose|k: int| 0 <= k < t.len() && !t[k].free && t[k].id == Some(id);
        lemma_rank(t, k);
        let m = rank(t, k);
        assert(au[m].id == Some(id));
        if m < p {
            assert(au[m] == a[m]);
            assert(a[m].id != a[p].id);
        } else {
            assert(au[m] == a[m + 1]);
            assert(a[p].id != a[m + 1].id);
        }
    }
}

/// Whenever some block fits, the strategy picks one.
pub proof fn lemma_pick_exists(s: Seq<Block>, n: int, size: usize, strategy: AllocationStrategy)
    requires
        0 <= n <= s.len(),
        exists|j: int| 0 <= j < n && #[trigger] s[j].fits(size),
    ensures
        exists|c: int| picks(s, n, size, strategy, c),
    decreases n,
{
    let last = n - 1;
    if exists|j: int| 0 <= j < last && #[trigger] s[j].fits(size) {
        lemma_pick_exists(s, last, size, strategy);
        let c = choose|c: int| picks(s, last, size, strategy, c);
        if s[last].fits(size) && match strategy {
            AllocationStrategy::FirstFit => false,
            AllocationStrategy::BestFit => s[last].size < s[c].size,
            AllocationStrategy::WorstFit => s[last].size > s[c].size,
        } {
            assert(picks(s, n, size, strategy, last));
        } else {
            assert(picks(s, n, size, strategy, c));
        }
    } else {
        assert(s[last].fits(size));
        assert(picks(s, n, size, strategy, last));
    }
}

/// Releasing a block keeps the layout contiguous and its extent.
pub proof fn lemma_release_contiguous(s: Seq<Block>, i: int)
    requires
        contiguous(s),
        0 <= i < s.len(),
    ensures
        release(s, i).len() == s.len(),
        contiguous(release(s, i)),
        release(s, i).last().end() == s.last().end(),
{
    let u = release(s, i);
    assert forall|k: int, l: int| 0 <= k && l == k + 1 && l < u.len() implies #[trigger] u[l].start
        == #[trigger] u[k].end() by {
        assert(s[l].start == s[k].end());
    }
}

/// Blocks come in address order: each ends no later than any later one begins.
pub proof fn lemma_ordered(s: Seq<Block>)
    requires
        contiguous(s),
    ensures
        forall|i: int, j: int| 0 <= i < j < s.len() ==> #[trigger] s[i].end() <= #[trigger] s[j].start,
    decreases s.len(),
{
    if s.len() > 0 {
        let t = s.drop_last();
        lemma_contiguous_drop_last(s);
        lemma_ordered(t);
        assert forall|i: int, j: int| 0 <= i < j < s.len() implies #[trigger] s[i].end()
            <= #[trigger] s[j].start by {
            if j < s.len() - 1 {
                assert(s[i] == t[i] && s[j] == t[j]);
            } else if i < j - 1 {
                assert(s[i] == t[i] && s[j - 1] == t[j - 1]);
                assert(s[j].start == s[j - 1].end());
            } else {
                assert(s[j].start == s[i].end());
            }
        }
    }
}

/// Releasing a block just placed by `place` and merging gives back the layout from
/// before the placement.
pub proof fn lemma_release_after_place(s: Seq<Block>, c: int, size: usize, id: u32, total: int)
    requires
        tiles(s, total),
        total <= usize::MAX,
        no_adjacent_free(s),
        free_blocks_unowned(s),
        0 <= c < s.len(),
        s[c].fits(size),
    ensures
        coalesced(release(place(s, c, size, id), c)) == s,
{
    let b = s[c];
    let u = release(place(s, c, size, id), c);
    lemma_bounds(s);
    if b.size == size {
        assert(u =~= s);
        lemma_coalesced_identity(s);
    } else {
        lemma_release_after_split(s, c, size, id);
    }
}

proof fn lemma_release_after_split(s: Seq<Block>, c: int, size: usize, id: u32)
    requires
        no_adjacent_free(s),
        free_blocks_unowned(s),
        0 <= c < s.len(),
        s[c].fits(size),
        s[c].size != size,
        s[c].end() <= usize::MAX,
    ensures
        coalesced(release(place(s, c, size, id), c)) == s,
{
    let b = s[c];
    let u = release(place(s, c, size, id), c);
    let x = Block { start: b.start, size, free: true, id: None };
    let y = Block { start: (b.start + size) as usize, size: (b.size - size) as usize, free: true, id: None };
    assert(u =~= s.take(c) + seq![x, y] + s.skip(c + 1));
    assert forall|i: int, j: int|
        #![trigger u[i], u[j]]
        0 <= i && j == i + 1 && j < u.len() && i != c implies !(u[i].free && u[j].free) by {
        if j < c {
            assert(u[i] == s[i] && u[j] == s[j]);
        } else if j == c {
            assert(u[i] == s[i]);
            assert(!(s[i].free && s[c].free));
        } else if j == c + 2 {
            assert(u[j] == s[c + 1]);
            assert(!(s[c].free && s[c + 1].free));
        } else {
            assert(u[i] == s[i - 1] && u[j] == s[j - 1]);
        }
    }
    lemma_coalesced_one_pair(u, c);
    assert(merge(u[c], u[c + 1]) == b);
    assert(coalesced(u) =~= s);
}

pub proof fn lemma_size_sum_concat(a: Seq<Block>, b: Seq<Block>)
    ensures
        size_sum(a + b) == size_sum(a) + size_sum(b),
    decreases b.len(),
{
    if b.len() == 0 {
        assert(a + b =~= a);
    } else {
        lemma_size_sum_concat(a, b.drop_last());
        assert((a + b).drop_last() =~= a + b.drop_last());
    }
}

pub proof fn lemma_size_sum_single(x: Block)
    ensures
        size_sum(seq![x]) == x.size,
{
    assert(seq![x].drop_last() =~= Seq::<Block>::empty());
    assert(size_sum(Seq::<Block>::empty()) == 0);
    assert(seq![x].last() == x);
}

/// The sizes of contiguous blocks add up to their extent.
pub proof fn lemma_size_sum_extent(s: Seq<Block>)
    requires
        s.len() > 0,
        contiguous(s),
    ensures
        size_sum(s) == s.last().end() - s[0].start,
    decreases s.len(),
{
    if s.len() == 1 {
        assert(s.drop_last() =~= Seq::<Block>::empty());
        assert(size_sum(Seq::<Block>::empty()) == 0);
    } else {
        let t = s.drop_last();
        lemma_contiguous_drop_last(s);
        lemma_size_sum_extent(t);
        assert(t.last() == s[s.len() - 2] && t[0] == s[0]);
        assert(s[s.len() - 1].start == s[s.len() - 2].end());
    }
}

/// The blocks in use hold no more bytes than the whole layout.
pub proof fn lemma_used_le_size_sum(s: Seq<Block>)
    ensures
        0 <= used_bytes(s) <= size_sum(s),
    decreases s.len(),
{
    if s.len() > 0 {
        let t = s.drop_last();
        lemma_used_le_size_sum(t);
        if !s.last().free {
            assert(allocated_blocks(t).push(s.last()).drop_last() =~= allocated_blocks(t));
        }
    }
}

/// A placement adds exactly the requested size to the bytes in use.
pub proof fn lemma_place_used(s: Seq<Block>, c: int, size: usize, id: u32)
    requires
        0 <= c < s.len(),
        s[c].fits(size),
    ensures
        used_bytes(place(s, c, size, id)) == used_bytes(s) + size,
{
    let b = s[c];
    let t = place(s, c, size, id);
    let x = Block { start: b.start, size, free: false, id: Some(id) };
    let r = Block { start: (b.start + size) as usize, size: (b.size - size) as usize, free: true, id: None };
    let mid = if b.size == size { seq![x] } else { seq![x, r] };
    assert(t =~= s.take(c) + mid + s.skip(c + 1));
    lemma_allocated_split(s, c);
    lemma_allocated_single(b);
    lemma_allocated_concat(s.take(c) + mid, s.skip(c + 1));
    lemma_allocated_concat(s.take(c), mid);
    if b.size != size {
        assert(mid =~= seq![x] + seq![r]);
        lemma_allocated_concat(seq![x], seq![r]);
        lemma_allocated_single(r);
    }
    lemma_allocated_single(x);
    assert(allocated_blocks(mid) =~= seq![x]);
    let pre = allocated_blocks(s.take(c));
    let post = allocated_blocks(s.skip(c + 1));
    assert(allocated_blocks(s) =~= pre + post);
    lemma_size_sum_concat(pre, post);
    lemma_size_sum_concat(pre + seq![x], post);
    lemma_size_sum_concat(pre, seq![x]);
    lemma_size_sum_single(x);
}

/// Releasing block `i` and merging frees exactly its bytes.
pub proof fn lemma_release_used(s: Seq<Block>, i: int)
    requires
        0 <= i < s.len(),
        !s[i].free,
        contiguous(s),
        s.last().end() <= usize::MAX,
    ensures
        used_bytes(coalesced(release(s, i))) == used_bytes(s) - s[i].size,
{
    let u = release(s, i);
    lemma_release_contiguous(s, i);
    lemma_coalesced(u);
    lemma_allocated_split(s, i);
    lemma_allocated_split(u, i);
    assert(u.take(i) =~= s.take(i));
    assert(u.skip(i + 1) =~= s.skip(i + 1));
    lemma_allocated_single(s[i]);
    lemma_allocated_single(u[i]);
    let pre = allocated_blocks(s.take(i));
    let post = allocated_blocks(s.skip(i + 1));
    assert(allocated_blocks(u) =~= pre + post);
    lemma_size_sum_concat(pre, post);
    lemma_size_sum_concat(pre + seq![s[i]], post);
    lemma_size_sum_concat(pre, seq![s[i]]);
    lemma_size_sum_single(s[i]);
}

/// Every byte of the layout is either in use or free.
pub proof fn lemma_used_plus_free(s: Seq<Block>)
    ensures
        used_bytes(s) + free_bytes(s) == size_sum(s),
    decreases s.len(),
{
    if s.len() > 0 {
        let t = s.drop_last();
        lemma_used_plus_free(t);
        if !s.last().free {
            assert(allocated_blocks(t).push(s.last()).drop_last() =~= allocated_blocks(t));
        }
    }
}

/// The largest free block is no larger than all free blocks together.
pub proof fn lemma_largest_free_le_free(s: Seq<Block>)
    ensures
        0 <= largest_free(s) <= free_bytes(s),
    decreases s.len(),
{
    if s.len() > 0 {
        lemma_largest_free_le_free(s.drop_last());
    }
}

/// The largest free block is as large as every free block, is itself one of the free
/// blocks when there is one, and is 0 when there is none.
pub proof fn lemma_largest_free_is_largest(s: Seq<Block>)
    ensures
        forall|i: int| 0 <= i < s.len() && (#[trigger] s[i]).free ==> s[i].size <= largest_free(s),
        (exists|i: int| 0 <= i < s.len() && (#[trigger] s[i]).free) ==> exists|i: int|
            0 <= i < s.len() && (#[trigger] s[i]).free && s[i].size == largest_free(s),
        (forall|i: int| 0 <= i < s.len() ==> !(#[trigger] s[i]).free) ==> largest_free(s) == 0,
    decreases s.len(),
{
    if s.len() > 0 {
        let t = s.drop_last();
        lemma_largest_free_is_largest(t);
        let n = s.len() - 1;
        assert forall|i: int| 0 <= i < s.len() && (#[trigger] s[i]).free implies s[i].size <= largest_free(s) by {
            if i < n {
                assert(t[i] == s[i]);
            }
        }
        if exists|i: int| 0 <= i < s.len() && (#[trigger] s[i]).free {
            if s.last().free && s.last().size > largest_free(t) {
                assert(s[n].free && s[n].size == largest_free(s));
            } else if exists|i: int| 0 <= i < t.len() && (#[trigger] t[i]).free {
                let i = choose|i: int| 0 <= i < t.len() && (#[trigger] t[i]).free && t[i].size == largest_free(t);
                assert(s[i] == t[i]);
            } else {
                let w = choose|i: int| 0 <= i < s.len() && (#[trigger] s[i]).free;
                if w < n {
                    assert(t[w] == s[w]);
                }
                assert(w == n);
                assert(largest_free(t) == 0);
                assert(s[n].free && s[n].size == largest_free(s));
            }
        }
        if forall|i: int| 0 <= i < s.len() ==> !(#[trigger] s[i]).free {
            assert forall|i: int| 0 <= i < t.len() implies !(#[trigger] t[i]).free by {
                assert(t[i] == s[i]);
            }
            assert(!s[n].free);
        }
    }
}

} // verus!
