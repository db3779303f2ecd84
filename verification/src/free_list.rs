//! The free list of the guest heap as a sequence of blocks, and what holds of
//! it whatever memory records it.

use crate::allocator::padded;
use vstd::prelude::*;

verus! {

/// A free block: where it starts and the size its record holds.
pub struct Block {
    pub addr: int,
    pub size: int,
}

/// Bytes of guest memory that a free block claims: its size, and never less
/// than the eight bytes of its record.
pub open spec fn reach(b: Block) -> int {
    if b.size > 8 {
        b.size
    } else {
        8
    }
}

/// Address `a` lies inside free block `b`.
pub open spec fn within(b: Block, a: int) -> bool {
    b.addr <= a < b.addr + reach(b)
}

/// Address `a` lies inside one of the free blocks of `s`.
pub open spec fn covers(s: Seq<Block>, a: int) -> bool {
    exists|i: int| 0 <= i < s.len() && #[trigger] within(s[i], a)
}

/// Block `i` of `s` lies at a nonzero address and ends before block `i + 1`
/// starts.
pub open spec fn apart(s: Seq<Block>, i: int) -> bool {
    s[i].addr > 0 && (i + 1 < s.len() ==> s[i].addr + reach(s[i]) <= s[i + 1].addr)
}

/// Blocks lie at nonzero addresses, in increasing order, without overlap.
pub open spec fn sorted(s: Seq<Block>) -> bool {
    forall|i: int| 0 <= i < s.len() ==> #[trigger] apart(s, i)
}

/// Block `k` ends exactly where block `k + 1` starts.
pub open spec fn touches(s: Seq<Block>, k: int) -> bool {
    0 <= k && k + 1 < s.len() && s[k].addr + s[k].size == s[k + 1].addr
}

/// No block ends exactly where the next one starts.
pub open spec fn coalesced(s: Seq<Block>) -> bool {
    forall|i: int| !#[trigger] touches(s, i)
}

/// Block `b` shares no address with the range `[lo, hi)`.
pub open spec fn beside(b: Block, lo: int, hi: int) -> bool {
    b.addr + reach(b) <= lo || hi <= b.addr
}

/// No block of `s` shares an address with the range `[lo, hi)`.
pub open spec fn off_list(s: Seq<Block>, lo: int, hi: int) -> bool {
    forall|i: int| 0 <= i < s.len() ==> beside(#[trigger] s[i], lo, hi)
}

/// Block `b` shares no address with any block of `s`.
pub open spec fn clear_of(s: Seq<Block>, b: Block) -> bool {
    off_list(s, b.addr, b.addr + reach(b))
}

/// Index of the first block of `s` that holds at least `n` bytes; `s.len()`
/// when there is none.
pub open spec fn first_fit(s: Seq<Block>, n: int) -> int
    decreases s.len(),
{
    if s.len() == 0 || s[0].size >= n {
        0
    } else {
        1 + first_fit(s.drop_first(), n)
    }
}

/// Some block of `s` holds at least `n` bytes.
pub open spec fn fits(s: Seq<Block>, n: int) -> bool {
    first_fit(s, n) < s.len()
}

/// Start of the block that a request for `n` bytes is carved from.
pub open spec fn carved(s: Seq<Block>, n: int) -> int {
    s[first_fit(s, n)].addr
}

/// The free list after `n` bytes were carved from the first block that fits.
/// A block that is more than eight bytes larger than `n` is split and its tail
/// stays in the list; any other is used up whole.
pub open spec fn carve(s: Seq<Block>, n: int) -> Seq<Block> {
    let f = first_fit(s, n);
    if s[f].size > n + 8 {
        s.update(f, Block { addr: s[f].addr + n, size: s[f].size - n })
    } else {
        s.remove(f)
    }
}

/// Number of leading blocks of `s` that start below `a`.
pub open spec fn slot(s: Seq<Block>, a: int) -> int
    decreases s.len(),
{
    if s.len() == 0 || s[0].addr >= a {
        0
    } else {
        1 + slot(s.drop_first(), a)
    }
}

/// Block `k` of `s` joined with the block behind it.
pub open spec fn join(s: Seq<Block>, k: int) -> Seq<Block> {
    s.remove(k + 1).update(k, Block { addr: s[k].addr, size: s[k].size + s[k + 1].size })
}

/// The list after block `k` has swallowed every block that follows it without
/// a gap.
pub open spec fn merge_from(s: Seq<Block>, k: int) -> Seq<Block>
    decreases s.len(),
{
    if touches(s, k) {
        merge_from(join(s, k), k)
    } else {
        s
    }
}

/// The free list after block `b` was given back: `b` is put in address order
/// and joined with the blocks that follow it without a gap; then the block
/// before it, if there is one, is joined with what follows it without a gap.
pub open spec fn release(s: Seq<Block>, b: Block) -> Seq<Block> {
    let p = slot(s, b.addr);
    let t = merge_from(s.insert(p, b), p);
    if p > 0 {
        merge_from(t, p - 1)
    } else {
        t
    }
}

/// The free list after its last block grew by `g` bytes.
pub open spec fn grown(s: Seq<Block>, g: int) -> Seq<Block> {
    s.update(s.len() - 1, Block { addr: s.last().addr, size: s.last().size + g })
}

/// The `g` bytes right behind the last block of `s` lie below `limit`.
pub open spec fn backed(s: Seq<Block>, g: int, limit: int) -> bool {
    s.len() > 0 && s.last().addr + s.last().size + g <= limit
}

/// What stands between a request and its allocation.
#[derive(Clone, Copy, Debug, PartialEq, Eq)]
pub enum Fit {
    /// A free block is large enough.
    Ready,
    /// No free block is large enough; the last one lacks this many bytes.
    Grow(u32),
    /// There is no free block to grow, or the request cannot be met at all.
    Exhausted,
}

/// What stands between a request for `size` bytes and its allocation from `s`.
pub open spec fn fit_for(s: Seq<Block>, size: int) -> Fit {
    let n = padded(size);
    if fits(s, n) {
        Fit::Ready
    } else if s.len() == 0 || n > u32::MAX {
        Fit::Exhausted
    } else {
        Fit::Grow((n - s.last().size) as u32)
    }
}

/// In a sorted list every block ends before any later block starts.
pub proof fn lemma_sorted_gap(s: Seq<Block>, i: int, j: int)
    requires
        sorted(s),
        0 <= i < j < s.len(),
    ensures
        s[i].addr + reach(s[i]) <= s[j].addr,
    decreases j - i,
{
    assert(apart(s, j - 1));
    if i + 1 < j {
        lemma_sorted_gap(s, i, j - 1);
    }
}

/// What `first_fit` finds: no earlier block is large enough, and the block
/// found is.
pub proof fn lemma_first_fit(s: Seq<Block>, n: int)
    ensures
        0 <= first_fit(s, n) <= s.len(),
        forall|j: int| 0 <= j < first_fit(s, n) ==> (#[trigger] s[j]).size < n,
        first_fit(s, n) < s.len() ==> s[first_fit(s, n)].size >= n,
    decreases s.len(),
{
    if s.len() == 0 || s[0].size >= n {
    } else {
        let t = s.drop_first();
        lemma_first_fit(t, n);
        assert forall|j: int| 0 <= j < first_fit(s, n) implies (#[trigger] s[j]).size < n by {
            if j > 0 {
                assert(t[j - 1] == s[j]);
            }
        }
    }
}

/// The first block that is large enough, with none before it, is what
/// `first_fit` finds.
pub proof fn lemma_first_fit_is(s: Seq<Block>, n: int, k: int)
    requires
        0 <= k <= s.len(),
        forall|j: int| 0 <= j < k ==> (#[trigger] s[j]).size < n,
        k < s.len() ==> s[k].size >= n,
    ensures
        first_fit(s, n) == k,
{
    lemma_first_fit(s, n);
    let q = first_fit(s, n);
    if q < k {
        assert(s[q].size < n);
    }
    if k < q {
        assert(s[k].size < n);
    }
}

/// What `slot` counts: the blocks before it start below `a`, the block at it
/// does not.
pub proof fn lemma_slot(s: Seq<Block>, a: int)
    ensures
        0 <= slot(s, a) <= s.len(),
        forall|j: int| 0 <= j < slot(s, a) ==> (#[trigger] s[j]).addr < a,
        slot(s, a) < s.len() ==> s[slot(s, a)].addr >= a,
    decreases s.len(),
{
    if s.len() == 0 || s[0].addr >= a {
    } else {
        let t = s.drop_first();
        lemma_slot(t, a);
        assert forall|j: int| 0 <= j < slot(s, a) implies (#[trigger] s[j]).addr < a by {
            if j > 0 {
                assert(t[j - 1] == s[j]);
            }
        }
    }
}

/// The index that splits `s` into blocks below `a` and the rest is `slot(s, a)`.
pub proof fn lemma_slot_is(s: Seq<Block>, a: int, p: int)
    requires
        0 <= p <= s.len(),
        forall|j: int| 0 <= j < p ==> (#[trigger] s[j]).addr < a,
        p < s.len() ==> s[p].addr >= a,
    ensures
        slot(s, a) == p,
{
    lemma_slot(s, a);
    let q = slot(s, a);
    if q < p {
        assert(s[q].addr < a);
    }
    if p < q {
        assert(s[p].addr < a);
    }
}

/// In a sorted list, block `k` is the first that does not start below its own
/// address.
pub proof fn lemma_slot_of_member(s: Seq<Block>, k: int)
    requires
        sorted(s),
        0 <= k < s.len(),
    ensures
        slot(s, s[k].addr) == k,
{
    assert forall|j: int| 0 <= j < k implies (#[trigger] s[j]).addr < s[k].addr by {
        lemma_sorted_gap(s, j, k);
    }
    lemma_slot_is(s, s[k].addr, k);
}

/// Carving keeps the list sorted.
pub proof fn lemma_carve_sorted(s: Seq<Block>, n: int)
    requires
        sorted(s),
        fits(s, n),
        n > 0,
    ensures
        sorted(carve(s, n)),
{
    let f = first_fit(s, n);
    let t = carve(s, n);
    lemma_first_fit(s, n);
    assert(apart(s, f));
    if f + 1 < s.len() {
        assert(apart(s, f + 1));
    }
    if s[f].size > n + 8 {
        assert forall|i: int| 0 <= i < t.len() implies #[trigger] apart(t, i) by {
            assert(apart(s, i));
        }
    } else {
        assert forall|i: int| 0 <= i < t.len() implies #[trigger] apart(t, i) by {
            if i < f {
                assert(apart(s, i));
            } else {
                assert(apart(s, i + 1));
            }
        }
    }
}

/// A range that no free block touches stays untouched when a block is carved,
/// and the carved bytes lie outside it.
pub proof fn lemma_carve_apart(s: Seq<Block>, n: int, lo: int, hi: int)
    requires
        fits(s, n),
        n > 0,
        off_list(s, lo, hi),
    ensures
        off_list(carve(s, n), lo, hi),
        carved(s, n) + n <= lo || hi <= carved(s, n),
{
    let f = first_fit(s, n);
    let t = carve(s, n);
    lemma_first_fit(s, n);
    assert(beside(s[f], lo, hi));
    if s[f].size > n + 8 {
        assert forall|i: int| 0 <= i < t.len() implies beside(#[trigger] t[i], lo, hi) by {
            assert(beside(s[i], lo, hi));
        }
    } else {
        assert forall|i: int| 0 <= i < t.len() implies beside(#[trigger] t[i], lo, hi) by {
            if i < f {
                assert(beside(s[i], lo, hi));
            } else {
                assert(beside(s[i + 1], lo, hi));
            }
        }
    }
}

/// The bytes that were carved are no longer free.
pub proof fn lemma_carve_taken(s: Seq<Block>, n: int)
    requires
        sorted(s),
        fits(s, n),
        n > 0,
    ensures
        off_list(carve(s, n), carved(s, n), carved(s, n) + n),
{
    let f = first_fit(s, n);
    let t = carve(s, n);
    lemma_first_fit(s, n);
    assert(apart(s, f));
    assert forall|i: int| 0 <= i < t.len() implies beside(
        #[trigger] t[i],
        carved(s, n),
        carved(s, n) + n,
    ) by {
        let o = if s[f].size > n + 8 || i < f {
            i
        } else {
            i + 1
        };
        if o < f {
            lemma_sorted_gap(s, o, f);
        }
        if o > f {
            lemma_sorted_gap(s, f, o);
        }
    }
}

/// The free list after the first `k` of the requests `sizes` were met, one
/// after the other, starting from `s`.
pub open spec fn after(s: Seq<Block>, sizes: Seq<u32>, k: int) -> Seq<Block>
    decreases k,
{
    if k <= 0 {
        s
    } else {
        carve(after(s, sizes, k - 1), padded(sizes[k - 1] as int))
    }
}

/// Each of the requests `sizes` finds a free block that fits when its turn
/// comes.
pub open spec fn served(s: Seq<Block>, sizes: Seq<u32>) -> bool {
    forall|k: int|
        0 <= k < sizes.len() ==> fits(#[trigger] after(s, sizes, k), padded(sizes[k] as int))
}

/// The payload address that request `k` of `sizes` is answered with.
pub open spec fn placed(s: Seq<Block>, sizes: Seq<u32>, k: int) -> int {
    carved(after(s, sizes, k), padded(sizes[k] as int)) + 4
}

/// After request `i` was met, its block stays off the free list however many
/// requests follow.
proof fn lemma_after(s: Seq<Block>, sizes: Seq<u32>, i: int, k: int)
    requires
        sorted(s),
        served(s, sizes),
        0 <= i < sizes.len(),
        0 <= k <= sizes.len(),
    ensures
        sorted(after(s, sizes, k)),
        i < k ==> off_list(
            after(s, sizes, k),
            placed(s, sizes, i) - 4,
            placed(s, sizes, i) - 4 + padded(sizes[i] as int),
        ),
    decreases k,
{
    if k > 0 {
        lemma_after(s, sizes, i, k - 1);
        let before = after(s, sizes, k - 1);
        let n = padded(sizes[k - 1] as int);
        assert(fits(before, n));
        lemma_carve_sorted(before, n);
        if i == k - 1 {
            lemma_carve_taken(before, n);
        } else if i < k - 1 {
            lemma_carve_apart(
                before,
                n,
                placed(s, sizes, i) - 4,
                placed(s, sizes, i) - 4 + padded(sizes[i] as int),
            );
        }
    }
}

/// Allocations that follow one another never overlap: of any two, the header
/// and payload of one end before the header of the other starts.
pub proof fn lemma_allocations_disjoint(s: Seq<Block>, sizes: Seq<u32>, i: int, j: int)
    requires
        sorted(s),
        served(s, sizes),
        0 <= i < j < sizes.len(),
    ensures
        placed(s, sizes, i) + sizes[i] <= placed(s, sizes, j) - 4 || placed(s, sizes, j)
            + sizes[j] <= placed(s, sizes, i) - 4,
{
    lemma_after(s, sizes, i, j);
    let before = after(s, sizes, j);
    assert(fits(before, padded(sizes[j] as int)));
    lemma_carve_apart(
        before,
        padded(sizes[j] as int),
        placed(s, sizes, i) - 4,
        placed(s, sizes, i) - 4 + padded(sizes[i] as int),
    );
}

/// Putting a block that is clear of the list at its slot keeps the list
/// sorted.
pub proof fn lemma_insert_sorted(s: Seq<Block>, b: Block)
    requires
        sorted(s),
        b.addr > 0,
        clear_of(s, b),
    ensures
        sorted(s.insert(slot(s, b.addr), b)),
{
    let p = slot(s, b.addr);
    let t = s.insert(p, b);
    lemma_slot(s, b.addr);
    assert forall|i: int| 0 <= i < t.len() implies #[trigger] apart(t, i) by {
        if i < p {
            assert(apart(s, i));
            assert(beside(s[i], b.addr, b.addr + reach(b)));
        } else if i == p {
            if p < s.len() {
                assert(beside(s[p], b.addr, b.addr + reach(b)));
            }
        } else {
            assert(apart(s, i - 1));
        }
    }
}

/// Joining two blocks that touch keeps the list sorted.
pub proof fn lemma_join_sorted(s: Seq<Block>, k: int)
    requires
        sorted(s),
        touches(s, k),
    ensures
        sorted(join(s, k)),
{
    let t = join(s, k);
    assert(apart(s, k));
    assert(apart(s, k + 1));
    assert forall|i: int| 0 <= i < t.len() implies #[trigger] apart(t, i) by {
        if i < k {
            assert(apart(s, i));
        } else if i > k {
            assert(apart(s, i + 1));
        }
    }
}

/// Merging keeps the list sorted.
pub proof fn lemma_merge_sorted(s: Seq<Block>, k: int)
    requires
        sorted(s),
    ensures
        sorted(merge_from(s, k)),
    decreases s.len(),
{
    if touches(s, k) {
        lemma_join_sorted(s, k);
        lemma_merge_sorted(join(s, k), k);
    }
}

/// Merging from block `k` leaves the blocks before it as they are, and block
/// `k` where it starts.
pub proof fn lemma_merge_keeps_front(s: Seq<Block>, k: int)
    requires
        0 <= k < s.len(),
    ensures
        merge_from(s, k).len() > k,
        merge_from(s, k)[k].addr == s[k].addr,
        forall|i: int| 0 <= i < k ==> #[trigger] merge_from(s, k)[i] == s[i],
    decreases s.len(),
{
    if touches(s, k) {
        lemma_merge_keeps_front(join(s, k), k);
    }
}

/// Where no block behind block `k` touches its successor, merging from block
/// `k` leaves none from `k` on that does, and changes nothing before `k`.
pub proof fn lemma_merge_touches(s: Seq<Block>, k: int)
    requires
        0 <= k < s.len(),
        forall|i: int| i > k ==> !#[trigger] touches(s, i),
    ensures
        forall|i: int| i >= k ==> !#[trigger] touches(merge_from(s, k), i),
        forall|i: int| i < k ==> #[trigger] touches(merge_from(s, k), i) == touches(s, i),
    decreases s.len(),
{
    if touches(s, k) {
        let j = join(s, k);
        assert forall|i: int| i > k implies !#[trigger] touches(j, i) by {
            assert(!touches(s, i + 1));
        }
        lemma_merge_touches(j, k);
        assert(merge_from(s, k) == merge_from(j, k));
        assert forall|i: int| i >= k implies !#[trigger] touches(merge_from(s, k), i) by {
            assert(!touches(merge_from(j, k), i));
        }
        assert forall|i: int| i < k implies #[trigger] touches(merge_from(s, k), i) == touches(
            s,
            i,
        ) by {
            assert(touches(merge_from(j, k), i) == touches(j, i));
        }
    } else {
        assert(merge_from(s, k) == s);
    }
}

/// Giving a block back keeps the list sorted: addresses rise strictly and no
/// two blocks overlap.
pub proof fn lemma_release_sorted(s: Seq<Block>, b: Block)
    requires
        sorted(s),
        b.addr > 0,
        clear_of(s, b),
    ensures
        sorted(release(s, b)),
{
    lemma_slot(s, b.addr);
    lemma_insert_sorted(s, b);
    let p = slot(s, b.addr);
    let t = merge_from(s.insert(p, b), p);
    lemma_merge_sorted(s.insert(p, b), p);
    if p > 0 {
        lemma_merge_sorted(t, p - 1);
    }
}

/// A range that no free block touches stays untouched when blocks merge.
pub proof fn lemma_merge_apart(s: Seq<Block>, k: int, lo: int, hi: int)
    requires
        sorted(s),
        off_list(s, lo, hi),
        lo < hi,
    ensures
        off_list(merge_from(s, k), lo, hi),
    decreases s.len(),
{
    if touches(s, k) {
        let t = join(s, k);
        lemma_join_sorted(s, k);
        assert(apart(s, k));
        assert(beside(s[k], lo, hi));
        assert(beside(s[k + 1], lo, hi));
        assert forall|i: int| 0 <= i < t.len() implies beside(#[trigger] t[i], lo, hi) by {
            if i < k {
                assert(beside(s[i], lo, hi));
            } else if i > k {
                assert(beside(s[i + 1], lo, hi));
            }
        }
        lemma_merge_apart(t, k, lo, hi);
    }
}

/// A live range stays off the free list when another block is given back.
pub proof fn lemma_release_apart(s: Seq<Block>, b: Block, lo: int, hi: int)
    requires
        sorted(s),
        b.addr > 0,
        clear_of(s, b),
        off_list(s, lo, hi),
        beside(b, lo, hi),
        lo < hi,
    ensures
        off_list(release(s, b), lo, hi),
{
    let p = slot(s, b.addr);
    let s1 = s.insert(p, b);
    lemma_slot(s, b.addr);
    lemma_insert_sorted(s, b);
    assert forall|i: int| 0 <= i < s1.len() implies beside(#[trigger] s1[i], lo, hi) by {
        if i < p {
            assert(beside(s[i], lo, hi));
        } else if i > p {
            assert(beside(s[i - 1], lo, hi));
        }
    }
    lemma_merge_apart(s1, p, lo, hi);
    if p > 0 {
        lemma_merge_sorted(s1, p);
        lemma_merge_apart(merge_from(s1, p), p - 1, lo, hi);
    }
}

/// A live range stays off the free list when the last block grows, as long as
/// the bytes that the block gains lie outside the range.
pub proof fn lemma_grown_apart(s: Seq<Block>, g: int, lo: int, hi: int)
    requires
        s.len() > 0,
        off_list(s, lo, hi),
        beside(grown(s, g).last(), lo, hi),
    ensures
        off_list(grown(s, g), lo, hi),
{
    let t = grown(s, g);
    assert forall|i: int| 0 <= i < t.len() implies beside(#[trigger] t[i], lo, hi) by {
        if i < s.len() - 1 {
            assert(beside(s[i], lo, hi));
        }
    }
}

/// Carving leaves no two blocks that touch.
pub proof fn lemma_carve_coalesced(s: Seq<Block>, n: int)
    requires
        sorted(s),
        coalesced(s),
        fits(s, n),
        n > 0,
    ensures
        coalesced(carve(s, n)),
{
    let f = first_fit(s, n);
    let t = carve(s, n);
    lemma_first_fit(s, n);
    assert forall|i: int| !#[trigger] touches(t, i) by {
        if 0 <= i && i + 1 < t.len() {
            if s[f].size > n + 8 {
                assert(!touches(s, i));
                assert(apart(s, i));
            } else if i + 1 < f {
                assert(!touches(s, i));
            } else if i + 1 == f {
                assert(apart(s, i));
                assert(apart(s, f));
            } else {
                assert(!touches(s, i + 1));
            }
        }
    }
}

/// Growing the last block leaves no two blocks that touch.
pub proof fn lemma_grown_coalesced(s: Seq<Block>, g: int)
    requires
        coalesced(s),
        s.len() > 0,
    ensures
        coalesced(grown(s, g)),
{
    let t = grown(s, g);
    assert forall|i: int| !#[trigger] touches(t, i) by {
        assert(!touches(s, i));
    }
}

/// Giving a block back leaves no two blocks that touch.
pub proof fn lemma_release_coalesced(s: Seq<Block>, b: Block)
    requires
        coalesced(s),
    ensures
        coalesced(release(s, b)),
{
    lemma_slot(s, b.addr);
    let p = slot(s, b.addr);
    let s1 = s.insert(p, b);
    assert forall|i: int| i > p implies !#[trigger] touches(s1, i) by {
        assert(!touches(s, i - 1));
    }
    lemma_merge_touches(s1, p);
    lemma_merge_keeps_front(s1, p);
    let t = merge_from(s1, p);
    assert forall|i: int| i < p - 1 implies !#[trigger] touches(t, i) by {
        assert(touches(t, i) == touches(s1, i));
        assert(!touches(s, i));
    }
    if p > 0 {
        lemma_merge_touches(t, p - 1);
        let u = merge_from(t, p - 1);
        assert forall|i: int| !#[trigger] touches(u, i) by {
            if i < p - 1 {
                assert(touches(u, i) == touches(t, i));
            }
        }
    } else {
        assert forall|i: int| !#[trigger] touches(t, i) by {
        }
    }
}

} // verus!
