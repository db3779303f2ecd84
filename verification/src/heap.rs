//! The guest heap: a first-fit allocator whose free list lives in guest memory.
//!
//! A free block starts with an eight-byte record: its size, then the address of
//! the next free block (0 at the end). The list is kept in increasing address
//! order.

use crate::allocator::{align32, padded, Alloc, AllocError};
use crate::free_list::{
    apart, backed, beside, carve, carved, clear_of, coalesced, covers, first_fit, fit_for, fits,
    grown, join, lemma_carve_coalesced, lemma_first_fit, lemma_first_fit_is,
    lemma_merge_keeps_front, lemma_release_coalesced, lemma_slot, lemma_slot_is,
    lemma_slot_of_member, lemma_sorted_gap, merge_from, off_list, reach, release, slot, sorted,
    touches, within, Block, Fit,
};
use crate::mem::Mem;
use vstd::prelude::*;

verus! {

/// Block `i` of `s` is recorded in `mem`, links to block `i + 1` and ends
/// before it starts.
pub open spec fn node_ok(mem: Mem, s: Seq<Block>, i: int) -> bool {
    &&& s[i].addr > 0
    &&& mem.contains(s[i].addr, reach(s[i]))
    &&& s[i].size == mem.word(s[i].addr)
    &&& mem.word(s[i].addr + 4) == (if i + 1 < s.len() {
        s[i + 1].addr
    } else {
        0
    })
    &&& (i + 1 < s.len() ==> s[i].addr + reach(s[i]) <= s[i + 1].addr)
}

/// The free list that starts at `head` in `mem` is exactly `s`.
pub open spec fn is_list(mem: Mem, head: int, s: Seq<Block>) -> bool {
    &&& head == (if s.len() == 0 {
        0
    } else {
        s[0].addr
    })
    &&& forall|i: int| 0 <= i < s.len() ==> #[trigger] node_ok(mem, s, i)
}

/// The blocks found by following the links from `cur`, for as long as they
/// lead upwards.
pub open spec fn walk(mem: Mem, cur: int) -> Seq<Block>
    decreases
        (if cur < mem.limit() {
            mem.limit() - cur
        } else {
            0
        }),
{
    if cur <= 0 || !mem.contains(cur, 8) {
        Seq::empty()
    } else {
        let b = Block { addr: cur, size: mem.word(cur) as int };
        let next = mem.word(cur + 4) as int;
        if next > cur {
            seq![b] + walk(mem, next)
        } else {
            seq![b]
        }
    }
}

/// The block that giving back the allocation at `addr` frees: it starts at
/// the header and holds the recorded size and the header's four bytes.
pub open spec fn block_at(mem: Mem, addr: int) -> Block {
    Block { addr: addr - 4, size: mem.word(addr - 4) + 4 }
}

/// What the heap is told when it is asked to go on with a request.
#[derive(Clone, Copy, Debug, PartialEq, Eq)]
pub enum Event {
    /// The request comes in.
    Request,
    /// The growth that the heap asked for was answered with this many bytes.
    Granted(u32),
}

/// What the heap has done, or wants done, for a request.
#[derive(Clone, Copy, Debug, PartialEq, Eq)]
pub enum Action {
    /// The request is met: the payload's address.
    Done(u32),
    /// The range at `base` must grow by `bytes` bytes before the request can
    /// be met.
    Grow { base: u32, bytes: u32 },
    /// The request cannot be met.
    Fail,
}

/// A list that `mem` records is sorted.
pub proof fn lemma_list_sorted(mem: Mem, head: int, s: Seq<Block>)
    requires
        is_list(mem, head, s),
    ensures
        sorted(s),
{
    assert forall|i: int| 0 <= i < s.len() implies #[trigger] apart(s, i) by {
        assert(node_ok(mem, s, i));
    }
}

/// Memory records at most one list from a given head.
pub proof fn lemma_walk(mem: Mem, head: int, s: Seq<Block>)
    requires
        is_list(mem, head, s),
    ensures
        walk(mem, head) == s,
    decreases s.len(),
{
    if s.len() == 0 {
        assert(s =~= Seq::<Block>::empty());
    } else {
        assert(node_ok(mem, s, 0));
        if s.len() > 1 {
            let t = s.drop_first();
            assert forall|i: int| 0 <= i < t.len() implies #[trigger] node_ok(mem, t, i) by {
                assert(node_ok(mem, s, i + 1));
            }
            lemma_walk(mem, s[1].addr, t);
            assert(s =~= seq![s[0]] + t);
        } else {
            assert(s =~= seq![s[0]]);
        }
    }
}

/// A block whose record was not written is still recorded as it was.
proof fn lemma_node_kept(m0: Mem, m: Mem, s: Seq<Block>, i: int)
    requires
        0 <= i < s.len(),
        node_ok(m0, s, i),
        m.base() == m0.base(),
        m.limit() == m0.limit(),
        forall|a: int| s[i].addr <= a < s[i].addr + 8 ==> #[trigger] m.byte(a) == m0.byte(a),
    ensures
        node_ok(m, s, i),
{
    m.lemma_same_word(m0, s[i].addr);
    m.lemma_same_word(m0, s[i].addr + 4);
}

/// Carving from block `f` leaves the record of every block but `f` and the
/// one before it as it was.
proof fn lemma_carve_keeps(m0: Mem, m: Mem, s: Seq<Block>, f: int, o: int)
    requires
        sorted(s),
        0 <= f < s.len(),
        0 <= o < s.len(),
        o != f,
        o != f - 1,
        node_ok(m0, s, o),
        m.base() == m0.base(),
        m.limit() == m0.limit(),
        forall|a: int|
            !within(s[f], a) && !(f > 0 && s[f - 1].addr + 4 <= a < s[f - 1].addr + 8)
                ==> #[trigger] m.byte(a) == m0.byte(a),
    ensures
        node_ok(m, s, o),
{
    if o < f {
        lemma_sorted_gap(s, o, f - 1);
        lemma_sorted_gap(s, o, f);
    } else {
        lemma_sorted_gap(s, f, o);
        if f > 0 {
            lemma_sorted_gap(s, f - 1, o);
        }
    }
    lemma_node_kept(m0, m, s, o);
}

/// Carving from block `f` leaves a list: `m` is `m0` after the header was
/// written into block `f`, the tail's record behind it where the block was
/// split, and the link of the block before it.
#[verifier::rlimit(40)]
proof fn lemma_carve_list(m0: Mem, m: Mem, head: int, new_head: int, s: Seq<Block>, n: int)
    requires
        is_list(m0, head, s),
        fits(s, n),
        n >= 4,
        m.base() == m0.base(),
        m.limit() == m0.limit(),
        ({
            let f = first_fit(s, n);
            let b = s[f];
            let link = if b.size > n + 8 {
                b.addr + n
            } else {
                m0.word(b.addr + 4) as int
            };
            &&& forall|a: int|
                !within(b, a) && !(f > 0 && s[f - 1].addr + 4 <= a < s[f - 1].addr + 8)
                    ==> #[trigger] m.byte(a) == m0.byte(a)
            &&& f > 0 ==> m.word(s[f - 1].addr) == m0.word(s[f - 1].addr)
            &&& b.size > n + 8 ==> m.word(b.addr + n) == b.size - n && m.word(b.addr + n + 4)
                == m0.word(b.addr + 4)
            &&& f > 0 ==> m.word(s[f - 1].addr + 4) == link
            &&& new_head == (if f > 0 {
                head
            } else {
                link
            })
        }),
    ensures
        is_list(m, new_head, carve(s, n)),
{
    let f = first_fit(s, n);
    let t = carve(s, n);
    lemma_first_fit(s, n);
    lemma_list_sorted(m0, head, s);
    assert(node_ok(m0, s, f));
    if f > 0 {
        assert(node_ok(m0, s, f - 1));
    }
    if f + 1 < s.len() {
        assert(node_ok(m0, s, f + 1));
    }
    if s[f].size > n + 8 {
        assert forall|i: int| 0 <= i < t.len() implies #[trigger] node_ok(m, t, i) by {
            assert(node_ok(m0, s, i));
            if i + 1 < s.len() {
                assert(node_ok(m0, s, i + 1));
            }
            if i != f && i != f - 1 {
                lemma_carve_keeps(m0, m, s, f, i);
            }
        }
    } else {
        assert forall|i: int| 0 <= i < t.len() implies #[trigger] node_ok(m, t, i) by {
            let o = if i < f {
                i
            } else {
                i + 1
            };
            assert(t[i] == s[o]);
            assert(node_ok(m0, s, o));
            if o + 1 < s.len() {
                assert(node_ok(m0, s, o + 1));
            }
            if i + 1 < t.len() {
                assert(t[i + 1] == s[o + 1] || o + 1 == f);
            }
            if o != f - 1 {
                lemma_carve_keeps(m0, m, s, f, o);
            }
        }
    }
}

/// Joining block `k` with the block that it touches leaves a list: `m` is
/// `m0` after the joined record was written over that of block `k`.
#[verifier::rlimit(40)]
proof fn lemma_join_list(m0: Mem, m: Mem, head: int, s: Seq<Block>, k: int)
    requires
        is_list(m0, head, s),
        touches(s, k),
        m.same_outside(m0, s[k].addr, s[k].addr + 8),
        m.word(s[k].addr) == s[k].size + s[k + 1].size,
        m.word(s[k].addr + 4) == m0.word(s[k + 1].addr + 4),
    ensures
        is_list(m, head, join(s, k)),
{
    let t = join(s, k);
    lemma_list_sorted(m0, head, s);
    assert(node_ok(m0, s, k));
    assert(node_ok(m0, s, k + 1));
    assert forall|i: int| 0 <= i < t.len() implies #[trigger] node_ok(m, t, i) by {
        let o = if i <= k {
            i
        } else {
            i + 1
        };
        assert(node_ok(m0, s, o));
        if o + 1 < s.len() {
            assert(node_ok(m0, s, o + 1));
        }
        if o < k {
            lemma_sorted_gap(s, o, k);
            lemma_node_kept(m0, m, s, o);
        } else if o > k {
            lemma_sorted_gap(s, k, o);
            lemma_node_kept(m0, m, s, o);
        }
    }
}

/// Putting block `b` at index `p` leaves a list: `m` is `m0` after the record
/// of `b` was written and the link of the block before it was set to `b`.
#[verifier::rlimit(40)]
proof fn lemma_insert_list(m0: Mem, m: Mem, head: int, new_head: int, s: Seq<Block>, b: Block)
    requires
        is_list(m0, head, s),
        b.addr > 0,
        m0.contains(b.addr, reach(b)),
        clear_of(s, b),
        m.base() == m0.base(),
        m.limit() == m0.limit(),
        ({
            let p = slot(s, b.addr);
            &&& forall|a: int|
                !(b.addr <= a < b.addr + 8) && !(p > 0 && s[p - 1].addr + 4 <= a < s[p - 1].addr
                    + 8) ==> #[trigger] m.byte(a) == m0.byte(a)
            &&& p > 0 ==> m.word(s[p - 1].addr) == m0.word(s[p - 1].addr)
            &&& m.word(b.addr) == b.size
            &&& m.word(b.addr + 4) == (if p < s.len() {
                s[p].addr
            } else {
                0
            })
            &&& p > 0 ==> m.word(s[p - 1].addr + 4) == b.addr
            &&& new_head == (if p > 0 {
                head
            } else {
                b.addr
            })
        }),
    ensures
        is_list(m, new_head, s.insert(slot(s, b.addr), b)),
{
    let p = slot(s, b.addr);
    let t = s.insert(p, b);
    lemma_slot(s, b.addr);
    lemma_list_sorted(m0, head, s);
    if p > 0 {
        assert(node_ok(m0, s, p - 1));
        assert(beside(s[p - 1], b.addr, b.addr + reach(b)));
    }
    if p < s.len() {
        assert(node_ok(m0, s, p));
        assert(beside(s[p], b.addr, b.addr + reach(b)));
    }
    assert forall|i: int| 0 <= i < t.len() implies #[trigger] node_ok(m, t, i) by {
        if i == p {
            assert(t[i] == b);
            if p < s.len() {
                assert(t[p + 1] == s[p]);
            }
        } else {
            let o = if i < p {
                i
            } else {
                i - 1
            };
            assert(t[i] == s[o]);
            assert(node_ok(m0, s, o));
            assert(beside(s[o], b.addr, b.addr + reach(b)));
            if o + 1 < s.len() {
                assert(node_ok(m0, s, o + 1));
            }
            if o == p - 1 {
                assert(t[i + 1] == b);
            } else {
                if i + 1 < t.len() {
                    assert(t[i + 1] == s[o + 1]);
                }
                if p > 0 {
                    if o < p - 1 {
                        lemma_sorted_gap(s, o, p - 1);
                    } else {
                        lemma_sorted_gap(s, p - 1, o);
                    }
                }
                lemma_node_kept(m0, m, s, o);
            }
        }
    }
}

/// Growing the last block leaves a list: `m` is `m0` after the new size was
/// written into the last block's record.
proof fn lemma_grow_list(m0: Mem, m: Mem, head: int, s: Seq<Block>, g: int)
    requires
        is_list(m0, head, s),
        s.len() > 0,
        g >= 0,
        s.last().addr + s.last().size + g <= m0.limit(),
        m.same_outside(m0, s.last().addr, s.last().addr + 4),
        m.word(s.last().addr) == s.last().size + g,
    ensures
        is_list(m, head, grown(s, g)),
{
    let t = grown(s, g);
    let l = s.len() - 1;
    lemma_list_sorted(m0, head, s);
    assert(node_ok(m0, s, l));
    assert forall|i: int| 0 <= i < t.len() implies #[trigger] node_ok(m, t, i) by {
        assert(node_ok(m0, s, i));
        if i < l {
            lemma_sorted_gap(s, i, l);
            lemma_node_kept(m0, m, s, i);
        } else {
            m.lemma_same_word(m0, s[l].addr + 4);
        }
    }
}

/// Where only bytes of free blocks were written, every word that no free
/// block overlaps reads as before.
proof fn lemma_words_kept(m0: Mem, m: Mem, s: Seq<Block>)
    requires
        forall|a: int| !covers(s, a) ==> #[trigger] m.byte(a) == m0.byte(a),
    ensures
        forall|p: int| off_list(s, p, p + 4) ==> #[trigger] m.word(p) == m0.word(p),
{
    assert forall|p: int| off_list(s, p, p + 4) implies #[trigger] m.word(p) == m0.word(p) by {
        assert forall|x: int| p <= x < p + 4 implies #[trigger] m.byte(x) == m0.byte(x) by {
            assert forall|i: int| 0 <= i < s.len() implies !#[trigger] within(s[i], x) by {
                assert(beside(s[i], p, p + 4));
            }
        }
        m.lemma_same_word(m0, p);
    }
}

/// Where only bytes of free blocks and of block `b` were written, every word
/// that neither a free block nor `b` overlaps reads as before.
proof fn lemma_words_kept_beside(m0: Mem, m: Mem, s: Seq<Block>, b: Block)
    requires
        forall|a: int| !covers(s, a) && !within(b, a) ==> #[trigger] m.byte(a) == m0.byte(a),
    ensures
        forall|p: int|
            off_list(s, p, p + 4) && beside(b, p, p + 4) ==> #[trigger] m.word(p) == m0.word(p),
{
    assert forall|p: int| off_list(s, p, p + 4) && beside(b, p, p + 4) implies #[trigger] m.word(p)
        == m0.word(p) by {
        assert forall|x: int| p <= x < p + 4 implies #[trigger] m.byte(x) == m0.byte(x) by {
            assert forall|i: int| 0 <= i < s.len() implies !#[trigger] within(s[i], x) by {
                assert(beside(s[i], p, p + 4));
            }
        }
        m.lemma_same_word(m0, p);
    }
}

/// Block `i` of `s` is recorded in `mem` and ends before the block that it
/// links to: block `i + 1`, or for the last block the one at `tail`.
spec fn linked(mem: Mem, s: Seq<Block>, i: int, tail: int) -> bool {
    let next = if i + 1 < s.len() {
        s[i + 1].addr
    } else {
        tail
    };
    &&& s[i].addr > 0
    &&& mem.contains(s[i].addr, reach(s[i]))
    &&& s[i].size == mem.word(s[i].addr)
    &&& mem.word(s[i].addr + 4) == next
    &&& (next != 0 ==> s[i].addr + reach(s[i]) <= next)
}

/// The record at the start of a free block.
#[derive(Clone, Copy, Debug)]
pub struct FreeNode {
    pub size: u32,
    /// Address of the next free block, 0 at the end of the list.
    pub next: u32,
}

impl FreeNode {
    /// Reads the record stored at `addr`.
    pub fn get(mem: &Mem, addr: u32) -> (node: FreeNode)
        requires
            mem.wf(),
            mem.contains(addr as int, 8),
        ensures
            node.size == mem.word(addr as int),
            node.next == mem.word(addr + 4),
    {
        FreeNode { size: mem.get_u32(addr), next: mem.get_u32(addr + 4) }
    }

    /// Stores the record at `addr`.
    pub fn put(self, mem: &mut Mem, addr: u32)
        requires
            old(mem).wf(),
            old(mem).contains(addr as int, 8),
        ensures
            final(mem).same_outside(*old(mem), addr as int, addr + 8),
            final(mem).word(addr as int) == self.size,
            final(mem).word(addr + 4) == self.next,
    {
        mem.put_u32(addr, self.size);
        let ghost m1 = *mem;
        mem.put_u32(addr + 4, self.next);
        proof {
            mem.lemma_same_word(m1, addr as int);
        }
    }
}

/// Where a heap lies in guest memory and where its free list starts.
pub struct HeapInfo {
    pub addr: u32,
    pub size: u32,
    /// Address of the first free block, 0 when there is none.
    free: u32,
}

impl HeapInfo {
    /// Address of the heap's range.
    pub closed spec fn base(&self) -> int {
        self.addr as int
    }

    /// Length in bytes that the heap's range was created with.
    pub closed spec fn capacity(&self) -> int {
        self.size as int
    }

    /// Address of the first free block, 0 when there is none.
    pub closed spec fn head(&self) -> int {
        self.free as int
    }

    /// The free blocks, in list order.
    pub open spec fn free_list(&self, mem: Mem) -> Seq<Block> {
        walk(mem, self.head())
    }

    /// The free list is intact: every block lies in `mem`, the links lead from
    /// one block to the next in increasing address order, and the last link is 0.
    pub open spec fn wf(&self, mem: Mem) -> bool {
        mem.wf() && is_list(mem, self.head(), self.free_list(mem))
    }

    /// A descriptor with the given fields, as it was stored.
    pub fn from_parts(addr: u32, size: u32, free: u32) -> (info: HeapInfo)
        ensures
            info.base() == addr,
            info.capacity() == size,
            info.head() == free,
    {
        HeapInfo { addr, size, free }
    }

    /// Address of the heap's range.
    pub fn addr(&self) -> (addr: u32)
        ensures
            addr == self.base(),
    {
        self.addr
    }

    /// Length in bytes that the heap's range was created with.
    pub fn size(&self) -> (size: u32)
        ensures
            size == self.capacity(),
    {
        self.size
    }

    /// Address of the first free block, 0 when there is none.
    pub fn first_free(&self) -> (free: u32)
        ensures
            free == self.head(),
    {
        self.free
    }

    /// The free blocks in list order, each with its address and its size.
    pub fn blocks(&self, mem: &Mem) -> (out: Vec<(u32, u32)>)
        requires
            self.wf(*mem),
        ensures
            out@.len() == self.free_list(*mem).len(),
            forall|i: int|
                0 <= i < out@.len() ==> (#[trigger] out@[i]).0 == self.free_list(*mem)[i].addr
                    && out@[i].1 == self.free_list(*mem)[i].size,
    {
        let ghost s = self.free_list(*mem);
        let mut out: Vec<(u32, u32)> = Vec::new();
        let mut cur: u32 = self.free;
        while cur != 0
            invariant
                mem.wf(),
                is_list(*mem, self.head(), s),
                out@.len() <= s.len(),
                cur == (if out@.len() < s.len() {
                    s[out@.len() as int].addr
                } else {
                    0
                }),
                forall|i: int|
                    0 <= i < out@.len() ==> (#[trigger] out@[i]).0 == s[i].addr && out@[i].1
                        == s[i].size,
            decreases s.len() - out@.len(),
        {
            proof {
                assert(node_ok(*mem, s, out@.len() as int));
            }
            let node = FreeNode::get(mem, cur);
            out.push((cur, node.size));
            cur = node.next;
        }
        proof {
            if out@.len() < s.len() {
                assert(node_ok(*mem, s, out@.len() as int));
            }
        }
        out
    }

    /// Whether the free list is intact, as `wf` says: walks the list once and
    /// tests each block.
    #[verifier::rlimit(40)]
    pub fn is_intact(&self, mem: &Mem) -> (ok: bool)
        ensures
            ok == self.wf(*mem),
    {
        if !mem.in_range() {
            return false;
        }
        let ghost w = self.free_list(*mem);
        let end: u64 = mem.end();
        let mut cur: u32 = self.free;
        let ghost mut seen: Seq<Block> = Seq::empty();
        assert(w =~= seen + walk(*mem, cur as int));
        while cur != 0
            invariant
                mem.wf(),
                end == mem.limit(),
                w == self.free_list(*mem),
                w == seen + walk(*mem, cur as int),
                self.head() == (if seen.len() == 0 {
                    cur as int
                } else {
                    seen[0].addr
                }),
                forall|i: int| 0 <= i < seen.len() ==> #[trigger] linked(*mem, seen, i, cur as int),
            decreases
                (if cur == 0 || cur >= mem.limit() {
                    0
                } else {
                    mem.limit() - cur
                }),
        {
            let ghost k = seen.len() as int;
            if !mem.holds(cur, 8) {
                proof {
                    assert(walk(*mem, cur as int) =~= Seq::<Block>::empty());
                    assert(w =~= seen);
                    if is_list(*mem, self.head(), w) {
                        if k > 0 {
                            assert(node_ok(*mem, w, k - 1));
                            assert(linked(*mem, seen, k - 1, cur as int));
                        }
                        assert(false);
                    }
                }
                return false;
            }
            let node = FreeNode::get(mem, cur);
            let ghost b = Block { addr: cur as int, size: node.size as int };
            let span: u32 = if node.size > 8 {
                node.size
            } else {
                8
            };
            proof {
                assert(walk(*mem, cur as int)[0] == b);
                assert(w[k] == b);
            }
            if cur as u64 + span as u64 > end {
                proof {
                    if is_list(*mem, self.head(), w) {
                        assert(node_ok(*mem, w, k));
                    }
                }
                return false;
            }
            if node.next != 0 && cur as u64 + span as u64 > node.next as u64 {
                proof {
                    if is_list(*mem, self.head(), w) {
                        assert(node_ok(*mem, w, k));
                        assert(k + 1 < w.len());
                        assert(w[k + 1].addr == node.next);
                        assert(span == reach(w[k]));
                        assert(false);
                    }
                }
                return false;
            }
            proof {
                let before = seen;
                seen = seen.push(b);
                assert(w =~= seen + walk(*mem, node.next as int));
                assert forall|i: int| 0 <= i < seen.len() implies #[trigger] linked(
                    *mem,
                    seen,
                    i,
                    node.next as int,
                ) by {
                    if i < k {
                        assert(linked(*mem, before, i, cur as int));
                    }
                }
            }
            cur = node.next;
        }
        proof {
            assert(w =~= seen);
            assert forall|i: int| 0 <= i < w.len() implies #[trigger] node_ok(*mem, w, i) by {
                assert(linked(*mem, seen, i, 0));
                if i + 1 < w.len() {
                    assert(linked(*mem, seen, i + 1, 0));
                }
            }
        }
        true
    }

    /// Makes the `size` bytes at `addr` a heap whose free list is that one block.
    pub fn new(mem: &mut Mem, addr: u32, size: u32) -> (info: HeapInfo)
        requires
            old(mem).wf(),
            addr > 0,
            size >= 8,
            old(mem).contains(addr as int, size as int),
        ensures
            info.base() == addr,
            info.capacity() == size,
            info.head() == addr,
            final(mem).same_outside(*old(mem), addr as int, addr + 8),
            info.wf(*final(mem)),
            info.free_list(*final(mem)) == seq![Block { addr: addr as int, size: size as int }],
    {
        FreeNode { size, next: 0 }.put(mem, addr);
        let info = HeapInfo { addr, size, free: addr };
        proof {
            let s = seq![Block { addr: addr as int, size: size as int }];
            assert(node_ok(*mem, s, 0));
            lemma_walk(*mem, addr as int, s);
        }
        info
    }

    /// Finds the first free block that holds at least `n` bytes: the address
    /// of the block before it (0 when it is the first), its own address and
    /// its record.
    fn find(&self, mem: &Mem, n: u32) -> (found: (u32, u32, FreeNode))
        requires
            self.wf(*mem),
            fits(self.free_list(*mem), n as int),
        ensures
            ({
                let s = self.free_list(*mem);
                let f = first_fit(s, n as int);
                let (prev, cur, node) = found;
                &&& cur == s[f].addr
                &&& prev == (if f == 0 {
                    0
                } else {
                    s[f - 1].addr
                })
                &&& node.size == s[f].size
                &&& node.next == mem.word(cur + 4)
            }),
    {
        let ghost s = self.free_list(*mem);
        let ghost f = first_fit(s, n as int);
        proof {
            lemma_first_fit(s, n as int);
            assert(node_ok(*mem, s, 0));
        }
        let mut prev: u32 = 0;
        let mut cur: u32 = self.free;
        let ghost mut k: int = 0;
        let mut node = FreeNode::get(mem, cur);
        while node.size < n
            invariant
                0 <= k <= f < s.len(),
                mem.wf(),
                is_list(*mem, self.head(), s),
                cur == s[k].addr,
                prev == (if k == 0 {
                    0
                } else {
                    s[k - 1].addr
                }),
                node.size == s[k].size,
                node.next == mem.word(cur + 4),
                forall|j: int| 0 <= j < f ==> (#[trigger] s[j]).size < n,
                s[f].size >= n,
            decreases f - k,
        {
            proof {
                assert(node_ok(*mem, s, k));
                assert(node_ok(*mem, s, k + 1));
                k = k + 1;
            }
            prev = cur;
            cur = node.next;
            node = FreeNode::get(mem, cur);
        }
        (prev, cur, node)
    }

    /// Carves `size` bytes and their header out of the first free block that
    /// is large enough, and returns the payload's address.
    #[verifier::rlimit(40)]
    pub fn carve(&mut self, mem: &mut Mem, size: u32) -> (addr: u32)
        requires
            old(self).wf(*old(mem)),
            fits(old(self).free_list(*old(mem)), padded(size as int)),
        ensures
            final(self).base() == old(self).base(),
            final(self).capacity() == old(self).capacity(),
            final(self).wf(*final(mem)),
            final(self).free_list(*final(mem)) == carve(
                old(self).free_list(*old(mem)),
                padded(size as int),
            ),
            addr == carved(old(self).free_list(*old(mem)), padded(size as int)) + 4,
            final(mem).word(addr - 4) == size,
            final(mem).contains(addr - 4, padded(size as int)),
            final(mem).base() == old(mem).base(),
            final(mem).limit() == old(mem).limit(),
            forall|a: int|
                !covers(old(self).free_list(*old(mem)), a) ==> #[trigger] final(mem).byte(a) == old(
                    mem,
                ).byte(a),
            forall|p: int|
                off_list(old(self).free_list(*old(mem)), p, p + 4) ==> #[trigger] final(mem).word(p)
                    == old(mem).word(p),
    {
        let ghost s = self.free_list(*mem);
        let ghost m0 = *mem;
        let ghost want = padded(size as int);
        let ghost f = first_fit(s, want);
        proof {
            lemma_first_fit(s, want);
            lemma_list_sorted(m0, self.head(), s);
            assert(node_ok(m0, s, f));
            if f > 0 {
                assert(node_ok(m0, s, f - 1));
                lemma_sorted_gap(s, f - 1, f);
            }
        }
        let n: u32 = align32(size + 4);
        let (prev, cur, node) = self.find(mem, n);
        let next: u32 = if node.size - n > 8 {
            let rest: u32 = cur + n;
            FreeNode { size: node.size - n, next: node.next }.put(mem, rest);
            rest
        } else {
            node.next
        };
        let ghost m1 = *mem;
        if prev == 0 {
            self.free = next;
        } else {
            mem.put_u32(prev + 4, next);
        }
        let ghost m2 = *mem;
        mem.put_u32(cur, size);
        proof {
            let m3 = *mem;
            assert(m2.same_outside(m1, prev + 4, prev + 8));
            assert(m3.same_outside(m2, cur as int, cur + 4));
            assert forall|a: int|
                !within(s[f], a) && !(f > 0 && s[f - 1].addr + 4 <= a < s[f - 1].addr + 8)
                    implies #[trigger] m3.byte(a) == m0.byte(a) by {
                assert(m3.byte(a) == m2.byte(a));
                assert(m2.byte(a) == m1.byte(a));
                assert(m1.byte(a) == m0.byte(a));
            }
            if f > 0 {
                m3.lemma_same_word(m0, prev as int);
                m3.lemma_same_word(m2, prev + 4);
            }
            if node.size - n > 8 {
                m3.lemma_same_word(m1, cur + n);
                m3.lemma_same_word(m1, cur + n + 4);
            }
            lemma_carve_list(m0, m3, old(self).head(), self.head(), s, want);
            lemma_walk(m3, self.head(), carve(s, want));
            assert forall|a: int| !covers(s, a) implies #[trigger] m3.byte(a) == m0.byte(a) by {
                assert(!within(s[f], a));
                if f > 0 {
                    assert(!within(s[f - 1], a));
                }
            }
            lemma_words_kept(m0, m3, s);
        }
        cur + 4
    }

    /// Joins the free block at `addr` with the free blocks that follow it
    /// without a gap.
    #[verifier::rlimit(40)]
    pub fn try_coalesce(&mut self, mem: &mut Mem, addr: u32)
        requires
            old(self).wf(*old(mem)),
            ({
                let s = old(self).free_list(*old(mem));
                let k = slot(s, addr as int);
                k < s.len() && s[k].addr == addr
            }),
        ensures
            *final(self) == *old(self),
            final(self).wf(*final(mem)),
            final(self).free_list(*final(mem)) == merge_from(
                old(self).free_list(*old(mem)),
                slot(old(self).free_list(*old(mem)), addr as int),
            ),
            final(mem).same_outside(*old(mem), addr as int, addr + 8),
    {
        let ghost m0 = *mem;
        let ghost s0 = self.free_list(m0);
        let ghost k = slot(s0, addr as int);
        let ghost mut cs = s0;
        proof {
            lemma_slot(s0, addr as int);
            assert(node_ok(m0, s0, k));
        }
        let mut node = FreeNode::get(mem, addr);
        while node.next as u64 == addr as u64 + node.size as u64
            invariant
                mem.wf(),
                is_list(*mem, self.head(), cs),
                0 <= k < cs.len(),
                cs[k].addr == addr,
                node.size == cs[k].size,
                node.next == mem.word(addr + 4),
                merge_from(cs, k) == merge_from(s0, k),
                mem.same_outside(m0, addr as int, addr + 8),
            decreases cs.len(),
        {
            let ghost m1 = *mem;
            proof {
                assert(node_ok(m1, cs, k));
                assert(touches(cs, k));
                assert(node_ok(m1, cs, k + 1));
            }
            let after = FreeNode::get(mem, node.next);
            node = FreeNode { size: node.size + after.size, next: after.next };
            node.put(mem, addr);
            proof {
                lemma_join_list(m1, *mem, self.head(), cs, k);
                cs = join(cs, k);
            }
        }
        proof {
            assert(node_ok(*mem, cs, k));
            assert(!touches(cs, k));
            lemma_walk(*mem, self.head(), cs);
        }
    }

    /// Walks the free list up to the first block that does not start below
    /// `a`: the address of the block before it and its own, each 0 where there
    /// is no such block.
    fn seek(&self, mem: &Mem, a: u32) -> (at: (u32, u32))
        requires
            self.wf(*mem),
        ensures
            ({
                let s = self.free_list(*mem);
                let p = slot(s, a as int);
                &&& at.0 == (if p == 0 {
                    0
                } else {
                    s[p - 1].addr
                })
                &&& at.1 == (if p < s.len() {
                    s[p].addr
                } else {
                    0
                })
            }),
    {
        let ghost s = self.free_list(*mem);
        let mut prev: u32 = 0;
        let mut next: u32 = self.free;
        let ghost mut p: int = 0;
        while next != 0 && next < a
            invariant
                0 <= p <= s.len(),
                mem.wf(),
                is_list(*mem, self.head(), s),
                prev == (if p == 0 {
                    0
                } else {
                    s[p - 1].addr
                }),
                next == (if p < s.len() {
                    s[p].addr
                } else {
                    0
                }),
                forall|j: int| 0 <= j < p ==> (#[trigger] s[j]).addr < a,
            decreases s.len() - p,
        {
            proof {
                assert(node_ok(*mem, s, p));
            }
            prev = next;
            next = mem.get_u32(next + 4);
            proof {
                p = p + 1;
            }
        }
        proof {
            if p < s.len() {
                assert(node_ok(*mem, s, p));
            }
            lemma_slot_is(s, a as int, p);
        }
        (prev, next)
    }

    /// `release` may be given `addr`: the block in front of it lies in `mem`,
    /// has room for the eight bytes of a free block's record, and shares no
    /// address with a free block. An allocation of no bytes has a block of
    /// four bytes and cannot be given back.
    pub open spec fn releasable(&self, mem: Mem, addr: u32) -> bool {
        let b = block_at(mem, addr as int);
        &&& mem.contains(addr - 4, 4)
        &&& padded(mem.word(addr - 4) as int) >= 8
        &&& b.addr > 0
        &&& mem.contains(b.addr, reach(b))
        &&& clear_of(self.free_list(mem), b)
    }

    /// Whether `release` may be given `addr`.
    pub fn can_release(&self, mem: &Mem, addr: u32) -> (ok: bool)
        requires
            self.wf(*mem),
        ensures
            ok == self.releasable(*mem, addr),
    {
        if addr <= 4 || !mem.holds(addr - 4, 4) {
            return false;
        }
        let ghost s = self.free_list(*mem);
        let ghost b = block_at(*mem, addr as int);
        let size: u32 = mem.get_u32(addr - 4);
        if size == 0 {
            return false;
        }
        let lo: u64 = addr as u64 - 4;
        let hi: u64 = if size as u64 + 4 > 8 {
            lo + size as u64 + 4
        } else {
            lo + 8
        };
        if hi > mem.end() {
            return false;
        }
        let mut cur: u32 = self.free;
        let ghost mut k: int = 0;
        while cur != 0
            invariant
                mem.wf(),
                s == self.free_list(*mem),
                is_list(*mem, self.head(), s),
                lo == block_at(*mem, addr as int).addr,
                hi == lo + reach(block_at(*mem, addr as int)),
                0 <= k <= s.len(),
                cur == (if k < s.len() {
                    s[k].addr
                } else {
                    0
                }),
                forall|j: int| 0 <= j < k ==> beside(#[trigger] s[j], lo as int, hi as int),
            decreases s.len() - k,
        {
            proof {
                assert(node_ok(*mem, s, k));
            }
            let node = FreeNode::get(mem, cur);
            let end: u64 = if node.size > 8 {
                cur as u64 + node.size as u64
            } else {
                cur as u64 + 8
            };
            if !(end <= lo || hi <= cur as u64) {
                proof {
                    assert(!beside(s[k], lo as int, hi as int));
                }
                return false;
            }
            cur = node.next;
            proof {
                k = k + 1;
            }
        }
        proof {
            if k < s.len() {
                assert(node_ok(*mem, s, k));
            }
        }
        true
    }

    /// Gives the allocation at `addr` back: its block, from the header on,
    /// goes into the free list in address order and is joined with the free
    /// blocks that follow it without a gap; then the free block before it is
    /// joined with what follows it without a gap.
    #[verifier::rlimit(40)]
    pub fn release(&mut self, mem: &mut Mem, addr: u32)
        requires
            old(self).wf(*old(mem)),
            old(self).releasable(*old(mem), addr),
        ensures
            final(self).base() == old(self).base(),
            final(self).capacity() == old(self).capacity(),
            final(self).wf(*final(mem)),
            final(self).free_list(*final(mem)) == release(
                old(self).free_list(*old(mem)),
                block_at(*old(mem), addr as int),
            ),
            final(mem).base() == old(mem).base(),
            final(mem).limit() == old(mem).limit(),
            forall|a: int|
                !covers(old(self).free_list(*old(mem)), a) && !within(
                    block_at(*old(mem), addr as int),
                    a,
                ) ==> #[trigger] final(mem).byte(a) == old(mem).byte(a),
            forall|p: int|
                off_list(old(self).free_list(*old(mem)), p, p + 4) && beside(
                    block_at(*old(mem), addr as int),
                    p,
                    p + 4,
                ) ==> #[trigger] final(mem).word(p) == old(mem).word(p),
    {
        let ghost m0 = *mem;
        let ghost s = self.free_list(m0);
        let ghost b = block_at(m0, addr as int);
        let ghost p = slot(s, b.addr);
        let size: u32 = mem.get_u32(addr - 4);
        let start: u32 = addr - 4;
        let (prev, next) = self.seek(mem, start);
        proof {
            lemma_slot(s, b.addr);
            lemma_list_sorted(m0, self.head(), s);
            if p > 0 {
                assert(node_ok(m0, s, p - 1));
                assert(beside(s[p - 1], b.addr, b.addr + reach(b)));
            }
        }
        FreeNode { size: size + 4, next }.put(mem, start);
        let ghost m1 = *mem;
        if prev > 0 {
            mem.put_u32(prev + 4, start);
        } else {
            self.free = start;
        }
        let ghost m2 = *mem;
        let ghost s1 = s.insert(p, b);
        proof {
            assert forall|a: int|
                !(b.addr <= a < b.addr + 8) && !(p > 0 && s[p - 1].addr + 4 <= a < s[p - 1].addr
                    + 8) implies #[trigger] m2.byte(a) == m0.byte(a) by {
                assert(m2.byte(a) == m1.byte(a));
                assert(m1.byte(a) == m0.byte(a));
            }
            if p > 0 {
                m2.lemma_same_word(m0, prev as int);
            }
            m2.lemma_same_word(m1, start as int);
            m2.lemma_same_word(m1, start + 4);
            lemma_insert_list(m0, m2, old(self).head(), self.head(), s, b);
            lemma_walk(m2, self.head(), s1);
            lemma_list_sorted(m2, self.head(), s1);
            lemma_slot_of_member(s1, p);
        }
        self.try_coalesce(mem, start);
        let ghost m3 = *mem;
        let ghost t = merge_from(s1, p);
        if prev > 0 {
            proof {
                lemma_merge_keeps_front(s1, p);
                assert(t[p - 1] == s1[p - 1]);
                lemma_list_sorted(m3, self.head(), t);
                lemma_slot_of_member(t, p - 1);
            }
            self.try_coalesce(mem, prev);
        }
        proof {
            assert forall|a: int| !covers(s, a) && !within(b, a) implies #[trigger] mem.byte(a)
                == m0.byte(a) by {
                if p > 0 {
                    assert(!within(s[p - 1], a));
                }
                assert(mem.byte(a) == m3.byte(a));
                assert(m3.byte(a) == m2.byte(a));
            }
            lemma_words_kept_beside(m0, *mem, s, b);
        }
    }

    /// The address and the record of the last free block.
    fn last(&self, mem: &Mem) -> (at: (u32, FreeNode))
        requires
            self.wf(*mem),
            self.free_list(*mem).len() > 0,
        ensures
            at.0 == self.free_list(*mem).last().addr,
            at.1.size == self.free_list(*mem).last().size,
    {
        let ghost s = self.free_list(*mem);
        proof {
            assert(node_ok(*mem, s, 0));
        }
        let mut cur: u32 = self.free;
        let mut node = FreeNode::get(mem, cur);
        let ghost mut k: int = 0;
        while node.next != 0
            invariant
                0 <= k < s.len(),
                mem.wf(),
                is_list(*mem, self.head(), s),
                cur == s[k].addr,
                node.size == s[k].size,
                node.next == mem.word(cur + 4),
            decreases s.len() - k,
        {
            proof {
                assert(node_ok(*mem, s, k));
                assert(node_ok(*mem, s, k + 1));
                k = k + 1;
            }
            cur = node.next;
            node = FreeNode::get(mem, cur);
        }
        proof {
            assert(node_ok(*mem, s, k));
            if k + 1 < s.len() {
                assert(node_ok(*mem, s, k + 1));
            }
        }
        (cur, node)
    }

    /// Adds `granted` bytes, which lie right behind it, to the last free block.
    pub fn extend(&mut self, mem: &mut Mem, granted: u32)
        requires
            old(self).wf(*old(mem)),
            old(self).free_list(*old(mem)).len() > 0,
            ({
                let l = old(self).free_list(*old(mem)).last();
                l.addr + l.size + granted <= old(mem).limit()
            }),
        ensures
            *final(self) == *old(self),
            final(self).wf(*final(mem)),
            final(self).free_list(*final(mem)) == grown(
                old(self).free_list(*old(mem)),
                granted as int,
            ),
            ({
                let l = old(self).free_list(*old(mem)).last();
                final(mem).same_outside(*old(mem), l.addr, l.addr + 4)
            }),
    {
        let ghost m0 = *mem;
        let ghost s = self.free_list(m0);
        proof {
            assert(node_ok(m0, s, s.len() - 1));
        }
        let (cur, node) = self.last(mem);
        mem.put_u32(cur, node.size + granted);
        proof {
            lemma_grow_list(m0, *mem, self.head(), s, granted as int);
            lemma_walk(*mem, self.head(), grown(s, granted as int));
        }
    }

    /// Says whether a request for `size` bytes can be met from the free list
    /// as it is, and by how much the last block falls short if not.
    pub fn probe(&self, mem: &Mem, size: u32) -> (fit: Fit)
        requires
            self.wf(*mem),
        ensures
            fit == fit_for(self.free_list(*mem), size as int),
    {
        let ghost s = self.free_list(*mem);
        let ghost want = padded(size as int);
        if size > 0xFFFF_FFF8 {
            proof {
                lemma_first_fit(s, want);
                if first_fit(s, want) < s.len() {
                    assert(node_ok(*mem, s, first_fit(s, want)));
                }
            }
            return Fit::Exhausted;
        }
        if self.free == 0 {
            return Fit::Exhausted;
        }
        let n: u32 = align32(size + 4);
        proof {
            assert(node_ok(*mem, s, 0));
        }
        let mut cur: u32 = self.free;
        let mut node = FreeNode::get(mem, cur);
        let ghost mut k: int = 0;
        while node.size < n && node.next != 0
            invariant
                0 <= k < s.len(),
                mem.wf(),
                is_list(*mem, self.head(), s),
                cur == s[k].addr,
                node.size == s[k].size,
                node.next == mem.word(cur + 4),
                forall|j: int| 0 <= j < k ==> (#[trigger] s[j]).size < n,
            decreases s.len() - k,
        {
            proof {
                assert(node_ok(*mem, s, k));
                assert(node_ok(*mem, s, k + 1));
                k = k + 1;
            }
            cur = node.next;
            node = FreeNode::get(mem, cur);
        }
        if node.size >= n {
            proof {
                lemma_first_fit_is(s, n as int, k);
            }
            Fit::Ready
        } else {
            proof {
                assert(node_ok(*mem, s, k));
                if k + 1 < s.len() {
                    assert(node_ok(*mem, s, k + 1));
                }
                lemma_first_fit_is(s, n as int, s.len() as int);
            }
            Fit::Grow(n - node.size)
        }
    }
}

/// A heap at work: its descriptor together with the memory it lies in.
pub struct Heap<'a> {
    pub info: &'a mut HeapInfo,
    pub mem: &'a mut Mem,
}

impl HeapInfo {
    /// Couples the descriptor with the memory that its heap lies in.
    pub fn get_heap<'a>(&'a mut self, mem: &'a mut Mem) -> (heap: Heap<'a>)
        ensures
            *heap.info == *old(self),
            *heap.mem == *old(mem),
            *final(self) == *final(heap.info),
            *final(mem) == *final(heap.mem),
    {
        Heap { info: self, mem }
    }
}

impl<'a> Heap<'a> {
    /// The free blocks, in list order.
    pub open spec fn free_list(&self) -> Seq<Block> {
        self.info.free_list(*self.mem)
    }

    /// Goes on with a request for `size` bytes. On `Request` the heap
    /// allocates from the first free block that fits, or asks for the bytes
    /// that the last free block lacks. On `Granted` it adds the granted bytes
    /// to the last free block and allocates if the request now fits.
    #[verifier::rlimit(40)]
    pub fn step(&mut self, size: u32, event: Event) -> (action: Action)
        requires
            old(self).wf(),
        ensures
            final(self).wf(),
            final(self).info.base() == old(self).info.base(),
            final(self).info.capacity() == old(self).info.capacity(),
            final(self).mem.base() == old(self).mem.base(),
            final(self).mem.limit() == old(self).mem.limit(),
            *final(final(self).info) == *final(old(self).info),
            *final(final(self).mem) == *final(old(self).mem),
            ({
                let s = old(self).free_list();
                let n = padded(size as int);
                let found = match event {
                    Event::Request => s,
                    Event::Granted(g) => grown(s, g as int),
                };
                match event {
                    Event::Request if !fits(s, n) => {
                        &&& *final(self).info == *old(self).info
                        &&& *final(self).mem == *old(self).mem
                        &&& action == (match fit_for(s, size as int) {
                            Fit::Grow(k) => (Action::Grow { base: old(self).info.base() as u32, bytes: k }),
                            _ => Action::Fail,
                        })
                    },
                    Event::Granted(g) if !backed(s, g as int, old(self).mem.limit() as int) => {
                        &&& *final(self).info == *old(self).info
                        &&& *final(self).mem == *old(self).mem
                        &&& action == Action::Fail
                    },
                    _ => {
                        &&& forall|a: int|
                            !covers(found, a) ==> #[trigger] final(self).mem.byte(a) == old(
                                self,
                            ).mem.byte(a)
                        &&& forall|p: int|
                            off_list(found, p, p + 4) ==> #[trigger] final(self).mem.word(p) == old(
                                self,
                            ).mem.word(p)
                        &&& if fits(found, n) {
                            &&& action == Action::Done((carved(found, n) + 4) as u32)
                            &&& final(self).free_list() == carve(found, n)
                            &&& final(self).mem.word(carved(found, n)) == size
                        } else {
                            &&& action == Action::Fail
                            &&& final(self).free_list() == found
                        }
                    },
                }
            }),
    {
        let ghost s = self.free_list();
        let ghost m0 = *self.mem;
        match event {
            Event::Request => {
                match self.info.probe(self.mem, size) {
                    Fit::Ready => Action::Done(self.info.carve(self.mem, size)),
                    Fit::Grow(k) => Action::Grow { base: self.info.addr, bytes: k },
                    Fit::Exhausted => Action::Fail,
                }
            },
            Event::Granted(g) => {
                if self.info.free == 0 {
                    return Action::Fail;
                }
                proof {
                    assert(node_ok(m0, s, 0));
                    assert(node_ok(m0, s, s.len() - 1));
                }
                let (cur, node) = self.info.last(self.mem);
                if cur as u64 + node.size as u64 + g as u64 > self.mem.end() {
                    return Action::Fail;
                }
                self.info.extend(self.mem, g);
                let ghost s1 = grown(s, g as int);
                let ghost m1 = *self.mem;
                proof {
                    assert forall|a: int| !covers(s1, a) implies #[trigger] m1.byte(a) == m0.byte(
                        a,
                    ) by {
                        assert(!within(s1[s.len() - 1], a));
                    }
                }
                let action = match self.info.probe(self.mem, size) {
                    Fit::Ready => Action::Done(self.info.carve(self.mem, size)),
                    _ => Action::Fail,
                };
                proof {
                    lemma_words_kept(m0, *self.mem, s1);
                }
                action
            },
        }
    }
}

impl<'a> Alloc for Heap<'a> {
    open spec fn wf(&self) -> bool {
        self.info.wf(*self.mem)
    }

    open spec fn header(&self, addr: int) -> u32 {
        self.mem.word(addr - 4)
    }

    /// A free block is large enough for the request as the list stands.
    open spec fn can_allocate(&self, size: u32) -> bool {
        fits(self.free_list(), padded(size as int))
    }

    open spec fn can_size(&self, addr: u32) -> bool {
        self.mem.contains(addr - 4, 4)
    }

    /// The block in front of `addr` lies in memory and shares no address with
    /// a free block.
    open spec fn can_free(&self, addr: u32) -> bool {
        self.info.releasable(*self.mem, addr)
    }

    /// Allocates from the first free block that holds the padded size. A block
    /// that is more than eight bytes larger is split and its tail stays free.
    fn allocate(&mut self, size: u32) -> (addr: u32)
        ensures
            addr == carved(old(self).free_list(), padded(size as int)) + 4,
            final(self).free_list() == carve(old(self).free_list(), padded(size as int)),
            sorted(final(self).free_list()),
            coalesced(old(self).free_list()) ==> coalesced(final(self).free_list()),
            final(self).mem.contains(addr - 4, padded(size as int)),
            final(self).info.base() == old(self).info.base(),
            final(self).info.capacity() == old(self).info.capacity(),
            final(self).mem.base() == old(self).mem.base(),
            final(self).mem.limit() == old(self).mem.limit(),
            forall|a: int|
                !covers(old(self).free_list(), a) ==> #[trigger] final(self).mem.byte(a) == old(
                    self,
                ).mem.byte(a),
            forall|p: int|
                off_list(old(self).free_list(), p, p + 4) ==> #[trigger] final(self).mem.word(p)
                    == old(self).mem.word(p),
            *final(final(self).info) == *final(old(self).info),
            *final(final(self).mem) == *final(old(self).mem),
    {
        proof {
            let s = self.free_list();
            lemma_list_sorted(*self.mem, self.info.head(), s);
            if coalesced(s) {
                lemma_carve_coalesced(s, padded(size as int));
            }
        }
        let addr = self.info.carve(self.mem, size);
        proof {
            lemma_list_sorted(*self.mem, self.info.head(), self.free_list());
        }
        addr
    }

    fn size(&self, addr: u32) -> (n: u32)
    {
        self.mem.get_u32(addr - 4)
    }

    /// Puts the block in front of `addr` back into the free list, in address
    /// order, and joins it with the free blocks that touch it on either side.
    fn free(&mut self, addr: u32) -> (done: Result<(), AllocError>)
        ensures
            done is Ok,
            final(self).free_list() == release(
                old(self).free_list(),
                block_at(*old(self).mem, addr as int),
            ),
            sorted(final(self).free_list()),
            coalesced(old(self).free_list()) ==> coalesced(final(self).free_list()),
            final(self).info.base() == old(self).info.base(),
            final(self).info.capacity() == old(self).info.capacity(),
            final(self).mem.base() == old(self).mem.base(),
            final(self).mem.limit() == old(self).mem.limit(),
            forall|a: int|
                !covers(old(self).free_list(), a) && !within(
                    block_at(*old(self).mem, addr as int),
                    a,
                ) ==> #[trigger] final(self).mem.byte(a) == old(self).mem.byte(a),
            forall|p: int|
                off_list(old(self).free_list(), p, p + 4) && beside(
                    block_at(*old(self).mem, addr as int),
                    p,
                    p + 4,
                ) ==> #[trigger] final(self).mem.word(p) == old(self).mem.word(p),
            *final(final(self).info) == *final(old(self).info),
            *final(final(self).mem) == *final(old(self).mem),
    {
        proof {
            let s = self.free_list();
            let b = block_at(*self.mem, addr as int);
            lemma_list_sorted(*self.mem, self.info.head(), s);
            if coalesced(s) {
                lemma_release_coalesced(s, b);
            }
        }
        self.info.release(self.mem, addr);
        proof {
            lemma_list_sorted(*self.mem, self.info.head(), self.free_list());
        }
        Ok(())
    }
}

} // verus!
