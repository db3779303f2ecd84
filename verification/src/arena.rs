//! The guest arena: a bump allocator that hands out memory front to back and
//! never takes any back.

use crate::allocator::{align32, padded, Alloc, AllocError};
use crate::mem::Mem;
use vstd::prelude::*;

verus! {

/// Where an arena lies in guest memory and how much of it is used.
pub struct ArenaInfo {
    pub addr: u32,
    pub size: u32,
    /// Offset of the first unused byte.
    next: u32,
}

/// An arena at work: its descriptor together with the memory it lies in.
pub struct Arena<'a> {
    pub info: &'a mut ArenaInfo,
    pub mem: &'a mut Mem,
}

/// Offset of the first unused byte after the first `k` of the requests `sizes`
/// were made of an arena of `capacity` bytes of which `used` were taken. A
/// request that does not fit leaves the arena as it is.
pub open spec fn used_after(used: int, capacity: int, sizes: Seq<u32>, k: int) -> int
    decreases k,
{
    if k <= 0 {
        used
    } else {
        let before = used_after(used, capacity, sizes, k - 1);
        if before + padded(sizes[k - 1] as int) <= capacity {
            before + padded(sizes[k - 1] as int)
        } else {
            before
        }
    }
}

/// The answer to request `k` of `sizes`: the payload's address, or 0 where the
/// request does not fit.
pub open spec fn answer(base: int, used: int, capacity: int, sizes: Seq<u32>, k: int) -> int {
    let before = used_after(used, capacity, sizes, k);
    if before + padded(sizes[k] as int) <= capacity {
        base + before + 4
    } else {
        0
    }
}

/// The arena only fills up.
pub proof fn lemma_used_rises(used: int, capacity: int, sizes: Seq<u32>, i: int, j: int)
    requires
        0 <= i <= j,
    ensures
        used_after(used, capacity, sizes, i) <= used_after(used, capacity, sizes, j),
    decreases j,
{
    if i < j {
        lemma_used_rises(used, capacity, sizes, i, j - 1);
    }
}

/// Of two requests that an arena met, the later lies wholly behind the
/// earlier: addresses only rise, and no byte is handed out twice.
pub proof fn lemma_arena_rising(
    base: int,
    used: int,
    capacity: int,
    sizes: Seq<u32>,
    i: int,
    j: int,
)
    requires
        0 <= i < j < sizes.len(),
        answer(base, used, capacity, sizes, i) != 0,
        answer(base, used, capacity, sizes, j) != 0,
    ensures
        answer(base, used, capacity, sizes, i) + sizes[i] <= answer(base, used, capacity, sizes, j)
            - 4,
{
    lemma_used_rises(used, capacity, sizes, i + 1, j);
}

impl ArenaInfo {
    /// Address of the arena's range.
    pub closed spec fn base(&self) -> int {
        self.addr as int
    }

    /// Length of the arena's range in bytes.
    pub closed spec fn capacity(&self) -> int {
        self.size as int
    }

    /// Offset of the first unused byte.
    pub closed spec fn used(&self) -> int {
        self.next as int
    }

    /// A request for `size` bytes fits into what is left.
    pub open spec fn has_room(&self, size: u32) -> bool {
        self.used() + padded(size as int) <= self.capacity()
    }

    /// An unused arena over the `size` bytes at `addr`.
    pub fn new(addr: u32, size: u32) -> (info: ArenaInfo)
        ensures
            info.base() == addr,
            info.capacity() == size,
            info.used() == 0,
    {
        ArenaInfo { addr, size, next: 0 }
    }

    /// A descriptor with the given fields, as it was stored.
    pub fn from_parts(addr: u32, size: u32, next: u32) -> (info: ArenaInfo)
        ensures
            info.base() == addr,
            info.capacity() == size,
            info.used() == next,
    {
        ArenaInfo { addr, size, next }
    }

    /// Address of the arena's range.
    pub fn addr(&self) -> (addr: u32)
        ensures
            addr == self.base(),
    {
        self.addr
    }

    /// Length of the arena's range in bytes.
    pub fn size(&self) -> (size: u32)
        ensures
            size == self.capacity(),
    {
        self.size
    }

    /// Offset of the first unused byte.
    pub fn next_offset(&self) -> (next: u32)
        ensures
            next == self.used(),
    {
        self.next
    }

    /// Couples the descriptor with the memory that its arena lies in.
    pub fn get<'a>(&'a mut self, mem: &'a mut Mem) -> (arena: Arena<'a>)
        ensures
            *arena.info == *old(self),
            *arena.mem == *old(mem),
            *final(self) == *final(arena.info),
            *final(mem) == *final(arena.mem),
    {
        Arena { info: self, mem }
    }
}

impl<'a> Arena<'a> {
    /// Whether the arena is intact, as `wf` says.
    pub fn is_intact(&self) -> (ok: bool)
        ensures
            ok == self.wf(),
    {
        self.mem.in_range() && self.mem.holds(self.info.addr, self.info.size)
            && self.info.addr as u64 + self.info.size as u64 <= 0xFFFF_FFFF
            && self.info.next <= self.info.size
    }
}

impl<'a> Alloc for Arena<'a> {
    /// The arena's range lies in memory, ends below the top of the address
    /// space, and no more of it is used than it has.
    open spec fn wf(&self) -> bool {
        &&& self.mem.wf()
        &&& self.mem.contains(self.info.base(), self.info.capacity())
        &&& self.info.base() + self.info.capacity() <= u32::MAX
        &&& 0 <= self.info.used() <= self.info.capacity()
    }

    open spec fn header(&self, addr: int) -> u32 {
        self.mem.word(addr - 4)
    }

    open spec fn can_allocate(&self, size: u32) -> bool {
        true
    }

    /// `addr` lies in the arena's range, behind the first header.
    open spec fn can_size(&self, addr: u32) -> bool {
        self.info.base() + 4 <= addr < self.info.base() + self.info.capacity()
    }

    open spec fn can_free(&self, addr: u32) -> bool {
        true
    }

    /// Takes the padded size from the front of what is unused: the header goes
    /// to the first unused byte and the payload behind it. Returns 0, and
    /// changes nothing, where the padded size is more than what is left.
    fn allocate(&mut self, size: u32) -> (addr: u32)
        ensures
            final(self).info.base() == old(self).info.base(),
            final(self).info.capacity() == old(self).info.capacity(),
            old(self).info.has_room(size) ==> {
                &&& addr == old(self).info.base() + old(self).info.used() + 4
                &&& final(self).info.used() == old(self).info.used() + padded(size as int)
                &&& final(self).mem.same_outside(*old(self).mem, addr - 4, addr as int)
                &&& forall|p: int|
                    p + 4 <= addr - 4 || addr <= p ==> #[trigger] final(self).mem.word(p) == old(
                        self,
                    ).mem.word(p)
            },
            !old(self).info.has_room(size) ==> {
                &&& addr == 0
                &&& *final(self).info == *old(self).info
                &&& *final(self).mem == *old(self).mem
            },
            *final(final(self).info) == *final(old(self).info),
            *final(final(self).mem) == *final(old(self).mem),
    {
        if size > 0xFFFF_FFF8 {
            return 0;
        }
        let alloc_size: u32 = align32(size + 4);
        if alloc_size > self.info.size - self.info.next {
            return 0;
        }
        let addr: u32 = self.info.addr + self.info.next;
        self.mem.put_u32(addr, size);
        proof {
            self.mem.lemma_words_outside(*old(self).mem, addr as int, addr + 4);
        }
        self.info.next = self.info.next + alloc_size;
        addr + 4
    }

    fn size(&self, addr: u32) -> (n: u32)
    {
        self.mem.get_u32(addr - 4)
    }

    /// An arena takes nothing back: the call is refused and changes nothing.
    fn free(&mut self, addr: u32) -> (done: Result<(), AllocError>)
        ensures
            done == Err::<(), AllocError>(AllocError::Unsupported),
            *final(self).info == *old(self).info,
            *final(self).mem == *old(self).mem,
            *final(final(self).info) == *final(old(self).info),
            *final(final(self).mem) == *final(old(self).mem),
    {
        Err(AllocError::Unsupported)
    }
}

} // verus!
