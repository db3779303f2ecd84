//! The scratch code buffer: a bump writer over a fixed range of guest memory.
//! What is written stays where it is; nothing is ever taken back.

use crate::mem::Mem;
use vstd::prelude::*;

verus! {

/// `n` rounded up to the next multiple of eight.
pub open spec fn align8(n: int) -> int {
    (n + 7) / 8 * 8
}

/// A range of guest memory and the offset up to which it has been written.
pub struct ScratchSpace {
    addr: u32,
    len: u32,
    ofs: u32,
}

impl ScratchSpace {
    /// Address of the range.
    pub closed spec fn base(&self) -> int {
        self.addr as int
    }

    /// Length of the range in bytes.
    pub closed spec fn capacity(&self) -> int {
        self.len as int
    }

    /// Offset of the next byte to be written.
    pub closed spec fn cursor(&self) -> int {
        self.ofs as int
    }

    /// The range lies in `mem` and ends below the top of the address space,
    /// and the cursor lies within the range.
    pub open spec fn wf(&self, mem: Mem) -> bool {
        &&& mem.wf()
        &&& mem.contains(self.base(), self.capacity())
        &&& self.base() + self.capacity() <= u32::MAX
        &&& 0 <= self.cursor() <= self.capacity()
    }

    /// Whether the buffer is intact, as `wf` says.
    pub fn is_intact(&self, mem: &Mem) -> (ok: bool)
        ensures
            ok == self.wf(*mem),
    {
        mem.in_range() && mem.holds(self.addr, self.len) && self.addr as u64 + self.len as u64
            <= 0xFFFF_FFFF && self.ofs <= self.len
    }

    /// Address of the range.
    pub fn start(&self) -> (addr: u32)
        ensures
            addr == self.base(),
    {
        self.addr
    }

    /// An unwritten buffer over the `len` bytes at `addr`.
    pub fn new(addr: u32, len: u32) -> (buf: ScratchSpace)
        ensures
            buf.base() == addr,
            buf.capacity() == len,
            buf.cursor() == 0,
    {
        ScratchSpace { addr, len, ofs: 0 }
    }

    /// Offset of the next byte to be written.
    pub fn offset(&self) -> (ofs: u32)
        ensures
            ofs == self.cursor(),
    {
        self.ofs
    }

    /// Bytes that can still be written.
    pub fn remaining(&self) -> (n: u32)
        requires
            self.cursor() <= self.capacity(),
        ensures
            n == self.capacity() - self.cursor(),
    {
        self.len - self.ofs
    }

    /// Moves the cursor up to the next multiple of eight. Nothing is written.
    pub fn realign(&mut self)
        requires
            align8(old(self).cursor()) <= old(self).capacity(),
        ensures
            final(self).base() == old(self).base(),
            final(self).capacity() == old(self).capacity(),
            final(self).cursor() == align8(old(self).cursor()),
    {
        let m: u64 = self.ofs as u64 + 7;
        assert(m & !7u64 == m / 8 * 8) by (bit_vector);
        self.ofs = (m & !7u64) as u32;
    }

    /// Copies `buf` to the cursor, moves the cursor behind it and returns the
    /// address that `buf` was written to.
    pub fn write(&mut self, mem: &mut Mem, buf: &[u8]) -> (at: u32)
        requires
            old(self).wf(*old(mem)),
            old(self).cursor() + buf@.len() <= old(self).capacity(),
        ensures
            final(self).base() == old(self).base(),
            final(self).capacity() == old(self).capacity(),
            final(self).cursor() == old(self).cursor() + buf@.len(),
            final(self).wf(*final(mem)),
            at == old(self).base() + old(self).cursor(),
            final(mem).same_outside(*old(mem), at as int, at + buf@.len()),
            final(mem).span(at as int, buf@.len() as int) == buf@,
    {
        let at: u32 = self.addr + self.ofs;
        mem.write(at, buf);
        self.ofs = self.ofs + buf.len() as u32;
        at
    }
}

impl Default for ScratchSpace {
    /// A buffer over no memory at all.
    fn default() -> (buf: ScratchSpace)
        ensures
            buf.base() == 0,
            buf.capacity() == 0,
            buf.cursor() == 0,
    {
        ScratchSpace { addr: 0, len: 0, ofs: 0 }
    }
}

} // verus!
