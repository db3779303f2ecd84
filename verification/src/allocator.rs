//! What the guest allocators have in common.
//!
//! An allocation is a four-byte header that holds the requested size, followed
//! by the payload. The address handed out is that of the payload.

use vstd::prelude::*;

verus! {

/// Bytes that a request for `size` bytes takes up: the size rounded up to a
/// multiple of four, and four more for the header.
pub open spec fn padded(size: int) -> int {
    (size + 3) / 4 * 4 + 4
}

/// Rounds `n` up to the next multiple of four.
pub fn align32(n: u32) -> (r: u32)
    requires
        n + 3 <= u32::MAX,
    ensures
        r == (n + 3) / 4 * 4,
{
    let m: u32 = n + 3;
    assert(m & !3u32 == m / 4 * 4) by (bit_vector);
    m & !3u32
}

/// Why an allocator refused a call.
#[derive(Clone, Copy, Debug, PartialEq, Eq)]
pub enum AllocError {
    /// The allocator does not offer this operation.
    Unsupported,
}

/// An allocator over a range of guest memory.
pub trait Alloc {
    /// The allocator's bookkeeping agrees with guest memory.
    spec fn wf(&self) -> bool;

    /// The size recorded in the header in front of `addr`.
    spec fn header(&self, addr: int) -> u32;

    /// `allocate` may be asked for `size` bytes.
    spec fn can_allocate(&self, size: u32) -> bool;

    /// `size` may be asked about `addr`.
    spec fn can_size(&self, addr: u32) -> bool;

    /// `free` may be given `addr`.
    spec fn can_free(&self, addr: u32) -> bool;

    /// Reserves `size` bytes and returns the payload's address, or 0 when the
    /// allocator has no room. The header in front of a payload holds `size`.
    fn allocate(&mut self, size: u32) -> (addr: u32)
        requires
            old(self).wf(),
            old(self).can_allocate(size),
        ensures
            final(self).wf(),
            addr != 0 ==> final(self).header(addr as int) == size,
            addr != 0 && size > 0 ==> final(self).can_size(addr),
    ;

    /// The size that was asked for when `addr` was allocated.
    fn size(&self, addr: u32) -> (n: u32)
        requires
            self.wf(),
            self.can_size(addr),
        ensures
            n == self.header(addr as int),
    ;

    /// Gives the allocation at `addr` back.
    fn free(&mut self, addr: u32) -> (done: Result<(), AllocError>)
        requires
            old(self).wf(),
            old(self).can_free(addr),
        ensures
            final(self).wf(),
    ;
}

} // verus!
