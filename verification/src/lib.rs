//! Execution core of a 32-bit guest environment hosted on a 64-bit machine.
//!
//! - `mem`: guest memory as a bounds-checked window of bytes.
//! - `scratch`: the bump writer that code is emitted with.
//! - `shims`: the call bridge between guest code and native functions.
//! - `allocator`, `arena`, `heap`, `free_list`: the guest allocators and the
//!   model of the heap's free list.
//! - `dll`, `kernel32`: loaded modules and the resolution of imports.
//! - `trace`: the format of the line that is logged for a call.

pub mod allocator;
pub mod arena;
pub mod dll;
pub mod free_list;
pub mod heap;
pub mod kernel32;
pub mod mem;
pub mod scratch;
pub mod shims;
pub mod trace;
