//! The call bridge between guest code and native functions.
//!
//! The bridge writes machine code into guest memory: two trampolines that
//! switch between the guest's and the host's mode of execution, and one small
//! stub for each native function that the guest may call. The code is given
//! here as byte sequences with the places where addresses and counts go.

use crate::mem::{le_byte, Mem};
use crate::scratch::{align8, ScratchSpace};
use vstd::prelude::*;

verus! {

/// The four little-endian bytes of `v`.
pub open spec fn word_bytes(v: u32) -> Seq<u8> {
    seq![le_byte(v, 0), le_byte(v, 1), le_byte(v, 2), le_byte(v, 3)]
}

/// The trampoline that guest code enters to call a native function: it saves
/// two registers, loads the address of the execution state from the eight
/// bytes at offset 4 (zero until it is installed), calls the native function
/// whose address the stub pushed, restores the registers and returns far,
/// dropping the pushed address.
pub open spec fn to_native_code() -> Seq<u8> {
    seq![
        0x57u8, 0x56, 0x48, 0xbf, 0, 0, 0, 0, 0, 0, 0, 0, 0x48, 0x8d, 0x74, 0x24, 0x20, 0xff, 0x54,
        0x24, 0x18, 0x5e, 0x5f, 0xca, 0x08, 0x00,
    ]
}

/// The trampoline that native code enters to call a guest function: it
/// installs the guest stack, calls the guest function and returns far.
pub open spec fn to_guest_code() -> Seq<u8> {
    seq![0x89u8, 0xfc, 0xff, 0xd6, 0xcb]
}

/// The far pointer through which a stub reaches the trampoline at `target`:
/// the address, then the selector of 64-bit code.
pub open spec fn far_pointer(target: u32) -> Seq<u8> {
    word_bytes(target) + word_bytes(0x2b)
}

/// The stub for a native function at `func`: it pushes the high half of the
/// address, then the low half, calls far through the pointer at `gate`, and
/// returns popping `pop` bytes.
pub open spec fn stub_code(func: u64, gate: u32, pop: u16) -> Seq<u8> {
    seq![0x68u8] + word_bytes((func / 0x1_0000_0000) as u32) + seq![0x68u8] + word_bytes(
        (func % 0x1_0000_0000) as u32,
    ) + seq![0xffu8, 0x1d] + word_bytes(gate) + seq![0xc2u8, (pop % 0x100) as u8, (pop / 0x100) as u8]
}

/// The stub for a function that has no implementation: a breakpoint, then a
/// jump through an address that is not mapped.
pub open spec fn trap_code() -> Seq<u8> {
    seq![0xccu8, 0xb8, 0x01, 0x00, 0x00, 0x00, 0xff, 0x20]
}

/// Address `a` holds a byte of the bridge's trampolines or of its far pointer,
/// for a bridge whose range starts at `addr`.
pub open spec fn in_trampolines(addr: int, a: int) -> bool {
    addr <= a < addr + 26 || addr + 32 <= a < addr + 45
}

/// A native function that guest code may call.
#[derive(Debug)]
pub struct Shim {
    pub name: String,
    /// Native address of the function.
    pub func: u64,
    /// Bytes that the call takes from the guest stack, return address included.
    pub stack_consumed: u32,
}

/// The bridge: where its trampolines lie and what it needs to call into the
/// guest.
pub struct Shims {
    buf: ScratchSpace,
    /// Address of the eight bytes that hold the address of the execution state.
    machine_ptr: u32,
    /// Segment selector for 32-bit code.
    code32_selector: u16,
    /// Guest stack pointer for calls into the guest.
    esp: u32,
    /// Address of the far pointer to the trampoline into native code.
    call64_addr: u32,
    /// Address of the trampoline into guest code.
    pub tramp32_addr: u32,
    /// Whether the execution state has been installed.
    armed: bool,
}

/// What the switch into guest mode needs for one call.
#[derive(Clone, Copy, Debug, PartialEq, Eq)]
pub struct GuestCall {
    /// Address of the guest function.
    pub func: u32,
    /// Where the host's stack pointer is kept during the call.
    pub lcall_esp: u32,
    /// Guest stack pointer at the call: the address of the first argument.
    pub esp: u32,
    /// Far pointer to the trampoline into guest code: selector and address.
    pub m1632: u64,
    /// Guest stack pointer to go back to when the call has returned.
    pub orig_esp: u32,
}

/// The result of a call into the guest. The call has returned by the time
/// this value exists, so there is never anything to wait for.
#[derive(Clone, Copy, Debug, PartialEq, Eq)]
pub struct UnimplFuture {}

impl UnimplFuture {
    /// Always true: the call has completed.
    pub fn is_ready(&self) -> (ready: bool)
        ensures
            ready,
    {
        true
    }
}

/// Appends the four little-endian bytes of `w` to `code`.
fn push_word(code: &mut Vec<u8>, w: u32)
    ensures
        final(code)@ == old(code)@ + word_bytes(w),
{
    code.push((w % 0x100) as u8);
    code.push((w / 0x100 % 0x100) as u8);
    code.push((w / 0x1_0000 % 0x100) as u8);
    code.push((w / 0x100_0000 % 0x100) as u8);
    assert(code@ =~= old(code)@ + word_bytes(w));
}

/// The bytes of `to_native_code`.
fn emit_to_native() -> (code: Vec<u8>)
    ensures
        code@ == to_native_code(),
{
    let code: Vec<u8> = vec![
        0x57u8, 0x56, 0x48, 0xbf, 0, 0, 0, 0, 0, 0, 0, 0, 0x48, 0x8d, 0x74, 0x24, 0x20, 0xff, 0x54,
        0x24, 0x18, 0x5e, 0x5f, 0xca, 0x08, 0x00,
    ];
    assert(code@ =~= to_native_code());
    code
}

/// The bytes of `to_guest_code`.
fn emit_to_guest() -> (code: Vec<u8>)
    ensures
        code@ == to_guest_code(),
{
    let code: Vec<u8> = vec![0x89u8, 0xfc, 0xff, 0xd6, 0xcb];
    assert(code@ =~= to_guest_code());
    code
}

/// The bytes of `far_pointer(target)`.
fn emit_far_pointer(target: u32) -> (code: Vec<u8>)
    ensures
        code@ == far_pointer(target),
{
    let mut code: Vec<u8> = Vec::new();
    push_word(&mut code, target);
    push_word(&mut code, 0x2b);
    assert(code@ =~= far_pointer(target));
    code
}

/// The bytes of `stub_code(func, gate, pop)`.
#[verifier::rlimit(40)]
fn emit_stub(func: u64, gate: u32, pop: u16) -> (code: Vec<u8>)
    ensures
        code@ == stub_code(func, gate, pop),
        code@.len() == 19,
{
    let mut code: Vec<u8> = Vec::new();
    code.push(0x68);
    push_word(&mut code, (func / 0x1_0000_0000) as u32);
    code.push(0x68);
    push_word(&mut code, (func % 0x1_0000_0000) as u32);
    code.push(0xff);
    code.push(0x1d);
    push_word(&mut code, gate);
    code.push(0xc2);
    code.push((pop % 0x100) as u8);
    code.push((pop / 0x100) as u8);
    assert(code@ =~= stub_code(func, gate, pop));
    code
}

/// The bytes of `trap_code`.
fn emit_trap() -> (code: Vec<u8>)
    ensures
        code@ == trap_code(),
        code@.len() == 8,
{
    let code: Vec<u8> = vec![0xccu8, 0xb8, 0x01, 0x00, 0x00, 0x00, 0xff, 0x20];
    assert(code@ =~= trap_code());
    code
}

impl Shims {
    /// The buffer that the bridge writes its code to.
    pub closed spec fn scratch(&self) -> ScratchSpace {
        self.buf
    }

    /// Address of the eight bytes that hold the address of the execution state.
    pub closed spec fn machine_slot(&self) -> int {
        self.machine_ptr as int
    }

    /// Segment selector for 32-bit code.
    pub closed spec fn selector(&self) -> u16 {
        self.code32_selector
    }

    /// Guest stack pointer for calls into the guest.
    pub closed spec fn stack_pointer(&self) -> int {
        self.esp as int
    }

    /// Address of the far pointer to the trampoline into native code.
    pub closed spec fn gate(&self) -> int {
        self.call64_addr as int
    }

    /// Address of the trampoline into guest code.
    pub closed spec fn to_guest(&self) -> int {
        self.tramp32_addr as int
    }

    /// Whether the execution state has been installed.
    pub closed spec fn is_armed(&self) -> bool {
        self.armed
    }

    /// The bridge's buffer lies in `mem`, its cursor stands at a multiple of
    /// eight behind the trampolines, and the slot for the execution state lies
    /// in the first trampoline.
    pub open spec fn wf(&self, mem: Mem) -> bool {
        &&& self.scratch().wf(mem)
        &&& self.scratch().cursor() % 8 == 0
        &&& self.scratch().cursor() >= 48
        &&& self.machine_slot() == self.scratch().base() + 4
        &&& self.gate() == self.scratch().base() + 32
        &&& self.to_guest() == self.scratch().base() + 40
    }

    /// Everything but the buffer's cursor is as in `other`.
    pub open spec fn same_bridge(&self, other: Shims) -> bool {
        &&& self.scratch().base() == other.scratch().base()
        &&& self.scratch().capacity() == other.scratch().capacity()
        &&& self.machine_slot() == other.machine_slot()
        &&& self.selector() == other.selector()
        &&& self.stack_pointer() == other.stack_pointer()
        &&& self.gate() == other.gate()
        &&& self.to_guest() == other.to_guest()
        &&& self.is_armed() == other.is_armed()
    }

    /// Whether the bridge is intact, as `wf` says.
    pub fn is_intact(&self, mem: &Mem) -> (ok: bool)
        ensures
            ok == self.wf(*mem),
    {
        let base: u64 = self.buf.start() as u64;
        self.buf.is_intact(mem) && self.buf.offset() % 8 == 0 && self.buf.offset() >= 48
            && self.machine_ptr as u64 == base + 4 && self.call64_addr as u64 == base + 32
            && self.tramp32_addr as u64 == base + 40
    }

    /// Address of the trampoline into guest code.
    pub fn tramp32_addr(&self) -> (a: u32)
        ensures
            a == self.to_guest(),
    {
        self.tramp32_addr
    }

    /// Address of the far pointer to the trampoline into native code.
    pub fn call64_addr(&self) -> (a: u32)
        ensures
            a == self.gate(),
    {
        self.call64_addr
    }

    /// Address of the eight bytes that hold the address of the execution state.
    pub fn machine_ptr(&self) -> (a: u32)
        ensures
            a == self.machine_slot(),
    {
        self.machine_ptr
    }

    /// Segment selector for 32-bit code.
    pub fn code32_selector(&self) -> (sel: u16)
        ensures
            sel == self.selector(),
    {
        self.code32_selector
    }

    /// Guest stack pointer for calls into the guest.
    pub fn esp(&self) -> (esp: u32)
        ensures
            esp == self.stack_pointer(),
    {
        self.esp
    }

    /// Whether the execution state has been installed.
    pub fn armed(&self) -> (armed: bool)
        ensures
            armed == self.is_armed(),
    {
        self.armed
    }

    /// Offset in the bridge's range of the next stub.
    pub fn cursor(&self) -> (ofs: u32)
        ensures
            ofs == self.scratch().cursor(),
    {
        self.buf.offset()
    }

    /// Bytes of the bridge's range that are left for stubs.
    pub fn room(&self) -> (n: u32)
        requires
            self.scratch().cursor() <= self.scratch().capacity(),
        ensures
            n == self.scratch().capacity() - self.scratch().cursor(),
    {
        self.buf.remaining()
    }

    /// Builds the bridge in the `size` bytes at `addr`: the trampoline into
    /// native code at offset 0, the far pointer to it at offset 32 and the
    /// trampoline into guest code at offset 40. Stubs follow from offset 48.
    #[verifier::rlimit(40)]
    pub fn new(mem: &mut Mem, code32_selector: u16, addr: u32, size: u32) -> (shims: Shims)
        requires
            old(mem).wf(),
            old(mem).contains(addr as int, size as int),
            addr + size <= u32::MAX,
            size >= 48,
        ensures
            shims.wf(*final(mem)),
            shims.scratch().base() == addr,
            shims.scratch().capacity() == size,
            shims.scratch().cursor() == 48,
            shims.selector() == code32_selector,
            shims.stack_pointer() == 0,
            !shims.is_armed(),
            final(mem).span(addr as int, 26) == to_native_code(),
            final(mem).span(addr + 32, 8) == far_pointer(addr),
            final(mem).span(addr + 40, 5) == to_guest_code(),
            final(mem).base() == old(mem).base(),
            final(mem).limit() == old(mem).limit(),
            forall|a: int|
                !in_trampolines(addr as int, a) ==> #[trigger] final(mem).byte(a) == old(mem).byte(
                    a,
                ),
    {
        let mut buf = ScratchSpace::new(addr, size);
        let call64: u32 = buf.write(mem, emit_to_native().as_slice());
        let ghost m1 = *mem;
        buf.realign();
        let call64_addr: u32 = buf.write(mem, emit_far_pointer(call64).as_slice());
        let ghost m2 = *mem;
        buf.realign();
        let tramp32_addr: u32 = buf.write(mem, emit_to_guest().as_slice());
        buf.realign();
        proof {
            assert(mem.span(addr as int, 26) =~= m1.span(addr as int, 26));
            assert(mem.span(addr + 32, 8) =~= m2.span(addr + 32, 8));
        }
        Shims {
            buf,
            machine_ptr: call64 + 4,
            code32_selector,
            esp: 0,
            call64_addr,
            tramp32_addr,
            armed: false,
        }
    }

    /// Installs the native address of the execution state in the trampoline
    /// and the guest stack pointer for calls into the guest.
    pub fn set_machine_hack(&mut self, mem: &mut Mem, machine: u64, esp: u32)
        requires
            old(self).wf(*old(mem)),
        ensures
            final(self).wf(*final(mem)),
            final(self).scratch() == old(self).scratch(),
            final(self).machine_slot() == old(self).machine_slot(),
            final(self).selector() == old(self).selector(),
            final(self).gate() == old(self).gate(),
            final(self).to_guest() == old(self).to_guest(),
            final(self).stack_pointer() == esp,
            final(self).is_armed(),
            final(mem).same_outside(
                *old(mem),
                old(self).machine_slot(),
                old(self).machine_slot() + 8,
            ),
            final(mem).word(old(self).machine_slot()) == machine % 0x1_0000_0000,
            final(mem).word(old(self).machine_slot() + 4) == machine / 0x1_0000_0000,
    {
        mem.put_u32(self.machine_ptr, (machine % 0x1_0000_0000) as u32);
        let ghost m1 = *mem;
        mem.put_u32(self.machine_ptr + 4, (machine / 0x1_0000_0000) as u32);
        proof {
            mem.lemma_same_word(m1, self.machine_ptr as int);
        }
        self.esp = esp;
        self.armed = true;
    }

    /// Writes the stub through which guest code calls `shim` and returns the
    /// stub's address. The stub pops the bytes that the call takes from the
    /// guest stack, less the four of the return address.
    #[verifier::rlimit(40)]
    pub fn add(&mut self, mem: &mut Mem, shim: Shim) -> (at: u32)
        requires
            old(self).wf(*old(mem)),
            4 <= shim.stack_consumed <= 0xFFFF,
            old(self).scratch().cursor() + 24 <= old(self).scratch().capacity(),
        ensures
            final(self).wf(*final(mem)),
            final(self).same_bridge(*old(self)),
            final(self).scratch().cursor() == old(self).scratch().cursor() + 24,
            at == old(self).scratch().base() + old(self).scratch().cursor(),
            final(mem).same_outside(*old(mem), at as int, at + 19),
            final(mem).span(at as int, 19) == stub_code(
                shim.func,
                old(self).gate() as u32,
                (shim.stack_consumed - 4) as u16,
            ),
    {
        let stack_consumed: u16 = (shim.stack_consumed - 4) as u16;
        let code = emit_stub(shim.func, self.call64_addr, stack_consumed);
        let ghost c = self.buf.cursor();
        assert(align8(c + 19) == c + 24) by {
            assert(c % 8 == 0);
        }
        let at: u32 = self.buf.write(mem, code.as_slice());
        self.buf.realign();
        at
    }

    /// Writes a stub that traps as soon as guest code calls it, for the
    /// function called `name`, and returns the stub's address.
    pub fn add_todo(&mut self, mem: &mut Mem, name: String) -> (at: u32)
        requires
            old(self).wf(*old(mem)),
            old(self).scratch().cursor() + 8 <= old(self).scratch().capacity(),
        ensures
            final(self).wf(*final(mem)),
            final(self).same_bridge(*old(self)),
            final(self).scratch().cursor() == old(self).scratch().cursor() + 8,
            at == old(self).scratch().base() + old(self).scratch().cursor(),
            final(mem).same_outside(*old(mem), at as int, at + 8),
            final(mem).span(at as int, 8) == trap_code(),
    {
        let code = emit_trap();
        self.buf.write(mem, code.as_slice())
    }

    /// Lays out the guest stack for a call of the guest function at `func`:
    /// below the current stack pointer eight bytes for the host's stack
    /// pointer, eight for the far return address, and the arguments, the first
    /// at the lowest address.
    #[verifier::rlimit(40)]
    pub fn prepare_call(&mut self, mem: &mut Mem, func: u32, args: &Vec<u32>) -> (call: GuestCall)
        requires
            old(self).wf(*old(mem)),
            old(self).is_armed(),
            old(mem).contains(
                old(self).stack_pointer() - 16 - 4 * args@.len(),
                (16 + 4 * args@.len()) as int,
            ),
        ensures
            final(self).wf(*final(mem)),
            final(self).scratch() == old(self).scratch(),
            final(self).machine_slot() == old(self).machine_slot(),
            final(self).selector() == old(self).selector(),
            final(self).gate() == old(self).gate(),
            final(self).to_guest() == old(self).to_guest(),
            final(self).is_armed(),
            final(self).stack_pointer() == call.esp,
            call.func == func,
            call.orig_esp == old(self).stack_pointer(),
            call.lcall_esp == old(self).stack_pointer() - 8,
            call.esp == old(self).stack_pointer() - 16 - 4 * args@.len(),
            call.m1632 == old(self).selector() * 0x1_0000_0000 + old(self).to_guest(),
            forall|i: int|
                0 <= i < args@.len() ==> final(mem).word(call.esp + 4 * i) == #[trigger] args@[i],
            final(mem).same_outside(*old(mem), call.esp as int, call.esp + 4 * args@.len()),
    {
        let ghost m0 = *mem;
        let orig_esp: u32 = self.esp;
        let lcall_esp: u32 = orig_esp - 8;
        let top: u32 = orig_esp - 16;
        let n: usize = args.len();
        let mut esp: u32 = top;
        let mut k: usize = n;
        while k > 0
            invariant
                0 <= k <= n,
                n == args@.len(),
                esp == top - 4 * (n - k),
                mem.wf(),
                mem.contains(top - 4 * n, (16 + 4 * n) as int),
                mem.same_outside(m0, top - 4 * n, top as int),
                forall|i: int| k <= i < n ==> mem.word(top - 4 * (n - i)) == #[trigger] args@[i],
            decreases k,
        {
            k = k - 1;
            esp = esp - 4;
            let ghost m1 = *mem;
            mem.put_u32(esp, args[k]);
            proof {
                assert forall|i: int| k <= i < n implies mem.word(top - 4 * (n - i))
                    == #[trigger] args@[i] by {
                    if i > k {
                        mem.lemma_same_word(m1, top - 4 * (n - i));
                    }
                }
            }
        }
        self.esp = esp;
        let m1632: u64 = self.code32_selector as u64 * 0x1_0000_0000 + self.tramp32_addr as u64;
        GuestCall { func, lcall_esp, esp, m1632, orig_esp }
    }

    /// Puts the guest stack pointer back where it stood before `call` was
    /// prepared.
    pub fn finish_call(&mut self, call: GuestCall) -> (done: UnimplFuture)
        ensures
            final(self).scratch() == old(self).scratch(),
            final(self).machine_slot() == old(self).machine_slot(),
            final(self).selector() == old(self).selector(),
            final(self).gate() == old(self).gate(),
            final(self).to_guest() == old(self).to_guest(),
            final(self).is_armed() == old(self).is_armed(),
            final(self).stack_pointer() == call.orig_esp,
    {
        self.esp = call.orig_esp;
        UnimplFuture {  }
    }
}

} // verus!
