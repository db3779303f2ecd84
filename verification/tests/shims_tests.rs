use win32::mem::Mem;
use win32::shims::{Shim, Shims};

const TO_NATIVE: [u8; 26] = [
    0x57, 0x56, 0x48, 0xbf, 0, 0, 0, 0, 0, 0, 0, 0, 0x48, 0x8d, 0x74, 0x24, 0x20, 0xff, 0x54, 0x24,
    0x18, 0x5e, 0x5f, 0xca, 0x08, 0x00,
];

fn shim(func: u64, stack_consumed: u32) -> Shim {
    Shim { name: String::from("f"), func, stack_consumed }
}

#[test]
fn bridge_layout() {
    let mut mem = Mem::from_bytes(0x4000, vec![0xee; 0x100]);
    let shims = Shims::new(&mut mem, 0x23, 0x4000, 0x100);
    assert_eq!(mem.read(0x4000, 26), TO_NATIVE.to_vec());
    assert_eq!(mem.read(0x4020, 8), vec![0x00, 0x40, 0, 0, 0x2b, 0, 0, 0]);
    assert_eq!(mem.read(0x4028, 5), vec![0x89, 0xfc, 0xff, 0xd6, 0xcb]);
    // the gaps that alignment leaves are not written
    assert_eq!(mem.read(0x401a, 6), vec![0xee; 6]);
    assert_eq!(mem.read(0x402d, 3), vec![0xee; 3]);
    assert_eq!(mem.read(0x4030, 0xd0), vec![0xee; 0xd0]);
    assert_eq!(shims.tramp32_addr, 0x4028);
    assert_eq!(shims.call64_addr(), 0x4020);
    assert_eq!(shims.machine_ptr(), 0x4004);
    assert_eq!(shims.code32_selector(), 0x23);
    assert_eq!(shims.esp(), 0);
    assert_eq!(shims.cursor(), 48);
    assert_eq!(shims.room(), 0x100 - 48);
    assert!(!shims.armed());
}

#[test]
fn bridge_fits_in_48_bytes() {
    let mut mem = Mem::new(0x4000, 48);
    let shims = Shims::new(&mut mem, 1, 0x4000, 48);
    assert_eq!(shims.room(), 0);
}

#[test]
fn stub_pushes_high_half_first() {
    let mut mem = Mem::new(0x4000, 0x100);
    let mut shims = Shims::new(&mut mem, 0x23, 0x4000, 0x100);
    let at = shims.add(&mut mem, shim(0x1122_3344_5566_7788, 12));
    assert_eq!(at, 0x4030);
    assert_eq!(
        mem.read(at, 19),
        vec![
            0x68, 0x44, 0x33, 0x22, 0x11, 0x68, 0x88, 0x77, 0x66, 0x55, 0xff, 0x1d, 0x20, 0x40,
            0x00, 0x00, 0xc2, 0x08, 0x00
        ]
    );
    assert_eq!(shims.cursor(), 72);
    // a second stub starts at the next multiple of eight
    assert_eq!(shims.add(&mut mem, shim(1, 4)), 0x4048);
    assert_eq!(mem.read(0x4048 + 16, 3), vec![0xc2, 0x00, 0x00]);
}

#[test]
fn stub_pop_count_is_sixteen_bits() {
    let mut mem = Mem::new(0x4000, 0x100);
    let mut shims = Shims::new(&mut mem, 0x23, 0x4000, 0x100);
    let at = shims.add(&mut mem, shim(0, 0xffff));
    assert_eq!(mem.read(at + 16, 3), vec![0xc2, 0xfb, 0xff]);
    let at = shims.add(&mut mem, shim(0, 0x104));
    assert_eq!(mem.read(at + 16, 3), vec![0xc2, 0x00, 0x01]);
}

#[test]
fn registered_addresses_stay_valid() {
    let mut mem = Mem::new(0x4000, 0x100);
    let mut shims = Shims::new(&mut mem, 0x23, 0x4000, 0x100);
    let first = shims.add(&mut mem, shim(0xaaaa_bbbb, 8));
    let before = mem.read(first, 19);
    let trap = shims.add_todo(&mut mem, String::from("kernel32.dll:Missing"));
    let second = shims.add(&mut mem, shim(0xcccc_dddd, 16));
    assert!(first < trap && trap < second);
    assert_eq!(mem.read(first, 19), before);
    assert_eq!(mem.read(0x4000, 26), TO_NATIVE.to_vec());
}

#[test]
fn trap_stub_starts_with_breakpoint() {
    let mut mem = Mem::new(0x4000, 0x100);
    let mut shims = Shims::new(&mut mem, 0x23, 0x4000, 0x100);
    let at = shims.add_todo(&mut mem, String::from("user32.dll:17"));
    assert_eq!(at, 0x4030);
    assert_eq!(mem.read(at, 8), vec![0xcc, 0xb8, 0x01, 0x00, 0x00, 0x00, 0xff, 0x20]);
    assert_eq!(shims.cursor(), 56);
}

#[test]
fn machine_pointer_is_patched_into_trampoline() {
    let mut mem = Mem::new(0x4000, 0x100);
    let mut shims = Shims::new(&mut mem, 0x23, 0x4000, 0x100);
    shims.set_machine_hack(&mut mem, 0xaabb_ccdd_0011_2233, 0x8000);
    assert_eq!(mem.read(0x4004, 8), vec![0x33, 0x22, 0x11, 0x00, 0xdd, 0xcc, 0xbb, 0xaa]);
    assert_eq!(mem.read(0x4000, 4), vec![0x57, 0x56, 0x48, 0xbf]);
    assert_eq!(mem.read(0x400c, 14), TO_NATIVE[12..].to_vec());
    assert_eq!(shims.esp(), 0x8000);
    assert!(shims.armed());
}

#[test]
fn call_frame_layout() {
    let mut mem = Mem::new(0x4000, 0x1000);
    let mut shims = Shims::new(&mut mem, 0x23, 0x4000, 0x100);
    shims.set_machine_hack(&mut mem, 0x7000_0000_0000, 0x4800);
    let call = shims.prepare_call(&mut mem, 0x1234, &vec![1, 2, 3]);
    assert_eq!(call.func, 0x1234);
    assert_eq!(call.orig_esp, 0x4800);
    assert_eq!(call.lcall_esp, 0x47f8);
    assert_eq!(call.esp, 0x47e4);
    assert_eq!(call.m1632, 0x0000_0023_0000_4028);
    assert_eq!(mem.get_u32(0x47e4), 1);
    assert_eq!(mem.get_u32(0x47e8), 2);
    assert_eq!(mem.get_u32(0x47ec), 3);
    assert_eq!(mem.read(0x47f0, 16), vec![0; 16]);
    assert_eq!(shims.esp(), 0x47e4);
    let done = shims.finish_call(call);
    assert!(done.is_ready());
    assert_eq!(shims.esp(), 0x4800);
}

#[test]
fn call_frame_without_arguments() {
    let mut mem = Mem::new(0x4000, 0x1000);
    let mut shims = Shims::new(&mut mem, 0x1b, 0x4000, 0x100);
    shims.set_machine_hack(&mut mem, 1, 0x5000);
    let call = shims.prepare_call(&mut mem, 0x99, &vec![]);
    assert_eq!(call.esp, 0x4ff0);
    assert_eq!(call.lcall_esp, 0x4ff8);
    assert_eq!(call.m1632, 0x0000_001b_0000_4028);
}

#[test]
fn bridge_is_intact_in_its_own_memory_only() {
    let mut mem = Mem::new(0x4000, 0x100);
    let mut shims = Shims::new(&mut mem, 0x23, 0x4000, 0x100);
    assert!(shims.is_intact(&mem));
    shims.add(&mut mem, shim(1, 8));
    shims.add_todo(&mut mem, String::from("x"));
    assert!(shims.is_intact(&mem));
    assert_eq!(shims.tramp32_addr(), 0x4028);
    // a window that does not hold the bridge's range
    assert!(!shims.is_intact(&Mem::new(0x4000, 0x80)));
    assert!(!shims.is_intact(&Mem::new(0x5000, 0x100)));
}
