use win32::allocator::{align32, Alloc, AllocError};
use win32::arena::ArenaInfo;
use win32::mem::Mem;

#[test]
fn align32_rounds_up_to_four() {
    assert_eq!(align32(0), 0);
    assert_eq!(align32(1), 4);
    assert_eq!(align32(4), 4);
    assert_eq!(align32(5), 8);
    assert_eq!(align32(0xffff_fffc), 0xffff_fffc);
}

#[test]
fn arena_allocations_follow_one_another() {
    let mut mem = Mem::new(0x2000, 32);
    let mut info = ArenaInfo::new(0x2000, 32);
    let mut arena = info.get(&mut mem);
    assert_eq!(arena.allocate(5), 0x2004);
    assert_eq!(arena.allocate(1), 0x2010);
    assert_eq!(arena.size(0x2004), 5);
    assert_eq!(arena.size(0x2010), 1);
    assert_eq!(info.next_offset(), 20);
    assert_eq!(mem.get_u32(0x2000), 5);
    assert_eq!(mem.get_u32(0x200c), 1);
}

#[test]
fn arena_exhaustion_returns_zero_and_changes_nothing() {
    let mut mem = Mem::new(0x2000, 32);
    let mut info = ArenaInfo::new(0x2000, 32);
    let mut arena = info.get(&mut mem);
    assert_eq!(arena.allocate(16), 0x2004);
    let before = arena.mem.read(0x2000, 32);
    assert_eq!(arena.allocate(9), 0);
    assert_eq!(arena.allocate(0xffff_ffff), 0);
    assert_eq!(arena.allocate(0xffff_fff9), 0);
    assert_eq!(arena.mem.read(0x2000, 32), before);
    // what is left can still be had
    assert_eq!(arena.allocate(8), 0x2018);
    assert_eq!(arena.allocate(0), 0);
    assert_eq!(info.next_offset(), 32);
}

#[test]
fn arena_header_round_trip() {
    let mut mem = Mem::new(0x2000, 0x400);
    let mut info = ArenaInfo::new(0x2000, 0x400);
    let mut arena = info.get(&mut mem);
    for size in 1..40u32 {
        let addr = arena.allocate(size);
        if addr != 0 {
            assert_eq!(arena.size(addr), size);
            assert_eq!((addr - 0x2000) % 4, 0);
        }
    }
}

#[test]
fn arena_addresses_only_rise() {
    let mut mem = Mem::new(0x2000, 0x100);
    let mut info = ArenaInfo::new(0x2000, 0x100);
    let mut arena = info.get(&mut mem);
    let sizes = [3u32, 0, 17, 200, 8, 1, 64, 4];
    let mut last_end = 0x2000;
    for size in sizes {
        let addr = arena.allocate(size);
        if addr != 0 {
            assert!(addr - 4 >= last_end);
            last_end = addr + size;
        }
    }
    assert!(last_end <= 0x2100);
}

#[test]
fn arena_free_is_unsupported() {
    let mut mem = Mem::new(0x2000, 32);
    let mut info = ArenaInfo::new(0x2000, 32);
    let mut arena = info.get(&mut mem);
    let addr = arena.allocate(4);
    assert_eq!(arena.free(addr), Err(AllocError::Unsupported));
    assert_eq!(arena.allocate(4), addr + 8);
}

#[test]
fn arena_descriptor_from_parts() {
    let info = ArenaInfo::from_parts(0x100, 0x40, 12);
    assert_eq!(info.addr, 0x100);
    assert_eq!(info.size, 0x40);
    assert_eq!(info.next_offset(), 12);
    assert_eq!(info.addr(), 0x100);
    assert_eq!(info.size(), 0x40);
}

#[test]
fn arena_intact_only_inside_memory() {
    let mut mem = Mem::new(0x2000, 32);
    let mut info = ArenaInfo::new(0x2000, 32);
    assert!(info.get(&mut mem).is_intact());
    let mut info = ArenaInfo::new(0x2000, 33);
    assert!(!info.get(&mut mem).is_intact());
    let mut info = ArenaInfo::new(0x1fff, 8);
    assert!(!info.get(&mut mem).is_intact());
    let mut info = ArenaInfo::from_parts(0x2000, 16, 17);
    assert!(!info.get(&mut mem).is_intact());
    let mut info = ArenaInfo::from_parts(0x2000, 16, 16);
    assert!(info.get(&mut mem).is_intact());
    // a range that ends at the top of the address space
    let mut top = Mem::new(0xffff_fff0, 16);
    let mut info = ArenaInfo::new(0xffff_fff0, 16);
    assert!(!info.get(&mut top).is_intact());
    let mut info = ArenaInfo::new(0xffff_fff0, 15);
    assert!(info.get(&mut top).is_intact());
}
