use win32::mem::Mem;

#[test]
fn new_window_is_zeroed() {
    let mem = Mem::new(0x1000, 16);
    assert_eq!(mem.start(), 0x1000);
    assert_eq!(mem.len(), 16);
    assert_eq!(mem.end(), 0x1010);
    assert_eq!(mem.read(0x1000, 16), vec![0u8; 16]);
}

#[test]
fn holds_checks_both_ends() {
    let mem = Mem::new(0x1000, 16);
    assert!(mem.holds(0x1000, 16));
    assert!(mem.holds(0x100c, 4));
    assert!(mem.holds(0x1010, 0));
    assert!(!mem.holds(0x100d, 4));
    assert!(!mem.holds(0x0fff, 1));
    assert!(!mem.holds(0x1000, 17));
    assert!(!mem.holds(0xffff_fff0, 0xffff_ffff));
}

#[test]
fn words_are_little_endian() {
    let mut mem = Mem::new(0x1000, 16);
    mem.put_u32(0x1004, 0x1234_5678);
    assert_eq!(mem.read(0x1004, 4), vec![0x78, 0x56, 0x34, 0x12]);
    assert_eq!(mem.get_u8(0x1004), 0x78);
    assert_eq!(mem.get_u8(0x1007), 0x12);
    assert_eq!(mem.get_u32(0x1004), 0x1234_5678);
}

#[test]
fn word_round_trip_at_extremes() {
    let mut mem = Mem::new(0, 8);
    for v in [0u32, 1, 0xff, 0x100, 0xffff, 0x1_0000, 0x00ff_ffff, 0x0100_0000, 0xffff_ffff] {
        mem.put_u32(4, v);
        assert_eq!(mem.get_u32(4), v);
    }
}

#[test]
fn put_u32_leaves_neighbours_alone() {
    let mut mem = Mem::new(0x1000, 12);
    mem.put_u32(0x1000, 0xaaaa_aaaa);
    mem.put_u32(0x1008, 0xbbbb_bbbb);
    mem.put_u32(0x1004, 0x0102_0304);
    assert_eq!(mem.get_u32(0x1000), 0xaaaa_aaaa);
    assert_eq!(mem.get_u32(0x1004), 0x0102_0304);
    assert_eq!(mem.get_u32(0x1008), 0xbbbb_bbbb);
}

#[test]
fn unaligned_word_spans_two_words() {
    let mut mem = Mem::new(0x1000, 8);
    mem.put_u32(0x1002, 0xdead_beef);
    assert_eq!(mem.get_u32(0x1000), 0xbeef_0000);
    assert_eq!(mem.get_u32(0x1004), 0x0000_dead);
}

#[test]
fn write_then_read_gives_bytes_back() {
    let mut mem = Mem::new(0x2000, 8);
    mem.write(0x2002, &[1, 2, 3]);
    assert_eq!(mem.read(0x2000, 8), vec![0, 0, 1, 2, 3, 0, 0, 0]);
    mem.put_u8(0x2007, 9);
    assert_eq!(mem.into_bytes(), vec![0, 0, 1, 2, 3, 0, 0, 9]);
}

#[test]
fn from_bytes_keeps_content() {
    let mem = Mem::from_bytes(0x10, vec![5, 6, 7, 8]);
    assert_eq!(mem.start(), 0x10);
    assert_eq!(mem.get_u32(0x10), 0x0807_0605);
}

#[test]
fn slicez_stops_at_zero_byte() {
    let mut mem = Mem::new(0x100, 8);
    mem.write(0x100, &[b'a', b'b', 0, b'c', b'd', b'e', b'f', b'g']);
    assert_eq!(mem.slicez(0x100), Some(vec![b'a', b'b']));
    assert_eq!(mem.slicez(0x102), Some(vec![]));
    assert_eq!(mem.slicez(0x103), None);
    assert_eq!(mem.slicez(0x108), None);
    assert_eq!(mem.slicez(0x50), None);
}

#[test]
fn window_must_lie_in_the_address_space() {
    assert!(Mem::new(0xffff_fff0, 16).in_range());
    assert!(Mem::new(0, 0).in_range());
    assert!(!Mem::from_bytes(0xffff_fff0, vec![0; 17]).in_range());
}
