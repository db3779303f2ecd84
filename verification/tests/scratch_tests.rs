use win32::mem::Mem;
use win32::scratch::ScratchSpace;

#[test]
fn scratch_write_bumps_cursor() {
    let mut mem = Mem::new(0x3000, 64);
    let mut buf = ScratchSpace::new(0x3000, 64);
    assert_eq!(buf.offset(), 0);
    assert_eq!(buf.write(&mut mem, &[1, 2, 3]), 0x3000);
    assert_eq!(buf.offset(), 3);
    assert_eq!(buf.write(&mut mem, &[4, 5]), 0x3003);
    assert_eq!(buf.offset(), 5);
    assert_eq!(buf.remaining(), 59);
    assert_eq!(mem.read(0x3000, 6), vec![1, 2, 3, 4, 5, 0]);
}

#[test]
fn scratch_realign_rounds_up_to_eight() {
    let mut mem = Mem::new(0x3000, 64);
    let mut buf = ScratchSpace::new(0x3000, 64);
    buf.realign();
    assert_eq!(buf.offset(), 0);
    buf.write(&mut mem, &[1]);
    buf.realign();
    assert_eq!(buf.offset(), 8);
    buf.realign();
    assert_eq!(buf.offset(), 8);
    buf.write(&mut mem, &[0; 9]);
    buf.realign();
    assert_eq!(buf.offset(), 24);
}

#[test]
fn scratch_can_be_filled_to_the_last_byte() {
    let mut mem = Mem::new(0x3000, 8);
    let mut buf = ScratchSpace::new(0x3000, 8);
    assert_eq!(buf.write(&mut mem, &[7; 8]), 0x3000);
    assert_eq!(buf.remaining(), 0);
    buf.realign();
    assert_eq!(buf.offset(), 8);
    assert_eq!(buf.write(&mut mem, &[]), 0x3008);
}

#[test]
fn scratch_default_is_empty() {
    let buf = ScratchSpace::default();
    assert_eq!(buf.offset(), 0);
    assert_eq!(buf.remaining(), 0);
}

#[test]
fn scratch_intact_only_inside_memory() {
    let mem = Mem::new(0x3000, 64);
    assert!(ScratchSpace::new(0x3000, 64).is_intact(&mem));
    assert!(ScratchSpace::new(0x3010, 48).is_intact(&mem));
    assert!(!ScratchSpace::new(0x3010, 49).is_intact(&mem));
    assert!(!ScratchSpace::new(0x2fff, 8).is_intact(&mem));
    assert_eq!(ScratchSpace::new(0x3010, 48).start(), 0x3010);
}
