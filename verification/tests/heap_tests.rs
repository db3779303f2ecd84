use win32::allocator::Alloc;
use win32::heap::{Action, Event, FreeNode, HeapInfo};
use win32::free_list::Fit;
use win32::mem::Mem;

const BASE: u32 = 0x1000;

#[test]
fn new_heap_is_one_free_block() {
    let mut mem = Mem::new(BASE, 64);
    let info = HeapInfo::new(&mut mem, BASE, 64);
    assert_eq!(info.addr, BASE);
    assert_eq!(info.size, 64);
    assert_eq!(info.first_free(), BASE);
    assert_eq!(info.blocks(&mem), vec![(BASE, 64)]);
    let node = FreeNode::get(&mem, BASE);
    assert_eq!((node.size, node.next), (64, 0));
}

#[test]
fn first_fit_reuse_and_growth_request() {
    let mut mem = Mem::new(BASE, 256);
    let mut info = HeapInfo::new(&mut mem, BASE, 64);
    let mut heap = info.get_heap(&mut mem);
    let first = heap.allocate(4);
    let second = heap.allocate(4);
    assert_eq!(first, BASE + 4);
    assert_eq!(second, BASE + 12);
    assert_eq!(heap.free(first), Ok(()));
    assert_eq!(heap.allocate(4), first);
    // 48 bytes are left in one block; 100 bytes take 104
    assert_eq!(heap.info.blocks(heap.mem), vec![(BASE + 16, 48)]);
    assert_eq!(heap.info.probe(heap.mem, 100), Fit::Grow(56));
    assert_eq!(heap.step(100, Event::Request), Action::Grow { base: BASE, bytes: 56 });
    assert_eq!(heap.info.blocks(heap.mem), vec![(BASE + 16, 48)]);
    assert_eq!(heap.step(100, Event::Granted(56)), Action::Done(BASE + 20));
    assert_eq!(heap.size(BASE + 20), 100);
    assert_eq!(heap.info.blocks(heap.mem), vec![]);
}

#[test]
fn coalescing_three_blocks() {
    let mut mem = Mem::new(BASE, 48);
    let mut info = HeapInfo::new(&mut mem, BASE, 48);
    let mut heap = info.get_heap(&mut mem);
    let a = heap.allocate(12);
    let b = heap.allocate(12);
    let c = heap.allocate(12);
    assert_eq!((a, b, c), (BASE + 4, BASE + 20, BASE + 36));
    assert_eq!(heap.info.blocks(heap.mem), vec![]);
    heap.free(b).unwrap();
    assert_eq!(heap.info.blocks(heap.mem), vec![(BASE + 16, 16)]);
    heap.free(a).unwrap();
    assert_eq!(heap.info.blocks(heap.mem), vec![(BASE, 32)]);
    heap.free(c).unwrap();
    assert_eq!(heap.info.blocks(heap.mem), vec![(BASE, 48)]);
    assert_eq!(info.first_free(), BASE);
}

#[test]
fn coalescing_reaches_the_tail() {
    let mut mem = Mem::new(BASE, 128);
    let mut info = HeapInfo::new(&mut mem, BASE, 128);
    let mut heap = info.get_heap(&mut mem);
    let a = heap.allocate(12);
    let b = heap.allocate(12);
    heap.free(a).unwrap();
    assert_eq!(heap.info.blocks(heap.mem), vec![(BASE, 16), (BASE + 32, 96)]);
    // b touches both the block before it and the tail behind it
    heap.free(b).unwrap();
    assert_eq!(heap.info.blocks(heap.mem), vec![(BASE, 128)]);
}

#[test]
fn freed_block_joins_the_block_behind_it() {
    let mut mem = Mem::new(BASE, 128);
    let mut info = HeapInfo::new(&mut mem, BASE, 128);
    let mut heap = info.get_heap(&mut mem);
    let a = heap.allocate(12);
    let _b = heap.allocate(12);
    let c = heap.allocate(12);
    heap.free(a).unwrap();
    // the free block before c does not touch c; the tail behind it does
    heap.free(c).unwrap();
    assert_eq!(heap.info.blocks(heap.mem), vec![(BASE, 16), (BASE + 32, 96)]);
}

#[test]
fn fourth_of_four_joins_the_tail() {
    let mut mem = Mem::new(BASE, 64);
    let mut info = HeapInfo::new(&mut mem, BASE, 64);
    let mut heap = info.get_heap(&mut mem);
    let a = heap.allocate(4);
    let b = heap.allocate(4);
    let c = heap.allocate(4);
    let d = heap.allocate(4);
    assert_eq!((a, b, c, d), (BASE + 4, BASE + 12, BASE + 20, BASE + 28));
    heap.free(a).unwrap();
    heap.free(d).unwrap();
    assert_eq!(heap.info.blocks(heap.mem), vec![(BASE, 8), (BASE + 24, 40)]);
}

#[test]
fn three_blocks_join_behind_a_free_block_further_down() {
    let mut mem = Mem::new(BASE, 64);
    let mut info = HeapInfo::new(&mut mem, BASE, 64);
    let mut heap = info.get_heap(&mut mem);
    let x = heap.allocate(4);
    let _y = heap.allocate(4);
    let a = heap.allocate(4);
    let b = heap.allocate(4);
    let c = heap.allocate(4);
    heap.free(x).unwrap();
    heap.free(b).unwrap();
    assert_eq!(
        heap.info.blocks(heap.mem),
        vec![(BASE, 8), (BASE + 24, 8), (BASE + 40, 24)]
    );
    heap.free(a).unwrap();
    assert_eq!(
        heap.info.blocks(heap.mem),
        vec![(BASE, 8), (BASE + 16, 16), (BASE + 40, 24)]
    );
    heap.free(c).unwrap();
    assert_eq!(heap.info.blocks(heap.mem), vec![(BASE, 8), (BASE + 16, 48)]);
}

#[test]
fn free_list_stays_in_address_order() {
    let mut mem = Mem::new(BASE, 256);
    let mut info = HeapInfo::new(&mut mem, BASE, 256);
    let mut heap = info.get_heap(&mut mem);
    let mut live = Vec::new();
    for _ in 0..8 {
        live.push(heap.allocate(12));
    }
    for index in [5usize, 1, 3, 7] {
        heap.free(live[index]).unwrap();
    }
    let blocks = heap.info.blocks(heap.mem);
    assert_eq!(
        blocks,
        vec![(BASE + 16, 16), (BASE + 48, 16), (BASE + 80, 16), (BASE + 112, 144)]
    );
    // addresses rise and no block ends where the next starts
    for pair in blocks.windows(2) {
        assert!(pair[0].0 + pair[0].1 < pair[1].0);
    }
}

#[test]
fn split_needs_more_than_eight_spare_bytes() {
    // 24 bytes: a request that takes 16 leaves 8, which is not split off
    let mut mem = Mem::new(BASE, 64);
    let mut info = HeapInfo::new(&mut mem, BASE, 24);
    let mut heap = info.get_heap(&mut mem);
    assert_eq!(heap.allocate(12), BASE + 4);
    assert_eq!(heap.info.blocks(heap.mem), vec![]);
    // 28 bytes: 12 are left and stay free
    let mut info = HeapInfo::new(&mut mem, BASE, 28);
    let mut heap = info.get_heap(&mut mem);
    assert_eq!(heap.allocate(12), BASE + 4);
    assert_eq!(heap.info.blocks(heap.mem), vec![(BASE + 16, 12)]);
}

#[test]
fn first_fit_is_not_best_fit() {
    let mut mem = Mem::new(BASE, 256);
    let mut info = HeapInfo::new(&mut mem, BASE, 256);
    let mut heap = info.get_heap(&mut mem);
    let big = heap.allocate(60);
    let _keep = heap.allocate(4);
    let small = heap.allocate(12);
    let _keep2 = heap.allocate(4);
    heap.free(big).unwrap();
    heap.free(small).unwrap();
    assert_eq!(
        heap.info.blocks(heap.mem),
        vec![(BASE, 64), (BASE + 72, 16), (BASE + 96, 160)]
    );
    // the 64-byte block comes first, though the 16-byte block fits exactly
    assert_eq!(heap.allocate(12), BASE + 4);
    assert_eq!(
        heap.info.blocks(heap.mem),
        vec![(BASE + 16, 48), (BASE + 72, 16), (BASE + 96, 160)]
    );
}

#[test]
fn heap_header_round_trip() {
    let mut mem = Mem::new(BASE, 0x1000);
    let mut info = HeapInfo::new(&mut mem, BASE, 0x1000);
    let mut heap = info.get_heap(&mut mem);
    let mut live = Vec::new();
    for size in 0..40u32 {
        let addr = heap.allocate(size);
        assert_eq!(heap.size(addr), size);
        live.push((addr, size));
    }
    // headers of earlier allocations survive later ones
    for (addr, size) in live {
        assert_eq!(heap.size(addr), size);
    }
}

#[test]
fn heap_allocations_do_not_overlap() {
    let mut mem = Mem::new(BASE, 0x400);
    let mut info = HeapInfo::new(&mut mem, BASE, 0x400);
    let mut heap = info.get_heap(&mut mem);
    let mut live: Vec<(u32, u32)> = Vec::new();
    for size in [7u32, 0, 33, 4, 12, 1, 64, 5] {
        let addr = heap.allocate(size);
        live.push((addr - 4, addr + size));
    }
    heap.free(live[2].0 + 4).unwrap();
    live.remove(2);
    for size in [8u32, 8, 40] {
        let addr = heap.allocate(size);
        live.push((addr - 4, addr + size));
    }
    for i in 0..live.len() {
        for j in 0..i {
            assert!(live[i].1 <= live[j].0 || live[j].1 <= live[i].0);
        }
    }
}

#[test]
fn freed_size_is_the_requested_size_plus_header() {
    let mut mem = Mem::new(BASE, 64);
    let mut info = HeapInfo::new(&mut mem, BASE, 64);
    let mut heap = info.get_heap(&mut mem);
    let a = heap.allocate(5);
    let _b = heap.allocate(4);
    heap.free(a).unwrap();
    // 5 bytes were padded to 8, but only 5 + 4 come back
    assert_eq!(heap.info.blocks(heap.mem), vec![(BASE, 9), (BASE + 20, 44)]);
}

#[test]
fn probe_tells_the_three_cases_apart() {
    let mut mem = Mem::new(BASE, 64);
    let mut info = HeapInfo::new(&mut mem, BASE, 32);
    assert_eq!(info.probe(&mem, 28), Fit::Ready);
    assert_eq!(info.probe(&mem, 29), Fit::Grow(4));
    assert_eq!(info.probe(&mem, 0xffff_fff8), Fit::Grow(0xffff_fffc - 32));
    assert_eq!(info.probe(&mem, 0xffff_fff9), Fit::Exhausted);
    assert_eq!(info.carve(&mut mem, 28), BASE + 4);
    assert_eq!(info.probe(&mem, 0), Fit::Exhausted);
}

#[test]
fn step_fails_on_empty_list_and_short_grant() {
    let mut mem = Mem::new(BASE, 128);
    let mut info = HeapInfo::new(&mut mem, BASE, 32);
    let mut heap = info.get_heap(&mut mem);
    assert_eq!(heap.step(60, Event::Request), Action::Grow { base: BASE, bytes: 32 });
    // a grant that is too small is added to the last block all the same
    assert_eq!(heap.step(60, Event::Granted(8)), Action::Fail);
    assert_eq!(heap.info.blocks(heap.mem), vec![(BASE, 40)]);
    // a grant that memory does not back changes nothing
    assert_eq!(heap.step(60, Event::Granted(1000)), Action::Fail);
    assert_eq!(heap.info.blocks(heap.mem), vec![(BASE, 40)]);
    assert_eq!(heap.step(60, Event::Granted(24)), Action::Done(BASE + 4));
    assert_eq!(heap.step(4, Event::Request), Action::Fail);
    assert_eq!(heap.step(4, Event::Granted(8)), Action::Fail);
}

#[test]
fn extend_grows_the_last_block() {
    let mut mem = Mem::new(BASE, 128);
    let mut info = HeapInfo::new(&mut mem, BASE, 64);
    let a = info.carve(&mut mem, 4);
    let _b = info.carve(&mut mem, 4);
    info.release(&mut mem, a);
    info.extend(&mut mem, 16);
    assert_eq!(info.blocks(&mem), vec![(BASE, 8), (BASE + 16, 64)]);
}

#[test]
fn try_coalesce_joins_touching_blocks_only() {
    let mut mem = Mem::new(BASE, 64);
    let mut info = HeapInfo::new(&mut mem, BASE, 16);
    // write a second and a third block by hand: the second touches the first
    FreeNode { size: 16, next: BASE + 16 }.put(&mut mem, BASE);
    FreeNode { size: 16, next: BASE + 40 }.put(&mut mem, BASE + 16);
    FreeNode { size: 24, next: 0 }.put(&mut mem, BASE + 40);
    assert_eq!(info.blocks(&mem), vec![(BASE, 16), (BASE + 16, 16), (BASE + 40, 24)]);
    info.try_coalesce(&mut mem, BASE + 40);
    assert_eq!(info.blocks(&mem), vec![(BASE, 16), (BASE + 16, 16), (BASE + 40, 24)]);
    info.try_coalesce(&mut mem, BASE);
    assert_eq!(info.blocks(&mem), vec![(BASE, 32), (BASE + 40, 24)]);
}

#[test]
fn heap_descriptor_from_parts() {
    let info = HeapInfo::from_parts(0x100, 0x40, 0x120);
    assert_eq!(info.addr, 0x100);
    assert_eq!(info.size, 0x40);
    assert_eq!(info.first_free(), 0x120);
}

#[test]
fn intact_list_is_recognised() {
    let mut mem = Mem::new(BASE, 64);
    let mut info = HeapInfo::new(&mut mem, BASE, 64);
    assert!(info.is_intact(&mem));
    let a = info.carve(&mut mem, 4);
    let _b = info.carve(&mut mem, 4);
    info.release(&mut mem, a);
    assert!(info.is_intact(&mem));
    assert!(HeapInfo::from_parts(BASE, 64, 0).is_intact(&mem));
    assert_eq!(info.addr(), BASE);
    assert_eq!(info.size(), 64);
}

#[test]
fn broken_list_is_recognised() {
    let mut mem = Mem::new(BASE, 64);
    let info = HeapInfo::new(&mut mem, BASE, 32);
    // a link that leads backwards
    FreeNode { size: 16, next: BASE + 16 }.put(&mut mem, BASE);
    FreeNode { size: 16, next: BASE }.put(&mut mem, BASE + 16);
    assert!(!info.is_intact(&mem));
    // a block that overlaps the next
    FreeNode { size: 24, next: BASE + 16 }.put(&mut mem, BASE);
    FreeNode { size: 16, next: 0 }.put(&mut mem, BASE + 16);
    assert!(!info.is_intact(&mem));
    // a block that reaches past the end of memory
    FreeNode { size: 65, next: 0 }.put(&mut mem, BASE);
    assert!(!info.is_intact(&mem));
    FreeNode { size: 64, next: 0 }.put(&mut mem, BASE);
    assert!(info.is_intact(&mem));
    // a head outside memory
    assert!(!HeapInfo::from_parts(BASE, 64, BASE + 60).is_intact(&mem));
    assert!(!HeapInfo::from_parts(BASE, 64, 8).is_intact(&mem));
}

#[test]
fn only_blocks_off_the_free_list_can_be_released() {
    let mut mem = Mem::new(BASE, 64);
    let mut info = HeapInfo::new(&mut mem, BASE, 64);
    let a = info.carve(&mut mem, 4);
    let b = info.carve(&mut mem, 12);
    assert!(info.can_release(&mem, a));
    assert!(info.can_release(&mem, b));
    info.release(&mut mem, a);
    // a second release of the same block
    assert!(!info.can_release(&mem, a));
    assert!(info.can_release(&mem, b));
    // addresses without room for a header, or outside memory
    assert!(!info.can_release(&mem, 0));
    assert!(!info.can_release(&mem, 4));
    assert!(!info.can_release(&mem, BASE));
    assert!(!info.can_release(&mem, BASE + 64));
    // inside the free tail
    assert!(!info.can_release(&mem, BASE + 40));
}

#[test]
fn allocation_of_no_bytes_cannot_be_released() {
    let mut mem = Mem::new(BASE, 64);
    let mut info = HeapInfo::new(&mut mem, BASE, 64);
    let zero = info.carve(&mut mem, 0);
    let one = info.carve(&mut mem, 1);
    assert_eq!((zero, one), (BASE + 4, BASE + 8));
    // its block is four bytes, too small for a free block's record
    assert!(!info.can_release(&mem, zero));
    assert!(info.can_release(&mem, one));
    info.release(&mut mem, one);
    assert_eq!(info.blocks(&mem), vec![(BASE + 4, 5), (BASE + 12, 52)]);
    let mut heap = info.get_heap(&mut mem);
    assert_eq!(heap.size(zero), 0);
}

#[test]
fn free_keeps_a_merged_list_merged() {
    let mut mem = Mem::new(BASE, 256);
    let mut info = HeapInfo::new(&mut mem, BASE, 256);
    let mut heap = info.get_heap(&mut mem);
    let mut live = Vec::new();
    for _ in 0..10 {
        live.push(heap.allocate(8));
    }
    for index in [7usize, 2, 9, 4, 3, 8, 0, 1] {
        heap.free(live[index]).unwrap();
        let blocks = heap.info.blocks(heap.mem);
        for pair in blocks.windows(2) {
            assert!(pair[0].0 + pair[0].1 < pair[1].0);
        }
    }
    assert_eq!(
        heap.info.blocks(heap.mem),
        vec![(BASE, 60), (BASE + 84, 172)]
    );
}
