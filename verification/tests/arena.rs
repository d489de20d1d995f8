use memlayout::arena::{Arena, Block, SLAB_SIZE};
use memlayout::layout::{align_offset, align_to, is_power_of_two};

fn share_a_byte(a: &Block, b: &Block) -> bool {
    a.slab == b.slab
        && a.size > 0
        && b.size > 0
        && a.addr < b.addr + b.size
        && b.addr < a.addr + a.size
}

#[test]
fn align_to_rounds_up_to_the_next_multiple() {
    assert_eq!(align_to(0, 8), 0);
    assert_eq!(align_to(1, 8), 8);
    assert_eq!(align_to(13, 8), 16);
    assert_eq!(align_to(16, 8), 16);
    assert_eq!(align_to(17, 1), 17);
    assert_eq!(align_to(4097, 4096), 8192);
}

#[test]
fn align_offset_is_the_distance_to_the_next_multiple() {
    assert_eq!(align_offset(0, 4096), 0);
    assert_eq!(align_offset(13, 8), 3);
    assert_eq!(align_offset(16, 8), 0);
    assert_eq!(align_offset(5, 1), 0);
    assert_eq!(align_offset(usize::MAX, 2), 1);
    assert_eq!(align_offset(usize::MAX, 1), 0);
}

#[test]
fn is_power_of_two_knows_the_powers() {
    assert!(!is_power_of_two(0));
    assert!(is_power_of_two(1));
    assert!(is_power_of_two(2));
    assert!(!is_power_of_two(6));
    assert!(is_power_of_two(4096));
    assert!(is_power_of_two(1 << (usize::BITS - 1)));
    assert!(!is_power_of_two(usize::MAX));
}

#[test]
fn empty_arena_hands_out_its_sentinel_for_nothing() {
    let mut arena = Arena::default();
    let block = arena.allocate(0, 1).unwrap();
    assert_eq!(block, Block { slab: 0, addr: 1, size: 0 });
    assert_eq!(arena.read(&block, 0), None);
}

#[test]
fn blocks_are_aligned_as_asked() {
    let mut arena = Arena::default();
    let aligns = [1usize, 2, 4, 8, 16, 64, 256, 4096, 8192];
    for round in 0..40 {
        for (i, &align) in aligns.iter().enumerate() {
            let size = (round * 7 + i * 13) % 300;
            let block = arena.allocate(size, align).unwrap();
            assert_eq!(block.addr % align, 0);
            assert_eq!(block.size, size);
        }
    }
}

#[test]
fn blocks_never_share_a_byte() {
    let mut arena = Arena::default();
    let mut blocks: Vec<Block> = Vec::new();
    for i in 0..600usize {
        let size = (i * 37) % 900 + if i % 50 == 0 { 5000 } else { 0 };
        let align = 1usize << (i % 6);
        let block = arena.allocate(size, align).unwrap();
        for earlier in &blocks {
            assert!(!share_a_byte(earlier, &block));
        }
        blocks.push(block);
    }
}

#[test]
fn bump_follows_the_cursor() {
    let mut arena = Arena::default();
    let a = arena.allocate(16, 8).unwrap();
    let b = arena.allocate(16, 8).unwrap();
    let c = arena.allocate(1, 1).unwrap();
    let d = arena.allocate(8, 8).unwrap();
    assert_eq!(a.slab, 0);
    assert_eq!(b, Block { slab: 0, addr: a.addr + 16, size: 16 });
    assert_eq!(c, Block { slab: 0, addr: a.addr + 32, size: 1 });
    assert_eq!(d, Block { slab: 0, addr: a.addr + 40, size: 8 });
}

#[test]
fn oversized_request_gets_its_own_slab_and_leaves_the_cursor() {
    let mut arena = Arena::default();
    let a = arena.allocate(8, 8).unwrap();
    let big = arena.allocate(5000, 16).unwrap();
    let b = arena.allocate(8, 8).unwrap();
    assert_eq!(a.slab, 0);
    assert_eq!(big.slab, 1);
    assert_eq!(big.size, 5000);
    assert_eq!(big.addr % 16, 0);
    assert_eq!(b, Block { slab: 0, addr: a.addr + 8, size: 8 });
    assert!(arena.write(&big, 4999, 0xab));
    assert_eq!(arena.read(&big, 4999), Some(0xab));
    assert_eq!(arena.read(&big, 5000), None);
}

#[test]
fn oversized_request_first_keeps_the_sentinel_cursor() {
    let mut arena = Arena::default();
    let big = arena.allocate(SLAB_SIZE + 1, 1).unwrap();
    assert_eq!(big.slab, 0);
    let nothing = arena.allocate(0, 1).unwrap();
    assert_eq!(nothing.addr, 1);
    let small = arena.allocate(1, 1).unwrap();
    assert_eq!(small.slab, 1);
}

#[test]
fn padded_request_of_a_slab_size_takes_a_standard_slab() {
    let mut arena = Arena::default();
    // 4089 + 8 - 1 == SLAB_SIZE: not larger, so the slab becomes current.
    let a = arena.allocate(SLAB_SIZE - 7, 8).unwrap();
    assert_eq!(a.slab, 0);
    let b = arena.allocate(0, 1).unwrap();
    assert_eq!(b, Block { slab: 0, addr: a.addr + (SLAB_SIZE - 7), size: 0 });
    // 4090 + 8 - 1 > SLAB_SIZE: a slab of its own, the cursor stays.
    let c = arena.allocate(SLAB_SIZE - 6, 8).unwrap();
    assert_eq!(c.slab, 1);
    let d = arena.allocate(0, 1).unwrap();
    assert_eq!(d, b);
}

#[test]
fn full_slab_is_followed_by_a_new_one() {
    let mut arena = Arena::default();
    let a = arena.allocate(SLAB_SIZE, 1).unwrap();
    let b = arena.allocate(1, 1).unwrap();
    assert_eq!(a.slab, 0);
    assert_eq!(b.slab, 1);
}

#[test]
fn slabs_double_after_128_slabs() {
    let mut arena = Arena::default();
    for i in 0..128 {
        let block = arena.allocate(SLAB_SIZE, 1).unwrap();
        assert_eq!(block.slab, i);
    }
    let a = arena.allocate(SLAB_SIZE, 1).unwrap();
    let b = arena.allocate(SLAB_SIZE, 1).unwrap();
    let c = arena.allocate(SLAB_SIZE, 1).unwrap();
    assert_eq!(a.slab, 128);
    assert_eq!(b, Block { slab: 128, addr: a.addr + SLAB_SIZE, size: SLAB_SIZE });
    assert_eq!(c.slab, 129);
}

#[test]
fn impossible_request_fails_and_changes_nothing() {
    let mut arena = Arena::default();
    let a = arena.allocate(8, 8).unwrap();
    assert_eq!(arena.allocate(usize::MAX, 1), None);
    assert_eq!(arena.allocate(usize::MAX, 4096), None);
    assert_eq!(arena.allocate(isize::MAX as usize + 1, 1), None);
    assert_eq!(arena.allocate(isize::MAX as usize, 2), None);
    let b = arena.allocate(8, 8).unwrap();
    assert_eq!(b, Block { slab: 0, addr: a.addr + 8, size: 8 });
}

#[test]
fn write_shows_in_its_block_only() {
    let mut arena = Arena::default();
    let a = arena.allocate(4, 1).unwrap();
    let b = arena.allocate(4, 1).unwrap();
    for i in 0..4 {
        assert!(arena.write(&a, i, 0x10 + i as u8));
        assert!(arena.write(&b, i, 0x20 + i as u8));
    }
    assert!(arena.write(&a, 3, 0xff));
    assert_eq!(arena.read(&a, 0), Some(0x10));
    assert_eq!(arena.read(&a, 3), Some(0xff));
    for i in 0..4 {
        assert_eq!(arena.read(&b, i), Some(0x20 + i as u8));
    }
}

#[test]
fn access_outside_a_block_is_refused() {
    let mut arena = Arena::default();
    let a = arena.allocate(4, 1).unwrap();
    assert!(!arena.write(&a, 4, 1));
    assert_eq!(arena.read(&a, 4), None);
    let elsewhere = Block { slab: 7, addr: a.addr, size: 4 };
    assert!(!arena.write(&elsewhere, 0, 1));
    assert_eq!(arena.read(&elsewhere, 0), None);
    let below = Block { slab: 0, addr: a.addr - 1, size: 4 };
    assert_eq!(arena.read(&below, 0), None);
    let beyond = Block { slab: 0, addr: a.addr, size: SLAB_SIZE + 1 };
    assert_eq!(arena.read(&beyond, 0), None);
}

#[test]
fn dropping_one_arena_leaves_another_intact() {
    let mut kept = Arena::default();
    let block = kept.allocate(64, 8).unwrap();
    for round in 0..20u8 {
        let mut other = Arena::default();
        for i in 0..50 {
            let b = other.allocate(100 + i, 8).unwrap();
            assert!(other.write(&b, 0, round));
        }
        assert!(kept.write(&block, round as usize, round));
        drop(other);
        for i in 0..=round {
            assert_eq!(kept.read(&block, i as usize), Some(i));
        }
    }
}
