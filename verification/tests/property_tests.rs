use rusty_malloc::allocators::raw_malloc::BLOCK_CONTENT_MIN_SIZE;
use rusty_malloc::growers::ArenaGrower;
use rusty_malloc::header::{HEADER_ALIGN, HEADER_SIZE};
use rusty_malloc::RawMalloc;

const BASE: usize = 0x40000;

fn arena_malloc(buf_size: usize) -> RawMalloc<ArenaGrower> {
    RawMalloc::with_grower(ArenaGrower::new(BASE, buf_size, 0))
}

#[test]
fn aligned_and_augmented() {
    let mut allocator = arena_malloc(4096);
    for (size, align) in [(0usize, 1usize), (1, 1), (7, 2), (24, 8), (40, 32), (100, 64)] {
        let p = allocator.malloc(size, align);
        assert!(p != 0);
        assert_eq!(p % align, 0);
        let full = allocator.object_size(p);
        assert!(full >= size);
        assert!(full >= BLOCK_CONTENT_MIN_SIZE);
        assert_eq!(full % 2, 0);
        assert_eq!(full % HEADER_SIZE, 0);
    }
}

#[test]
fn first_fit_reuses_most_recently_freed() {
    // An arena of 64 headers' worth of bytes; five blocks of content size
    // 8 headers each. Freeing the 2nd and the 4th pushes their nodes onto
    // the list in that order, so the first fit in list order is the block
    // freed last: the 4th.
    let mut allocator = arena_malloc(64 * HEADER_SIZE);
    let size = 8 * HEADER_SIZE;
    let mut ps = [0usize; 5];
    for i in 0..5 {
        ps[i] = allocator.malloc(size, HEADER_ALIGN);
        assert!(ps[i] != 0);
    }
    allocator.dealloc(ps[1], size, HEADER_ALIGN);
    allocator.dealloc(ps[3], size, HEADER_ALIGN);
    let q = allocator.malloc(size, HEADER_ALIGN);
    assert_eq!(q, ps[3]);
    let q2 = allocator.malloc(size, HEADER_ALIGN);
    assert_eq!(q2, ps[1]);
}

#[test]
fn contents_preserved_across_moving_reallocation() {
    let mut allocator = arena_malloc(4096);
    let p = allocator.malloc(24, HEADER_ALIGN);
    assert!(p != 0);
    // a blocker right after `p` forces the reallocation to move the object
    let blocker = allocator.malloc(24, HEADER_ALIGN);
    assert!(blocker != 0);
    for i in 0..24usize {
        allocator.write_byte(p, i, (3 * i + 1) as u8);
    }
    let q = allocator.realloc(p, 24, HEADER_ALIGN, 200);
    assert!(q != 0);
    assert_ne!(q, p);
    for i in 0..24usize {
        assert_eq!(allocator.read_byte(q, i), (3 * i + 1) as u8);
    }
}

#[test]
fn contents_preserved_across_shrink_in_place() {
    let mut allocator = arena_malloc(4096);
    let p = allocator.malloc(64, HEADER_ALIGN);
    assert!(p != 0);
    for i in 0..64usize {
        allocator.write_byte(p, i, (7 * i + 5) as u8);
    }
    let q = allocator.realloc(p, 64, HEADER_ALIGN, 16);
    assert_eq!(q, p);
    for i in 0..16usize {
        assert_eq!(allocator.read_byte(q, i), (7 * i + 5) as u8);
    }
}

#[test]
fn shrink_always_succeeds_in_place() {
    let mut allocator = arena_malloc(4096);
    for size in [16usize, 40, 64, 256] {
        let p = allocator.malloc(size, HEADER_ALIGN);
        assert!(p != 0);
        for new_size in [size, size / 2, 1] {
            assert_eq!(allocator.realloc(p, size, HEADER_ALIGN, new_size), p);
        }
        allocator.dealloc(p, 1, HEADER_ALIGN);
    }
}

#[test]
fn exhausted_arena_fails_cleanly() {
    let mut allocator = arena_malloc(4 * HEADER_SIZE);
    assert_eq!(allocator.malloc(8 * HEADER_SIZE, 1), 0);
    let p = allocator.malloc(HEADER_SIZE, 1);
    assert!(p != 0);
    assert_eq!(allocator.malloc(HEADER_SIZE, 1), 0);
}

#[test]
fn unachievable_alignment_fails_cleanly() {
    // The alignment cannot be met anywhere in the address space above the
    // arena base.
    let mut allocator = arena_malloc(4096);
    let huge_align: usize = 1 << 63;
    assert_eq!(allocator.malloc(16, huge_align), 0);
}
