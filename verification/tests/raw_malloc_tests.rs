use rusty_malloc::allocators::raw_malloc::{BLOCK_CONTENT_MIN_SIZE, BLOCK_MIN_SIZE};
use rusty_malloc::growers::ArenaGrower;
use rusty_malloc::header::{HEADER_ALIGN, HEADER_SIZE};
use rusty_malloc::RawMalloc;

const BASE: usize = 0x10000;

fn arena_malloc(buf_size: usize) -> RawMalloc<ArenaGrower> {
    RawMalloc::with_grower(ArenaGrower::new(BASE, buf_size, 0))
}

#[test]
fn test_1() {
    const BUF_SIZE: usize = 64 * 1024;
    let mut allocator = arena_malloc(BUF_SIZE);

    let mut objects: Vec<(usize, (usize, usize))> = vec![];
    for i in 0..8 {
        for j in i..8 {
            let l = (1usize << j, 1usize << i);
            objects.push((allocator.malloc(l.0, l.1), l));
        }
    }

    for i in 0..objects.len() {
        let (ptr, layout) = objects[i];
        assert_eq!(ptr % layout.1, 0);
        if i != objects.len() - 1 {
            assert!(ptr + layout.0 <= objects[i + 1].0);
        }
        allocator.dealloc(ptr, layout.0, layout.1);
        assert_eq!(allocator.malloc(layout.0, layout.1), ptr);
    }

    for i in (0..objects.len()).rev() {
        let (ptr, layout) = objects[i];
        allocator.dealloc(ptr, layout.0, layout.1);
    }

    for i in 0..objects.len() {
        let (ptr, layout) = objects[i];
        assert_eq!(allocator.malloc(layout.0, layout.1), ptr);
    }
}

#[test]
fn test_2() {
    const BUF_SIZE: usize = 32 * BLOCK_MIN_SIZE;
    let mut allocator = arena_malloc(BUF_SIZE);

    let layout_1 = (BLOCK_CONTENT_MIN_SIZE, 1);
    let layout_2 = (BLOCK_CONTENT_MIN_SIZE * 2, 1);
    let p1 = allocator.malloc(layout_1.0, layout_1.1);
    let p2 = allocator.malloc(layout_1.0, layout_1.1);
    let p3 = allocator.malloc(layout_1.0, layout_1.1);
    let p4 = allocator.malloc(layout_2.0, layout_2.1);
    assert!(p1 != 0);
    assert!(p2 != 0);
    assert!(p3 != 0);
    assert!(p4 != 0);
    allocator.dealloc(p1, layout_1.0, layout_1.1);
    allocator.dealloc(p2, layout_1.0, layout_1.1);
    allocator.dealloc(p4, layout_2.0, layout_2.1);
    assert_eq!(p4, allocator.malloc(layout_2.0, layout_2.1));
}

#[test]
fn test_3() {
    const BUF_SIZE: usize = 32 * BLOCK_MIN_SIZE;
    let mut allocator = arena_malloc(BUF_SIZE);

    let layout_1 = (BLOCK_CONTENT_MIN_SIZE, 1);
    let layout_2 = (BLOCK_CONTENT_MIN_SIZE * 2, 1);
    let p1 = allocator.malloc(layout_1.0, layout_1.1);
    let p2 = allocator.malloc(layout_1.0, layout_1.1);
    let p3 = allocator.malloc(layout_1.0, layout_1.1);
    let p4 = allocator.malloc(layout_2.0, layout_2.1);
    assert!(p1 != 0);
    assert!(p2 != 0);
    assert!(p3 != 0);
    assert!(p4 != 0);
    allocator.dealloc(p1, layout_1.0, layout_1.1);
    allocator.dealloc(p4, layout_2.0, layout_2.1);
    allocator.dealloc(p2, layout_1.0, layout_1.1);
    assert_eq!(p4, allocator.malloc(layout_2.0, layout_2.1));
}

#[test]
fn test_4() {
    const BUF_SIZE: usize = 32 * BLOCK_MIN_SIZE;
    let mut allocator = arena_malloc(BUF_SIZE);

    let layout_1 = (BLOCK_CONTENT_MIN_SIZE, 1);
    let layout_2 = (BLOCK_CONTENT_MIN_SIZE * 2, 1);
    let p1 = allocator.malloc(layout_1.0, layout_1.1);
    let p2 = allocator.malloc(layout_1.0, layout_1.1);
    let p3 = allocator.malloc(layout_1.0, layout_1.1);
    let p4 = allocator.malloc(layout_2.0, layout_2.1);
    assert!(p1 != 0);
    assert!(p2 != 0);
    assert!(p3 != 0);
    assert!(p4 != 0);
    allocator.dealloc(p2, layout_1.0, layout_1.1);
    allocator.dealloc(p4, layout_2.0, layout_2.1);
    allocator.dealloc(p1, layout_1.0, layout_1.1);
    assert_eq!(p1, allocator.malloc(layout_2.0, layout_2.1));
}

#[test]
fn test_5() {
    const BUF_SIZE: usize = 8 * BLOCK_MIN_SIZE;
    let mut allocator = arena_malloc(BUF_SIZE);

    let p1 = allocator.malloc(BUF_SIZE - HEADER_SIZE, 1);
    assert!(p1 != 0);
    // It's ok for the size to be 0 since it should get augmented.
    assert!(allocator.malloc(0, 1) == 0);
}

#[test]
fn test_6() {
    const BUF_SIZE: usize = 128 * HEADER_SIZE;
    let mut allocator = arena_malloc(BUF_SIZE);

    let layout_1 = (HEADER_SIZE * 4, HEADER_ALIGN);
    let layout_2 = (HEADER_SIZE * 10, HEADER_ALIGN);
    let p1 = allocator.malloc(layout_1.0, layout_1.1);
    let p2 = allocator.malloc(layout_2.0, layout_2.1);
    let p3 = allocator.malloc(layout_2.0, layout_2.1);
    assert!(p1 != 0);
    assert!(p2 != 0);
    assert!(p3 != 0);
    allocator.dealloc(p2, layout_2.0, layout_2.1);
    allocator.dealloc(p3, layout_2.0, layout_2.1);

    assert_eq!(p1, allocator.realloc(p1, layout_1.0, layout_1.1, layout_2.0));
    assert_eq!(p1, allocator.realloc(p1, layout_2.0, layout_2.1, layout_1.0));

    let p4 = allocator.malloc(layout_1.0, layout_1.1);
    assert_eq!(p2, p4);

    assert_eq!(
        p4 + 5 * HEADER_SIZE,
        allocator.realloc(p1, layout_1.0, layout_1.1, layout_2.0)
    );
}

#[test]
fn test_7() {
    const BUF_SIZE: usize = 64 * HEADER_SIZE;
    let mut allocator = arena_malloc(BUF_SIZE);

    let layout = (HEADER_SIZE * 10, HEADER_ALIGN);
    let p1 = allocator.malloc(layout.0, layout.1);
    assert!(p1 != 0);
    allocator.dealloc(p1, layout.0, layout.1);
    let p2 = allocator.malloc(layout.0, layout.1);
    let p3 = allocator.malloc(layout.0, layout.1);

    assert_ne!(p2, p3);
}

#[test]
fn test_8() {
    const BUF_SIZE: usize = 1024 * HEADER_SIZE;
    let mut allocator = arena_malloc(BUF_SIZE);

    let layout = (HEADER_SIZE * 32, HEADER_SIZE * 32);
    let p1 = allocator.malloc(layout.0, layout.1);
    let p2 = allocator.malloc(layout.0, layout.1);
    assert!(p1 != 0);
    assert!(p2 != 0);
    assert_eq!(p1 + layout.0 * 2, p2);
    let p3 = allocator.realloc(p2, layout.0, layout.1, layout.0 * 2);
    let p4 = allocator.malloc(layout.0 * 2, HEADER_ALIGN);
    assert_eq!(p1 + layout.0 + HEADER_SIZE, p4);
    assert_eq!(p4 + layout.0 * 3 - HEADER_SIZE, p3);
}

#[test]
fn test_9() {
    const BUF_SIZE: usize = BLOCK_MIN_SIZE * 32;
    let mut allocator = arena_malloc(BUF_SIZE);

    let layout = (HEADER_SIZE * 8, HEADER_ALIGN);
    let p1 = allocator.malloc(layout.0, layout.1);
    assert!(p1 != 0);
    let p2 = allocator.realloc(p1, layout.0, layout.1, 1);
    assert_eq!(p1, p2);
    assert_eq!(allocator.object_size(p2), BLOCK_CONTENT_MIN_SIZE);
}

#[test]
fn test_10() {
    const BUF_SIZE: usize = BLOCK_MIN_SIZE * 8;
    let mut allocator = arena_malloc(BUF_SIZE);

    let p1 = allocator.allocate(0, 1).unwrap().0;
    let p2 = allocator.allocate(0, 1).unwrap().0;
    assert_ne!(p1, p2);
}

#[test]
fn test_11() {
    const BUF_SIZE: usize = BLOCK_MIN_SIZE * 8;
    let mut allocator = arena_malloc(BUF_SIZE);

    let p1 = allocator.allocate(60, 4).unwrap().0;
    let p2 = allocator.realloc(p1, 60, 4, 20);
    assert_eq!(p1, p2);
    let p3 = allocator.realloc(p2, 20, 4, 60);
    assert_eq!(p1, p3);
}
