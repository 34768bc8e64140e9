use rusty_malloc::allocators::raw_malloc::util::{augment_layout, find_divisible, find_place};
use rusty_malloc::allocators::raw_malloc::{BLOCK_CONTENT_MIN_ALIGN, BLOCK_MIN_SIZE};
use rusty_malloc::header::{HEADER_ALIGN, HEADER_SIZE};
use rusty_malloc::util::find_aligned;

#[test]
fn test_find_divisible_1() {
    assert_eq!(find_divisible(5, 5).unwrap(), 5);
    assert_eq!(find_divisible(5, 10).unwrap(), 10);
    assert_eq!(find_divisible(0, 100).unwrap(), 0);
}

#[test]
fn test_find_divisible_3() {
    assert!(find_divisible(usize::MAX, 2).is_none());
    assert_eq!(find_divisible(usize::MAX - 7, 8), Some(usize::MAX - 7));
}

#[test]
fn test_find_place_1() {
    assert_eq!(find_place(0, HEADER_ALIGN).unwrap(), HEADER_SIZE);
    assert!(find_place(1, HEADER_ALIGN).unwrap() > BLOCK_MIN_SIZE + HEADER_SIZE);
    assert!(find_place(usize::MAX, HEADER_ALIGN).is_none());
}

#[test]
fn test_find_place_3() {
    for i in 4000..5000usize {
        for j in 0..20 {
            let tmp = find_place(i, 1 << j).unwrap();
            assert_eq!(tmp % (1 << j), 0);
            let diff = tmp - i;
            assert!(diff == HEADER_SIZE || diff >= BLOCK_MIN_SIZE + HEADER_SIZE);
        }
    }
}

#[test]
fn test_augment_layout_1() {
    for size in HEADER_SIZE + 1..=2 * HEADER_SIZE {
        for align in (0..=HEADER_ALIGN.ilog2()).map(|i| 1usize << i) {
            let augmented = augment_layout(size, align).unwrap();
            assert_eq!(augmented, (HEADER_SIZE * 2, BLOCK_CONTENT_MIN_ALIGN));
        }
    }
}

#[test]
fn test_find_aligned_1() {
    for i in 0..1000usize {
        for j in 0..=5 {
            let alignment = 1usize << j;
            let align_mask = !(alignment - 1);
            assert_eq!(
                find_aligned(i, alignment).unwrap(),
                (i + alignment - 1) & align_mask
            );
        }
    }
}

#[test]
fn test_find_aligned_2() {
    for i in usize::MAX - 14..=usize::MAX {
        assert!(find_aligned(i, 16).is_none());
    }
    assert_eq!(find_aligned(usize::MAX - 15, 16), Some(usize::MAX - 15));
}

#[test]
fn test_find_aligned_4() {
    for i in 0..=u16::MAX as usize {
        for j in 0..HEADER_SIZE {
            let _ = find_aligned(i, 1 << j);
        }
    }
}
