use rusty_malloc::growers::{ArenaGrower, Grower};

#[test]
fn test_arena_grower_1() {
    let p: usize = 0x8000;
    let mut arena = ArenaGrower::new(p, 2048, 0);
    assert_eq!(p, arena.grow(0).unwrap().0);
    assert_eq!(p, arena.grow(20).unwrap().0);
    assert_eq!(p + 20, arena.grow(20).unwrap().0);
    assert_eq!(p + 40, arena.grow(24).unwrap().0);
    assert_eq!(p + 64, arena.grow(2048 - 64).unwrap().0);
    assert_eq!(p + 2048, arena.grow(0).unwrap().0);
    assert!(arena.grow(1).is_err());
    assert!(arena.grow(8).is_err());
}

#[test]
fn test_arena_grower_2() {
    let p: usize = 0x8000;
    let mut arena = ArenaGrower::new(p, 0, 0);
    assert!(arena.grow(1).is_err());
    assert!(arena.grow(4).is_err());
    assert!(arena.grow(8).is_err());
}

#[test]
fn test_arena_grower_3() {
    let p: usize = 0x8000;
    let mut arena = ArenaGrower::new(p, 19, 5);
    assert_eq!((p, 5), arena.grow(1).unwrap());
    assert_eq!((p + 5, 5), arena.grow(4).unwrap());
    assert_eq!((p + 10, 8), arena.grow(8).unwrap());
    assert_eq!((p + 18, 0), arena.grow(0).unwrap());
    assert!(arena.grow(1).is_err());
}

#[test]
fn test_arena_grower_4() {
    let p: usize = 0x8000;
    let mut arena = ArenaGrower::new(p, 42, 16);
    assert_eq!((p, 16), arena.grow(1).unwrap());
    assert_eq!((p + 16, 16), arena.grow(4).unwrap());
    assert!(arena.grow(18).is_err());
}
