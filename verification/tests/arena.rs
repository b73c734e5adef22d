use spatialtree::{Arena, ArenaError, LodVec, QuadVec};

fn filled() -> Arena<2, u32, u8> {
    let mut arena = Arena::new();
    assert_eq!(arena.insert(QuadVec::build(0, 0, 1), 10), Ok(0));
    assert_eq!(arena.insert(QuadVec::build(1, 0, 1), 11), Ok(1));
    assert_eq!(arena.insert(QuadVec::build(0, 1, 1), 12), Ok(2));
    assert_eq!(arena.insert(QuadVec::build(3, 3, 2), 13), Ok(3));
    arena
}

#[test]
fn new_arena_is_empty() {
    let arena: Arena<2, u32, u8> = Arena::new();
    assert!(arena.is_empty());
    assert_eq!(arena.slot_count(), 0);
    assert_eq!(arena.get(QuadVec::root()), None);
    let roomy: Arena<3, u32, u16> = Arena::with_capacity(64);
    assert!(roomy.is_empty());
    assert_eq!(roomy.slot_count(), 0);
}

#[test]
fn insert_then_get() {
    let arena = filled();
    assert!(!arena.is_empty());
    assert_eq!(arena.slot_count(), 4);
    assert_eq!(arena.get(QuadVec::build(0, 0, 1)), Some(&10));
    assert_eq!(arena.get(QuadVec::build(3, 3, 2)), Some(&13));
    assert_eq!(arena.get(QuadVec::build(1, 1, 1)), None);
    // the same position at another depth is another key
    assert_eq!(arena.get(QuadVec::build(0, 0, 2)), None);
    assert_eq!(arena.find(QuadVec::build(0, 1, 1)), Some(2));
    assert_eq!(arena.position_at(1), Some(QuadVec::build(1, 0, 1)));
    assert_eq!(arena.position_at(9), None);
    let held = arena.container_at(3).unwrap();
    assert_eq!(held.position, QuadVec::build(3, 3, 2));
    assert_eq!(held.chunk, 13);
}

#[test]
fn duplicate_insert_is_refused() {
    let mut arena = filled();
    assert_eq!(arena.insert(QuadVec::build(1, 0, 1), 99), Err(ArenaError::Duplicate));
    assert_eq!(arena.get(QuadVec::build(1, 0, 1)), Some(&11));
    assert_eq!(arena.slot_count(), 4);
}

#[test]
fn get_mut_changes_in_place() {
    let mut arena = filled();
    *arena.get_mut(QuadVec::build(0, 1, 1)).unwrap() += 100;
    assert_eq!(arena.get(QuadVec::build(0, 1, 1)), Some(&112));
    assert!(arena.get_mut(QuadVec::build(2, 2, 2)).is_none());
    *arena.chunk_at_mut(0).unwrap() = 7;
    assert_eq!(arena.get(QuadVec::build(0, 0, 1)), Some(&7));
    assert!(arena.chunk_at_mut(17).is_none());
}

#[test]
fn remove_leaves_a_tombstone_that_insert_reuses() {
    let mut arena = filled();
    assert_eq!(arena.remove(QuadVec::build(1, 0, 1)), Some(11));
    assert_eq!(arena.remove(QuadVec::build(1, 0, 1)), None);
    assert_eq!(arena.slot_count(), 4);
    assert_eq!(arena.position_at(1), None);
    assert_eq!(arena.get(QuadVec::build(1, 0, 1)), None);
    assert_eq!(arena.get(QuadVec::build(0, 1, 1)), Some(&12));
    // the hole is filled before the storage grows
    assert_eq!(arena.insert(QuadVec::build(2, 2, 2), 20), Ok(1));
    assert_eq!(arena.slot_count(), 4);
    assert_eq!(arena.insert(QuadVec::build(2, 3, 2), 21), Ok(4));
    assert_eq!(arena.slot_count(), 5);
    // a removed position can come back
    assert_eq!(arena.insert(QuadVec::build(1, 0, 1), 30), Ok(5));
    assert_eq!(arena.get(QuadVec::build(1, 0, 1)), Some(&30));
}

#[test]
fn defragment_keeps_content_and_order() {
    let mut arena = filled();
    assert_eq!(arena.remove(QuadVec::build(0, 0, 1)), Some(10));
    assert_eq!(arena.remove(QuadVec::build(0, 1, 1)), Some(12));
    arena.defragment();
    assert_eq!(arena.slot_count(), 2);
    assert_eq!(arena.position_at(0), Some(QuadVec::build(1, 0, 1)));
    assert_eq!(arena.position_at(1), Some(QuadVec::build(3, 3, 2)));
    assert_eq!(arena.get(QuadVec::build(1, 0, 1)), Some(&11));
    assert_eq!(arena.get(QuadVec::build(3, 3, 2)), Some(&13));
    assert_eq!(arena.get(QuadVec::build(0, 0, 1)), None);
    assert_eq!(arena.find(QuadVec::build(3, 3, 2)), Some(1));
    // nothing to reuse any more: the next chunk is appended
    assert_eq!(arena.insert(QuadVec::build(0, 0, 1), 40), Ok(2));
}

#[test]
fn defragment_after_removing_everything_leaves_nothing() {
    let mut arena = filled();
    for p in [
        QuadVec::build(0, 0, 1),
        QuadVec::build(1, 0, 1),
        QuadVec::build(0, 1, 1),
        QuadVec::build(3, 3, 2),
    ] {
        assert!(arena.remove(p).is_some());
    }
    assert!(arena.is_empty());
    assert_eq!(arena.slot_count(), 4);
    arena.defragment();
    assert_eq!(arena.slot_count(), 0);
    assert!(arena.is_empty());
    assert_eq!(arena.find(QuadVec::build(0, 0, 1)), None);
    assert_eq!(arena.get(QuadVec::build(3, 3, 2)), None);
}

#[test]
fn many_positions_share_the_index() {
    let mut arena: Arena<2, usize, u8> = Arena::new();
    let mut n = 0usize;
    for depth in 0..5u8 {
        for x in 0..(1u8 << depth) {
            for y in 0..(1u8 << depth) {
                assert_eq!(arena.insert(QuadVec::build(x, y, depth), n), Ok(n));
                n += 1;
            }
        }
    }
    assert_eq!(n, 1 + 4 + 16 + 64 + 256);
    let mut k = 0usize;
    for depth in 0..5u8 {
        for x in 0..(1u8 << depth) {
            for y in 0..(1u8 << depth) {
                assert_eq!(arena.get(QuadVec::build(x, y, depth)), Some(&k));
                if k % 3 == 0 {
                    assert_eq!(arena.remove(QuadVec::build(x, y, depth)), Some(k));
                }
                k += 1;
            }
        }
    }
    arena.defragment();
    assert_eq!(arena.slot_count(), n - (n + 2) / 3);
    let mut k = 0usize;
    for depth in 0..5u8 {
        for x in 0..(1u8 << depth) {
            for y in 0..(1u8 << depth) {
                let expect = if k % 3 == 0 { None } else { Some(&k) };
                assert_eq!(arena.get(QuadVec::build(x, y, depth)), expect);
                k += 1;
            }
        }
    }
}
