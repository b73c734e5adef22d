use spatialtree::{Container, LodVec, OctTree, OctVec, QuadTree, QuadVec, Stage, Tree, TreeError};
use std::collections::BTreeSet;

struct Chunk {
    visible: bool,
    cache_state: i32,
}

fn chunk_creator(_position: QuadVec) -> Chunk {
    Chunk { visible: true, cache_state: 0 }
}

fn positions<C>(tree: &QuadTree<C>) -> BTreeSet<([u8; 2], u8)> {
    tree.iter_chunks().iter().map(|c| (c.position.pos, c.position.depth)).collect()
}

fn cycle<C>(tree: &mut QuadTree<C>, targets: &[QuadVec], max_depth: u8, detail: u32, make: fn(QuadVec) -> C) -> bool {
    let changed = tree.prepare_update(targets, max_depth, detail, make).unwrap();
    tree.do_update().unwrap();
    tree.complete_update().unwrap();
    changed
}

#[test]
fn first_update_refines_around_the_target() {
    // the target at the middle of the region, at the deepest level
    let target = QuadVec::build(8, 8, 4);
    let mut tree = QuadTree::<Chunk>::new();
    assert!(cycle(&mut tree, &[target], 4, 2, chunk_creator));
    let active = positions(&tree);
    assert_eq!(active.len(), 70);
    // the deepest nodes are those of the window around the target
    let deepest: BTreeSet<_> = active.iter().filter(|(_, d)| *d == 4).map(|(p, _)| *p).collect();
    let mut window = BTreeSet::new();
    for x in 6..12u8 {
        for y in 6..12u8 {
            window.insert([x, y]);
        }
    }
    assert_eq!(deepest, window);
    assert_eq!(active.iter().filter(|(_, d)| *d == 3).count(), 27);
    assert_eq!(active.iter().filter(|(_, d)| *d == 2).count(), 7);
    assert_eq!(active.iter().filter(|(_, d)| *d < 2).count(), 0);
    // the nodes tile the region: their areas, in cells of the deepest level, add up to it
    let area: u32 = active.iter().map(|(_, d)| 1u32 << (2 * (4 - *d))).sum();
    assert_eq!(area, 256);
    // and none lies under another
    for (p, d) in &active {
        for (q, e) in &active {
            if (p, d) != (q, e) {
                let a = QuadVec::new(*p, *d);
                let b = QuadVec::new(*q, *e);
                assert!(!a.contains_child_node(b));
            }
        }
    }
    let held = tree.get_chunk_from_position(target).unwrap();
    assert!(held.visible);
    assert_eq!(held.cache_state, 0);
}

#[test]
fn positions_not_asked_for_are_absent() {
    let mut tree = QuadTree::<Chunk>::new();
    cycle(&mut tree, &[QuadVec::build(8, 8, 4)], 4, 2, chunk_creator);
    assert!(tree.get_chunk_from_position(QuadVec::root()).is_none());
    assert!(tree.get_chunk_from_position(QuadVec::build(1, 1, 1)).is_none());
    assert!(tree.get_chunk_from_position(QuadVec::build(0, 0, 4)).is_none());
    assert!(tree.get_chunk_from_position(QuadVec::build(5, 5, 4)).is_none());
    assert!(tree.get_chunk_from_position(QuadVec::build(3, 3, 3)).is_none());
    assert!(tree.get_chunk_from_position(QuadVec::build(3, 3, 2)).is_none());
    assert!(tree.get_chunk_from_position(QuadVec::build(0, 0, 2)).is_some());
    assert!(tree.get_chunk_from_position(QuadVec::build(3, 2, 3)).is_some());
    assert!(tree.get_chunk_from_position(QuadVec::build(6, 6, 4)).is_some());
}

#[test]
fn small_trees_have_the_expected_leaves() {
    let mut tree = QuadTree::<u8>::new();
    assert!(cycle(&mut tree, &[QuadVec::build(0, 0, 2)], 2, 0, |_| 0));
    let expect: BTreeSet<([u8; 2], u8)> = [
        ([0, 0], 2),
        ([1, 0], 2),
        ([0, 1], 2),
        ([1, 1], 2),
        ([1, 0], 1),
        ([0, 1], 1),
        ([1, 1], 1),
    ]
    .into_iter()
    .collect();
    assert_eq!(positions(&tree), expect);

    let mut oct = OctTree::<u8, u16>::new();
    let changed = oct.prepare_update(&[OctVec::<u16>::build(0, 0, 0, 2)], 2, 1, |_| 0);
    assert_eq!(changed, Ok(true));
    assert_eq!(oct.iter_to_activate().len(), 15);
    oct.do_update().unwrap();
    oct.complete_update().unwrap();
    let found = oct.iter_chunks();
    assert_eq!(found.iter().filter(|c| c.position.depth == 2).count(), 8);
    assert_eq!(found.iter().filter(|c| c.position.depth == 1).count(), 7);
}

#[test]
fn no_target_is_a_cycle_without_change() {
    let mut tree = QuadTree::<u8>::new();
    assert!(!cycle(&mut tree, &[], 4, 2, |_| 0));
    assert!(tree.iter_chunks().is_empty());
    cycle(&mut tree, &[QuadVec::build(3, 3, 2)], 2, 0, |_| 1);
    let before = positions(&tree);
    assert_eq!(before.len(), 7);
    assert_eq!(tree.prepare_update(&[], 2, 0, |_| 2), Ok(false));
    assert!(tree.iter_to_activate().is_empty());
    assert!(tree.iter_to_deactivate().is_empty());
    assert!(tree.iter_to_remove().is_empty());
    assert!(tree.do_update().unwrap().is_empty());
    tree.complete_update().unwrap();
    assert_eq!(positions(&tree), before);
}

#[test]
fn same_targets_again_change_nothing() {
    let mut tree = QuadTree::<u8>::new();
    let target = [QuadVec::build(8, 8, 4)];
    assert!(cycle(&mut tree, &target, 4, 2, |_| 1));
    let before = positions(&tree);
    assert!(!cycle(&mut tree, &target, 4, 2, |_| 2));
    assert_eq!(positions(&tree), before);
    // the chunks are those of the first cycle
    assert!(tree.iter_chunks().iter().all(|c| c.chunk == 1));
}

#[test]
fn moving_the_target_splits_the_difference() {
    let mut tree = QuadTree::<u32>::new();
    cycle(&mut tree, &[QuadVec::build(0, 0, 2)], 2, 0, |_| 1);
    let before = positions(&tree);
    let changed = tree.prepare_update(&[QuadVec::build(3, 3, 2)], 2, 0, |_| 2);
    assert_eq!(changed, Ok(true));
    assert_eq!(tree.current_stage(), Stage::Prepared);
    let arriving: BTreeSet<_> =
        tree.iter_to_activate().iter().map(|c| (c.position.pos, c.position.depth)).collect();
    let leaving: BTreeSet<_> =
        tree.iter_to_deactivate().iter().map(|p| (p.pos, p.depth)).collect();
    let removing: BTreeSet<_> = tree.iter_to_remove().iter().map(|p| (p.pos, p.depth)).collect();
    let expect_arriving: BTreeSet<([u8; 2], u8)> =
        [([0, 0], 1), ([2, 2], 2), ([3, 2], 2), ([2, 3], 2), ([3, 3], 2)].into_iter().collect();
    let expect_leaving: BTreeSet<([u8; 2], u8)> =
        [([0, 0], 2), ([1, 0], 2), ([0, 1], 2), ([1, 1], 2), ([1, 1], 1)].into_iter().collect();
    assert_eq!(arriving, expect_arriving);
    assert_eq!(leaving, expect_leaving);
    let asked: BTreeSet<_> = tree.iter_desired().iter().map(|p| (p.pos, p.depth)).collect();
    let stay: BTreeSet<_> = before.intersection(&asked).cloned().collect();
    assert_eq!(asked.len(), 7);
    assert_eq!(stay.len() + arriving.len(), asked.len());
    assert_eq!(stay.len() + leaving.len(), before.len());
    assert_eq!(removing, expect_leaving);
    // every position is in exactly one part
    let desired: BTreeSet<_> =
        before.difference(&leaving).cloned().collect::<BTreeSet<_>>().union(&arriving).cloned().collect();
    assert!(arriving.is_disjoint(&before));
    assert!(leaving.is_subset(&before));
    assert_eq!(desired.len(), 7);
    // nothing is stored before the update is applied
    assert_eq!(positions(&tree), before);
    let removed: Vec<Container<2, u32>> = tree.do_update().unwrap();
    assert_eq!(tree.current_stage(), Stage::Applied);
    let gone: BTreeSet<_> = removed.iter().map(|c| (c.position.pos, c.position.depth)).collect();
    assert_eq!(gone, expect_leaving);
    assert!(removed.iter().all(|c| c.chunk == 1));
    tree.complete_update().unwrap();
    assert_eq!(tree.current_stage(), Stage::Idle);
    assert_eq!(positions(&tree), desired);
    assert_eq!(tree.get_chunk_from_position(QuadVec::build(1, 0, 1)), Some(&1));
    assert_eq!(tree.get_chunk_from_position(QuadVec::build(0, 0, 1)), Some(&2));
    assert_eq!(tree.get_chunk_from_position(QuadVec::build(3, 3, 2)), Some(&2));
    assert_eq!(tree.get_chunk_from_position(QuadVec::build(1, 1, 1)), None);
}

#[test]
fn chunks_kept_by_the_caller_stay_stored() {
    let mut tree = QuadTree::<u32>::new();
    cycle(&mut tree, &[QuadVec::build(0, 0, 2)], 2, 0, |_| 1);
    tree.prepare_update(&[QuadVec::build(3, 3, 2)], 2, 0, |_| 2).unwrap();
    let leaving = tree.iter_to_deactivate();
    let keep = leaving.iter().position(|p| *p == QuadVec::build(1, 1, 2)).unwrap();
    assert_eq!(tree.set_eviction(keep, false), Ok(()));
    assert_eq!(tree.set_eviction(leaving.len(), false), Err(TreeError::NoSuchEntry));
    assert_eq!(tree.iter_to_remove().len(), leaving.len() - 1);
    assert!(!tree.iter_to_remove().contains(&QuadVec::build(1, 1, 2)));
    // the caller marks the chunk that it keeps
    *tree.get_chunk_from_position_mut(QuadVec::build(1, 1, 2)).unwrap() = 3;
    let removed = tree.do_update().unwrap();
    assert_eq!(removed.len(), leaving.len() - 1);
    tree.complete_update().unwrap();
    assert_eq!(tree.get_chunk_from_position(QuadVec::build(1, 1, 2)), Some(&3));
    assert_eq!(tree.get_chunk_from_position(QuadVec::build(0, 0, 2)), None);
    assert_eq!(tree.iter_chunks().len(), 8);
    // in the next cycle the kept chunk is still there to leave, or to be used again
    tree.prepare_update(&[QuadVec::build(3, 3, 2)], 2, 0, |_| 4).unwrap();
    assert_eq!(tree.iter_to_deactivate(), vec![QuadVec::build(1, 1, 2)]);
    assert!(tree.iter_to_activate().is_empty());
    tree.do_update().unwrap();
    tree.complete_update().unwrap();
    assert_eq!(tree.iter_chunks().len(), 7);
    cycle(&mut tree, &[QuadVec::build(0, 0, 2)], 2, 0, |_| 5);
    assert_eq!(tree.get_chunk_from_position(QuadVec::build(1, 1, 2)), Some(&5));
}

#[test]
fn pending_chunks_can_be_changed_before_they_are_stored() {
    let mut tree = QuadTree::<u32>::new();
    tree.prepare_update(&[QuadVec::build(1, 1, 1)], 1, 0, |p: QuadVec| p.pos[0] as u32).unwrap();
    let count = tree.iter_to_activate().len();
    assert_eq!(count, 4);
    for i in 0..count {
        *tree.to_activate_mut(i).unwrap() += 10;
    }
    assert!(tree.to_activate_mut(count).is_none());
    tree.do_update().unwrap();
    tree.complete_update().unwrap();
    assert_eq!(tree.get_chunk_from_position(QuadVec::build(0, 1, 1)), Some(&10));
    assert_eq!(tree.get_chunk_from_position(QuadVec::build(1, 0, 1)), Some(&11));
}

#[test]
fn steps_out_of_order_are_refused() {
    let mut tree = QuadTree::<u8>::new();
    assert_eq!(tree.current_stage(), Stage::Idle);
    assert_eq!(tree.do_update().err(), Some(TreeError::OutOfOrder));
    assert_eq!(tree.complete_update(), Err(TreeError::OutOfOrder));
    assert_eq!(tree.set_eviction(0, false), Err(TreeError::OutOfOrder));
    assert_eq!(tree.prepare_update(&[QuadVec::build(1, 1, 1)], 1, 0, |_| 0), Ok(true));
    assert_eq!(tree.prepare_update(&[QuadVec::build(1, 1, 1)], 1, 0, |_| 0), Err(TreeError::OutOfOrder));
    assert_eq!(tree.complete_update(), Err(TreeError::OutOfOrder));
    assert_eq!(tree.iter_to_activate().len(), 4);
    assert!(tree.do_update().is_ok());
    assert_eq!(tree.do_update().err(), Some(TreeError::OutOfOrder));
    assert_eq!(tree.prepare_update(&[], 1, 0, |_| 0), Err(TreeError::OutOfOrder));
    assert_eq!(tree.complete_update(), Ok(()));
    assert_eq!(tree.iter_chunks().len(), 4);
}

#[test]
fn two_targets_refine_two_corners() {
    let mut tree = QuadTree::<u8>::with_capacity(32);
    cycle(&mut tree, &[QuadVec::build(0, 0, 2), QuadVec::build(3, 3, 2)], 2, 0, |_| 0);
    let expect: BTreeSet<([u8; 2], u8)> = [
        ([0, 0], 2),
        ([1, 0], 2),
        ([0, 1], 2),
        ([1, 1], 2),
        ([1, 0], 1),
        ([0, 1], 1),
        ([2, 2], 2),
        ([3, 2], 2),
        ([2, 3], 2),
        ([3, 3], 2),
    ]
    .into_iter()
    .collect();
    assert_eq!(positions(&tree), expect);
}

#[test]
fn defragment_after_an_update_keeps_every_chunk() {
    let mut tree = QuadTree::<u32>::new();
    cycle(&mut tree, &[QuadVec::build(0, 0, 2)], 2, 0, |p: QuadVec| p.depth as u32 * 100 + p.pos[0] as u32);
    cycle(&mut tree, &[QuadVec::build(3, 3, 2)], 2, 0, |p: QuadVec| p.depth as u32 * 100 + p.pos[0] as u32);
    let before: Vec<(QuadVec, u32)> =
        tree.iter_chunks().iter().map(|c| (c.position, c.chunk)).collect();
    tree.defragment();
    let after: Vec<(QuadVec, u32)> =
        tree.iter_chunks().iter().map(|c| (c.position, c.chunk)).collect();
    assert_eq!(before, after);
    for (p, v) in &before {
        assert_eq!(tree.get_chunk_from_position(*p), Some(v));
    }
    assert_eq!(tree.get_chunk_from_position(QuadVec::build(0, 0, 2)), None);
}

#[test]
fn a_deepest_level_of_zero_asks_for_the_root_alone() {
    let mut tree: Tree<2, u8, u8> = Tree::new();
    cycle(&mut tree, &[QuadVec::build(0, 0, 2)], 2, 0, |_| 0);
    assert_eq!(tree.iter_chunks().len(), 7);
    // a deepest level of zero asks for the root alone: every chunk leaves
    tree.prepare_update(&[QuadVec::build(0, 0, 2)], 0, 0, |_| 1).unwrap();
    assert_eq!(tree.iter_to_remove().len(), 7);
    assert_eq!(tree.iter_to_activate().len(), 1);
    tree.do_update().unwrap();
    tree.complete_update().unwrap();
    assert_eq!(tree.iter_chunks().len(), 1);
    assert_eq!(tree.get_chunk_from_position(QuadVec::root()), Some(&1));
    assert_eq!(QuadVec::<u8>::MAX_CHILDREN, 4);
}

#[test]
fn in_bounds_finds_the_chunks_of_the_box() {
    let mut tree = QuadTree::<u32>::new();
    cycle(&mut tree, &[QuadVec::build(0, 0, 2)], 2, 0, |p: QuadVec| p.depth as u32 * 10 + p.pos[0] as u32);
    let lo = QuadVec::build(0, 0, 2);
    let corner: BTreeSet<_> = tree
        .iter_in_bounds(lo, QuadVec::build(1, 1, 2), 2)
        .iter()
        .map(|c| (c.position.pos, c.position.depth, c.chunk))
        .collect();
    let expect: BTreeSet<([u8; 2], u8, u32)> =
        [([0, 0], 2, 20), ([1, 0], 2, 21), ([0, 1], 2, 20), ([1, 1], 2, 21)].into_iter().collect();
    assert_eq!(corner, expect);
    // nothing of depth two passes a limit of one, and the nodes of depth one lie outside
    assert!(tree.iter_in_bounds(lo, QuadVec::build(1, 1, 2), 1).is_empty());
    // a box over the whole region, limited to depth one
    let coarse: BTreeSet<_> = tree
        .iter_in_bounds(lo, QuadVec::build(3, 3, 2), 1)
        .iter()
        .map(|c| (c.position.pos, c.position.depth))
        .collect();
    let expect: BTreeSet<([u8; 2], u8)> =
        [([1, 0], 1), ([0, 1], 1), ([1, 1], 1)].into_iter().collect();
    assert_eq!(coarse, expect);
    assert_eq!(tree.iter_in_bounds(lo, QuadVec::build(3, 3, 2), 2).len(), 7);
    assert_eq!(tree.places_in_bounds(lo, QuadVec::build(3, 3, 2), 2).len(), 7);
    // a single cell
    let one = tree.iter_in_bounds(QuadVec::build(1, 0, 2), QuadVec::build(1, 0, 2), 4);
    assert_eq!(one.len(), 1);
    assert_eq!(one[0].position, QuadVec::build(1, 0, 2));
    // an empty tree has nothing in any box
    let empty = QuadTree::<u32>::new();
    assert!(empty.iter_in_bounds(lo, QuadVec::build(3, 3, 2), 2).is_empty());
}

#[test]
fn in_bounds_agrees_with_a_scan_of_every_chunk() {
    let mut tree = QuadTree::<u32>::new();
    cycle(&mut tree, &[QuadVec::build(8, 8, 4), QuadVec::build(1, 14, 4)], 4, 1, |_| 0);
    let min = QuadVec::build(3, 5, 4);
    let max = QuadVec::build(9, 12, 4);
    for max_depth in 0..6u8 {
        let found: BTreeSet<_> = tree
            .iter_in_bounds(min, max, max_depth)
            .iter()
            .map(|c| (c.position.pos, c.position.depth))
            .collect();
        let scanned: BTreeSet<_> = tree
            .iter_chunks()
            .iter()
            .filter(|c| c.position.is_inside_bounds(min, max, max_depth))
            .map(|c| (c.position.pos, c.position.depth))
            .collect();
        assert_eq!(found, scanned);
    }
    assert!(!tree.iter_in_bounds(min, max, 4).is_empty());
}

#[test]
fn search_around_changes_the_chunks_nearby() {
    let mut tree = QuadTree::<u32>::new();
    cycle(&mut tree, &[QuadVec::build(0, 0, 2)], 2, 0, |_| 0);
    tree.search_around(QuadVec::build(0, 0, 2), 1, |_, chunk| chunk + 1);
    let marked: BTreeSet<_> = tree
        .iter_chunks()
        .iter()
        .filter(|c| c.chunk == 1)
        .map(|c| (c.position.pos, c.position.depth))
        .collect();
    let expect: BTreeSet<([u8; 2], u8)> =
        [([0, 0], 2), ([1, 0], 2), ([0, 1], 2), ([1, 1], 2)].into_iter().collect();
    assert_eq!(marked, expect);
    assert_eq!(tree.iter_chunks().len(), 7);
    // a wider box reaches the coarse neighbours too
    tree.search_around(QuadVec::build(0, 0, 2), 2, |p: QuadVec, chunk| chunk + 10 * p.depth as u32);
    assert_eq!(tree.get_chunk_from_position(QuadVec::build(0, 0, 2)), Some(&21));
    assert_eq!(tree.get_chunk_from_position(QuadVec::build(1, 1, 1)), Some(&10));
    // at the far corner the box is cut off at the edge and holds one coarse chunk
    tree.search_around(QuadVec::build(3, 3, 2), 1, |_, _| 99);
    let hit: Vec<_> = tree.iter_chunks().iter().filter(|c| c.chunk == 99).map(|c| c.position).collect();
    assert_eq!(hit, vec![QuadVec::build(1, 1, 1)]);
    assert_eq!(tree.get_chunk_from_position(QuadVec::build(1, 0, 1)), Some(&10));
}

#[test]
fn every_chunk_can_be_changed_in_place() {
    let mut tree = QuadTree::<u32>::new();
    cycle(&mut tree, &[QuadVec::build(0, 0, 2)], 2, 0, |_| 1);
    let before: Vec<QuadVec> = tree.iter_chunks().iter().map(|c| c.position).collect();
    tree.iter_chunks_mut(|p: QuadVec, chunk| chunk + p.depth as u32);
    let after: Vec<(QuadVec, u32)> =
        tree.iter_chunks().iter().map(|c| (c.position, c.chunk)).collect();
    assert_eq!(after.len(), 7);
    for (k, (p, chunk)) in after.iter().enumerate() {
        // every chunk stays in its slot
        assert_eq!(*p, before[k]);
        assert_eq!(*chunk, 1 + p.depth as u32);
    }
    tree.iter_in_bounds_mut(QuadVec::build(0, 0, 2), QuadVec::build(3, 3, 2), 1, |_, _| 0);
    assert_eq!(tree.iter_chunks().iter().filter(|c| c.chunk == 0).count(), 3);
    assert_eq!(tree.get_chunk_from_position(QuadVec::build(1, 1, 2)), Some(&3));
    let still: Vec<QuadVec> = tree.iter_chunks().iter().map(|c| c.position).collect();
    assert_eq!(still, before);
}
