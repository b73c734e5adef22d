use spatialtree::{
    get_chunk_count_at_max_depth, rand_cv, CoordVec, LodVec, OctVec, QuadVec, ReasonableIntegerLike,
};
use rand::SeedableRng;
use std::cmp::Ordering;
use std::mem::size_of;

#[test]
fn sizes() {
    assert_eq!(3, size_of::<QuadVec>());
    assert_eq!(4, size_of::<OctVec>());
}

#[test]
fn find_child_idx() {
    // create root
    let z = OctVec::<u8>::root();
    // loop over possible children
    for i in 0..OctVec::<u8>::MAX_CHILDREN {
        // get child of z with index i
        let c = z.get_child(i);
        // recover its index based on coords
        let ci = z.get_child_index(c);
        // make sure they are identical
        assert_eq!(ci, i);

        for j in 0..OctVec::<u8>::MAX_CHILDREN {
            // get child of c
            let cc = c.get_child(j);
            // and its index
            let cci = c.get_child_index(cc);
            println!("{}->{} ({}->{}): {:?}->{:?} ", i, j, ci, cci, c, cc);
            assert_eq!(cci, j);
            // we can also get index w.r.t. previous levels
            let czi = z.get_child_index(cc);
            assert_eq!(czi, i);
            // and we can go deeper too...
            for k in 0..OctVec::<u8>::MAX_CHILDREN {
                let ccc = cc.get_child(k);
                assert_eq!(z.get_child_index(ccc), i);
                assert_eq!(c.get_child_index(ccc), j);
                assert_eq!(cc.get_child_index(ccc), k);
            }
        }
    }
}

#[test]
fn can_subdivide() {
    let z: QuadVec = QuadVec::root();
    let c1 = z.get_child(0);
    let c12 = c1.get_child(0);
    let tgt = QuadVec::build(0, 0, 2);

    println!("{tgt:?}, {c12:?}, {}", tgt.can_subdivide(c12, 3));
    println!("{tgt:?}, {c1:?}, {}", tgt.can_subdivide(c1, 3));
}

#[test]
fn root_is_all_zero_at_depth_zero() {
    let z = OctVec::<u16>::root();
    assert_eq!(z.pos, [0u16, 0, 0]);
    assert_eq!(z.depth, 0);
    assert_eq!(z.depth(), 0);
    assert_eq!(QuadVec::<u8>::default(), QuadVec::<u8>::root());
}

#[test]
fn child_doubles_and_adds_index_bits() {
    let c = QuadVec::<u8>::build(1, 2, 2);
    assert_eq!(c.get_child(0), QuadVec::build(2, 4, 3));
    assert_eq!(c.get_child(1), QuadVec::build(3, 4, 3));
    assert_eq!(c.get_child(2), QuadVec::build(2, 5, 3));
    assert_eq!(c.get_child(3), QuadVec::build(3, 5, 3));
    let o = OctVec::<u32>::build(5, 0, 7, 3);
    assert_eq!(o.get_child(5), OctVec::<u32>::build(11, 0, 15, 4));
}

#[test]
fn child_index_is_stable_over_levels() {
    let c = QuadVec::<u8>::build(1, 2, 2);
    for i in 0..QuadVec::<u8>::MAX_CHILDREN {
        let mut d = c.get_child(i);
        assert_eq!(c.get_child_index(d), i);
        for j in [3usize, 0, 2, 1] {
            d = d.get_child(j);
            assert_eq!(c.get_child_index(d), i);
        }
    }
}

#[test]
fn ancestors_contain_descendants() {
    let c = QuadVec::<u8>::build(1, 2, 2);
    assert!(c.contains_child_node(c));
    let d = c.get_child(3).get_child(1);
    assert!(c.contains_child_node(d));
    assert!(QuadVec::<u8>::root().contains_child_node(d));
    assert!(!d.contains_child_node(c));
    assert!(!QuadVec::<u8>::build(0, 2, 2).contains_child_node(d));
    assert!(!QuadVec::<u8>::build(1, 3, 2).contains_child_node(c));
}

#[test]
fn inside_bounds_projects_to_the_shallowest_depth() {
    let min = QuadVec::<u8>::build(1, 1, 2);
    let max = QuadVec::<u8>::build(2, 3, 2);
    assert!(QuadVec::<u8>::build(1, 1, 2).is_inside_bounds(min, max, 4));
    assert!(QuadVec::<u8>::build(2, 3, 2).is_inside_bounds(min, max, 4));
    assert!(!QuadVec::<u8>::build(3, 3, 2).is_inside_bounds(min, max, 4));
    assert!(!QuadVec::<u8>::build(0, 1, 2).is_inside_bounds(min, max, 4));
    // deeper than the limit
    assert!(!QuadVec::<u8>::build(1, 1, 2).is_inside_bounds(min, max, 1));
    // a deeper node is projected up: (5, 7) at depth 3 is (2, 3) at depth 2
    assert!(QuadVec::<u8>::build(5, 7, 3).is_inside_bounds(min, max, 4));
    assert!(!QuadVec::<u8>::build(6, 7, 3).is_inside_bounds(min, max, 4));
    // a shallower node projects the box up: the box is (0..=1, 0..=1) at depth 1
    assert!(QuadVec::<u8>::build(0, 1, 1).is_inside_bounds(min, max, 4));
    assert!(QuadVec::<u8>::root().is_inside_bounds(min, max, 4));
}

#[test]
fn inside_bounds_survives_coarser_corners() {
    let min = QuadVec::<u8>::build(4, 5, 4);
    let max = QuadVec::<u8>::build(9, 11, 4);
    let c = QuadVec::<u8>::build(6, 10, 4);
    assert!(c.is_inside_bounds(min, max, 4));
    let min2 = QuadVec::<u8>::build(1, 1, 2);
    let max2 = QuadVec::<u8>::build(2, 2, 2);
    assert!(c.is_inside_bounds(min2, max2, 4));
}

#[test]
fn can_subdivide_exact_values() {
    let z: QuadVec = QuadVec::root();
    let c1 = z.get_child(0);
    let c12 = c1.get_child(0);
    let tgt = QuadVec::build(0, 0, 2);
    // a node as deep as the target is never split
    assert!(!tgt.can_subdivide(c12, 3));
    assert!(tgt.can_subdivide(c1, 3));
    assert!(tgt.can_subdivide(z, 0));
    // detail 0: only the node that holds the target is split
    let far = QuadVec::<u8>::build(15, 15, 4);
    assert!(far.can_subdivide(QuadVec::build(1, 1, 1), 0));
    assert!(!far.can_subdivide(QuadVec::build(0, 1, 1), 0));
    assert!(!far.can_subdivide(QuadVec::build(0, 0, 1), 0));
    // the box of node (0, 0) at depth 2, seen from depth 4, is [0, 8) in half cells;
    // with detail 1 it reaches to 12, so x = 5 is in and x = 6 is out
    assert!(QuadVec::<u8>::build(5, 0, 4).can_subdivide(QuadVec::build(0, 0, 2), 1));
    assert!(!QuadVec::<u8>::build(6, 0, 4).can_subdivide(QuadVec::build(0, 0, 2), 1));
    // below: node (3, 0) covers [24, 32); with detail 1 it starts at 20, so x = 10 is in
    assert!(QuadVec::<u8>::build(10, 0, 4).can_subdivide(QuadVec::build(3, 0, 2), 1));
    assert!(!QuadVec::<u8>::build(9, 0, 4).can_subdivide(QuadVec::build(3, 0, 2), 1));
}

#[test]
fn can_subdivide_does_not_wrap_at_the_width_of_the_type() {
    // root seen from depth 6 with detail 2 has an upper bound of 256, beyond a u8
    let tgt = QuadVec::<u8>::build(32, 32, 6);
    assert!(tgt.can_subdivide(QuadVec::root(), 2));
    let deep = QuadVec::<u8>::build(255, 255, 8);
    assert!(deep.can_subdivide(QuadVec::build(127, 127, 7), 0));
    assert!(deep.can_subdivide(QuadVec::root(), u32::MAX));
}

#[test]
fn partial_order_is_by_position_at_one_depth() {
    let a = QuadVec::<u8>::build(1, 1, 2);
    let b = QuadVec::<u8>::build(2, 3, 2);
    let c = QuadVec::<u8>::build(0, 3, 2);
    assert_eq!(a.partial_cmp(&a), Some(Ordering::Equal));
    assert_eq!(a.partial_cmp(&b), Some(Ordering::Less));
    assert_eq!(b.partial_cmp(&a), Some(Ordering::Greater));
    assert_eq!(a.partial_cmp(&c), None);
    assert_eq!(b.partial_cmp(&c), None);
    assert_eq!(a.partial_cmp(&QuadVec::build(1, 1, 3)), None);
    assert!(a < b);
    assert!(b > a);
    assert!(!(a < c) && !(a > c));
}

#[test]
fn add_sums_each_axis() {
    let a = OctVec::<u8>::build(1, 2, 3, 3);
    let b = OctVec::<u8>::build(4, 0, 1, 3);
    let s = a + b;
    assert_eq!(s.pos, [5, 2, 4]);
    assert_eq!(s.depth, 3);
}

#[test]
fn chunk_count_is_the_volume_of_the_box() {
    let a = OctVec::<u8>::build(1, 2, 3, 4);
    let b = OctVec::<u8>::build(4, 2, 5, 4);
    assert_eq!(get_chunk_count_at_max_depth(a, b), 4 * 1 * 3);
    assert_eq!(get_chunk_count_at_max_depth(a, a), 1);
    let lo = QuadVec::<u8>::build(0, 0, 8);
    let hi = QuadVec::<u8>::build(255, 255, 8);
    assert_eq!(get_chunk_count_at_max_depth(lo, hi), 65536);
}

#[test]
fn new_keeps_position_and_depth() {
    let c = CoordVec::<4, u64>::new([1, 2, 3, 1 << 40], 41);
    assert_eq!(c.pos, [1, 2, 3, 1 << 40]);
    assert_eq!(c.depth, 41);
    assert_eq!(c.get_child(0b1010).pos, [2, 5, 6, (1 << 41) + 1]);
}

#[test]
fn rand_cv_stays_in_the_box() {
    let mut rng = rand::rngs::StdRng::seed_from_u64(7);
    let min = OctVec::<u16>::build(3, 0, 100, 8);
    let max = OctVec::<u16>::build(4, 200, 130, 8);
    let mut seen_y = std::collections::BTreeSet::new();
    for _ in 0..200 {
        let c = rand_cv(&mut rng, min, max);
        assert_eq!(c.depth, 8);
        assert_eq!(c.pos[0], 3);
        assert!(c.pos[1] < 200);
        assert!(100 <= c.pos[2] && c.pos[2] < 130);
        seen_y.insert(c.pos[1]);
    }
    assert!(seen_y.len() > 50);
}

#[test]
fn corners_are_cut_off_at_the_edges() {
    let c = QuadVec::<u8>::build(1, 14, 4);
    assert_eq!(c.low_corner(3), QuadVec::build(0, 11, 4));
    assert_eq!(c.high_corner(3), QuadVec::build(4, 15, 4));
    assert_eq!(c.low_corner(0), c);
    assert_eq!(c.high_corner(0), c);
    let edge = QuadVec::<u8>::build(255, 0, 8);
    assert_eq!(edge.high_corner(u32::MAX), QuadVec::build(255, 255, 8));
    assert_eq!(edge.low_corner(u32::MAX), QuadVec::build(0, 0, 8));
}

#[test]
fn equals_is_by_position_and_depth() {
    let c = QuadVec::<u8>::build(1, 2, 2);
    assert!(c.equals(QuadVec::build(1, 2, 2)));
    assert!(!c.equals(QuadVec::build(1, 2, 3)));
    assert!(!c.equals(QuadVec::build(2, 1, 2)));
    assert!(c.same_position(QuadVec::build(1, 2, 3)));
    assert!(c.below(QuadVec::build(2, 3, 2)));
    assert!(!c.below(QuadVec::build(2, 2, 2)));
}

#[test]
fn integers_convert_through_usize() {
    use_all::<u8>(200);
    use_all::<u16>(60_000);
    use_all::<u32>(4_000_000_000);
    use_all::<u64>(1 << 40);
    assert_eq!(u8::fromusize(0x1ff), 0xff);
    assert_eq!(u16::fromusize(0x1_0001), 1);
}

fn use_all<T: ReasonableIntegerLike>(v: usize) {
    assert_eq!(T::fromusize(v).tousize(), v);
}

#[test]
fn cells_go_in_and_out() {
    let c = OctVec::<u16>::from_cells([3, 70_000, 9], 5);
    assert_eq!(c.pos, [3, 4464, 9]);
    assert_eq!(c.depth, 5);
    assert_eq!(c.cells(), [3, 4464, 9]);
    // the cell of the point (0.5, 0.5) at depth four
    let half = QuadVec::<u8>::from_cells([(0.5f32 * 16.0) as usize, (0.5f32 * 16.0) as usize], 4);
    assert_eq!(half, QuadVec::build(8, 8, 4));
}
