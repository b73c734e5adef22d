//! Working out the nodes that a level-of-detail policy asks for.

use crate::arena::Arena;
use crate::coords::{CoordVec, LodVec, MAX_DEPTH};
use crate::desired::{is_desired, lemma_desired_disjoint, reached, splits};
use crate::integer::ReasonableIntegerLike;
use crate::laws::{
    lemma_child_index_recovered, lemma_child_toward, lemma_contains_own_child,
    lemma_contains_same_depth, lemma_contains_scaled, lemma_contains_self,
    lemma_contains_transitive, lemma_inside_ancestor, lemma_scaled_twice,
};
use crate::model::Coord;
use vstd::arithmetic::power2::{lemma_pow2_pos, pow2};
use vstd::bits::{lemma_usize_pow2_no_overflow, lemma_usize_shl_is_mul};
use vstd::prelude::*;

verus! {

/// The values of a sequence of coordinates.
pub open spec fn views<const N: usize, DT: ReasonableIntegerLike>(
    points: Seq<CoordVec<N, DT>>,
) -> Seq<Coord> {
    points.map_values(|p: CoordVec<N, DT>| p@)
}

/// Every coordinate of the sequence is well formed.
pub open spec fn all_wf<const N: usize, DT: ReasonableIntegerLike>(
    points: Seq<CoordVec<N, DT>>,
) -> bool {
    forall|k: int| 0 <= k < points.len() ==> (#[trigger] points[k]).wf()
}

/// Nodes down to `max_depth` are within `MAX_DEPTH` and can be held by `DT` and a `usize`.
pub open spec fn depth_fits<DT: ReasonableIntegerLike>(max_depth: u8) -> bool {
    &&& max_depth <= MAX_DEPTH
    &&& max_depth <= DT::spec_bits()
    &&& max_depth <= usize::BITS
}

/// The policy asks for the coordinate `c`.
pub open spec fn wanted<const N: usize, DT: ReasonableIntegerLike>(
    c: CoordVec<N, DT>,
    targets: Seq<CoordVec<N, DT>>,
    max_depth: u8,
    detail: u32,
) -> bool {
    is_desired(c@, views(targets), max_depth as nat, detail as nat)
}

/// `c` lies under one of the first `count` children of `node`.
pub open spec fn under_first(node: Coord, c: Coord, count: nat) -> bool {
    exists|j: nat| j < count && (#[trigger] node.child(j)).contains(c)
}

/// Whether the policy splits `node`.
pub fn asks_split<const N: usize, DT: ReasonableIntegerLike>(
    node: CoordVec<N, DT>,
    targets: &[CoordVec<N, DT>],
    max_depth: u8,
    detail: u32,
) -> (r: bool)
    requires
        node.wf(),
        all_wf(targets@),
    ensures
        r == splits(node@, views(targets@), max_depth as nat, detail as nat),
{
    if node.depth >= max_depth {
        return false;
    }
    let mut k: usize = 0;
    while k < targets.len()
        invariant
            k <= targets.len(),
            node.wf(),
            node.depth < max_depth,
            all_wf(targets@),
            forall|j: int| 0 <= j < k ==> !(#[trigger] views(targets@)[j]).can_subdivide(
                node@,
                detail as nat,
            ),
        decreases targets.len() - k,
    {
        let target = targets[k];
        assert(target.wf());
        assert(views(targets@)[k as int] == target@);
        if target.can_subdivide(node, detail) {
            assert(0 <= k < views(targets@).len() && views(targets@)[k as int].can_subdivide(
                node@,
                detail as nat,
            ));
            return true;
        }
        k += 1;
    }
    false
}

/// The root covers every well-formed node.
pub proof fn lemma_root_contains(c: Coord)
    requires
        c.wf(),
    ensures
        Coord::root(c.pos.len()).contains(c),
{
    let root = Coord::root(c.pos.len());
    assert forall|i: int| 0 <= i < c.pos.len() implies c.scaled_axis(0, i) == root.pos[i] by {
        lemma_pow2_pos(c.depth);
        assert((c.depth - 0) as nat == c.depth);
        vstd::arithmetic::div_mod::lemma_basic_div(c.pos[i] as int, pow2(c.depth) as int);
    }
}

/// Adds to `into` the nodes at or under `node` that the policy asks for.
pub fn refine<const N: usize, DT: ReasonableIntegerLike>(
    node: CoordVec<N, DT>,
    targets: &[CoordVec<N, DT>],
    max_depth: u8,
    detail: u32,
    into: &mut Arena<N, (), DT>,
)
    requires
        old(into).wf(),
        node.wf(),
        all_wf(targets@),
        N < usize::BITS,
        depth_fits::<DT>(max_depth),
        node.depth <= max_depth,
        reached(node@, views(targets@), max_depth as nat, detail as nat),
        forall|c: CoordVec<N, DT>| #[trigger] old(into)@.contains_key(c) ==> !node@.contains(c@),
    ensures
        final(into).wf(),
        forall|c: CoordVec<N, DT>| #[trigger]
            final(into)@.contains_key(c) <==> old(into)@.contains_key(c) || (node@.contains(c@)
                && wanted(c, targets@, max_depth, detail)),
    decreases max_depth - node.depth,
{
    let ghost policy = views(targets@);
    let ghost before = into@;
    if !asks_split(node, targets, max_depth, detail) {
        proof {
            lemma_contains_self(node@);
        }
        let stored = into.insert(node, ());
        proof {
            assert(stored is Ok);
            assert(wanted(node, targets@, max_depth, detail));
            assert forall|c: CoordVec<N, DT>| #[trigger]
                into@.contains_key(c) <==> before.contains_key(c) || (node@.contains(c@) && wanted(
                    c,
                    targets@,
                    max_depth,
                    detail,
                )) by {
                if node@.contains(c@) && wanted(c, targets@, max_depth, detail) {
                    lemma_desired_disjoint(node@, c@, policy, max_depth as nat, detail as nat);
                    node.lemma_view_injective(c);
                }
            }
        }
        return ;
    }
    proof {
        lemma_usize_pow2_no_overflow(N as nat);
        lemma_usize_shl_is_mul(1, N);
    }
    let count = 1usize << N;
    let mut i: usize = 0;
    while i < count
        invariant
            i <= count,
            count == pow2(N as nat),
            into.wf(),
            node.wf(),
            all_wf(targets@),
            N < usize::BITS,
            depth_fits::<DT>(max_depth),
            node.depth < max_depth,
            policy == views(targets@),
            splits(node@, policy, max_depth as nat, detail as nat),
            reached(node@, policy, max_depth as nat, detail as nat),
            forall|c: CoordVec<N, DT>| #[trigger] before.contains_key(c) ==> !node@.contains(c@),
            forall|c: CoordVec<N, DT>| #[trigger]
                into@.contains_key(c) <==> before.contains_key(c) || (under_first(
                    node@,
                    c@,
                    i as nat,
                ) && wanted(c, targets@, max_depth, detail)),
        decreases count - i,
    {
        let child = node.get_child(i);
        let ghost so_far = into@;
        proof {
            lemma_contains_own_child(node@, i as nat);
            lemma_contains_scaled(node@, child@);
            assert forall|depth: nat| depth < child@.depth implies splits(
                #[trigger] child@.scaled_to(depth),
                policy,
                max_depth as nat,
                detail as nat,
            ) by {
                if depth < node@.depth {
                    lemma_scaled_twice(child@, node@.depth, depth);
                    assert(splits(node@.scaled_to(depth), policy, max_depth as nat, detail as nat));
                }
            }
            assert forall|c: CoordVec<N, DT>| #[trigger] into@.contains_key(c) implies !child@.contains(
                c@,
            ) by {
                if child@.contains(c@) {
                    lemma_contains_transitive(node@, child@, c@);
                    assert(!before.contains_key(c));
                    let j = choose|j: nat| j < i as nat && (#[trigger] node@.child(j)).contains(c@);
                    lemma_child_index_recovered(node@, j, c@);
                    lemma_child_index_recovered(node@, i as nat, c@);
                }
            }
        }
        refine(child, targets, max_depth, detail, into);
        proof {
            assert forall|c: CoordVec<N, DT>| #[trigger]
                into@.contains_key(c) <==> before.contains_key(c) || (under_first(
                    node@,
                    c@,
                    (i + 1) as nat,
                ) && wanted(c, targets@, max_depth, detail)) by {
                if so_far.contains_key(c) && !before.contains_key(c) {
                    let j = choose|j: nat| j < i as nat && (#[trigger] node@.child(j)).contains(c@);
                    assert(j < (i + 1) as nat && node@.child(j).contains(c@));
                }
                if child@.contains(c@) {
                    assert(node@.child(i as nat).contains(c@));
                }
                if under_first(node@, c@, (i + 1) as nat) {
                    let j = choose|j: nat|
                        j < (i + 1) as nat && (#[trigger] node@.child(j)).contains(c@);
                    if j < i {
                        assert(under_first(node@, c@, i as nat));
                    } else {
                        assert(j == i);
                    }
                }
            }
        }
        i += 1;
    }
    proof {
        assert forall|c: CoordVec<N, DT>| #[trigger]
            into@.contains_key(c) <==> before.contains_key(c) || (node@.contains(c@) && wanted(
                c,
                targets@,
                max_depth,
                detail,
            )) by {
            if under_first(node@, c@, count as nat) {
                let j = choose|j: nat| j < count as nat && (#[trigger] node@.child(j)).contains(c@);
                lemma_contains_own_child(node@, j);
                lemma_contains_transitive(node@, node@.child(j), c@);
            }
            if node@.contains(c@) && wanted(c, targets@, max_depth, detail) {
                if c@.depth == node@.depth {
                    lemma_contains_same_depth(node@, c@);
                }
                lemma_child_toward(node@, c@);
                assert(node@.child(node@.child_index(c@)).contains(c@));
            }
        }
    }
}

/// The position `c` is active in `chunks`, inside the box, and at or under `node`.
pub open spec fn matches_under<const N: usize, C, DT: ReasonableIntegerLike>(
    chunks: Map<CoordVec<N, DT>, C>,
    node: Coord,
    c: CoordVec<N, DT>,
    min: Coord,
    max: Coord,
    max_depth: nat,
) -> bool {
    &&& chunks.contains_key(c)
    &&& node.contains(c@)
    &&& c@.inside_bounds(min, max, max_depth)
}

/// Adds to `into` the active positions at or under `node` that lie inside the box from
/// `min` to `max` and are no deeper than `max_depth`. A node outside the box is passed
/// over with everything under it.
pub fn gather<const N: usize, C, DT: ReasonableIntegerLike>(
    chunks: &Arena<N, C, DT>,
    node: CoordVec<N, DT>,
    min: CoordVec<N, DT>,
    max: CoordVec<N, DT>,
    max_depth: u8,
    deepest: u8,
    into: &mut Arena<N, (), DT>,
)
    requires
        old(into).wf(),
        chunks.wf(),
        node.wf(),
        min.wf(),
        max.wf(),
        N < usize::BITS,
        depth_fits::<DT>(deepest),
        node.depth <= deepest,
        forall|c: CoordVec<N, DT>| #[trigger] chunks@.contains_key(c) ==> c.depth <= deepest,
        forall|c: CoordVec<N, DT>| #[trigger] old(into)@.contains_key(c) ==> !node@.contains(c@),
    ensures
        final(into).wf(),
        forall|c: CoordVec<N, DT>| #[trigger]
            final(into)@.contains_key(c) <==> old(into)@.contains_key(c) || matches_under(
                chunks@,
                node@,
                c,
                min@,
                max@,
                max_depth as nat,
            ),
    decreases deepest - node.depth,
{
    let ghost before = into@;
    if !node.is_inside_bounds(min, max, max_depth) {
        proof {
            assert forall|c: CoordVec<N, DT>|
                !matches_under(chunks@, node@, c, min@, max@, max_depth as nat) by {
                if matches_under(chunks@, node@, c, min@, max@, max_depth as nat) {
                    lemma_inside_ancestor(node@, c@, min@, max@, max_depth as nat);
                }
            }
        }
        return ;
    }
    proof {
        lemma_contains_self(node@);
    }
    if chunks.find(node).is_some() {
        let stored = into.insert(node, ());
        assert(stored is Ok);
    }
    let ghost with_node = into@;
    proof {
        assert forall|c: CoordVec<N, DT>| #[trigger]
            with_node.contains_key(c) <==> before.contains_key(c) || (c == node && matches_under(
                chunks@,
                node@,
                c,
                min@,
                max@,
                max_depth as nat,
            )) by {}
    }
    if node.depth >= deepest || node.depth >= max_depth {
        proof {
            assert forall|c: CoordVec<N, DT>| #[trigger]
                into@.contains_key(c) <==> before.contains_key(c) || matches_under(
                    chunks@,
                    node@,
                    c,
                    min@,
                    max@,
                    max_depth as nat,
                ) by {
                if matches_under(chunks@, node@, c, min@, max@, max_depth as nat) {
                    assert(c@.depth <= node@.depth);
                    lemma_contains_same_depth(node@, c@);
                    node.lemma_view_injective(c);
                }
            }
        }
        return ;
    }
    proof {
        lemma_usize_pow2_no_overflow(N as nat);
        lemma_usize_shl_is_mul(1, N);
    }
    let count = 1usize << N;
    let mut i: usize = 0;
    while i < count
        invariant
            i <= count,
            count == pow2(N as nat),
            into.wf(),
            chunks.wf(),
            node.wf(),
            min.wf(),
            max.wf(),
            N < usize::BITS,
            depth_fits::<DT>(deepest),
            node.depth < deepest,
            forall|c: CoordVec<N, DT>| #[trigger] chunks@.contains_key(c) ==> c.depth <= deepest,
            forall|c: CoordVec<N, DT>| #[trigger] before.contains_key(c) ==> !node@.contains(c@),
            forall|c: CoordVec<N, DT>| #[trigger]
                into@.contains_key(c) <==> with_node.contains_key(c) || (under_first(
                    node@,
                    c@,
                    i as nat,
                ) && matches_under(chunks@, node@, c, min@, max@, max_depth as nat)),
            forall|c: CoordVec<N, DT>| #[trigger]
                with_node.contains_key(c) <==> before.contains_key(c) || (c == node
                    && matches_under(chunks@, node@, c, min@, max@, max_depth as nat)),
        decreases count - i,
    {
        let child = node.get_child(i);
        let ghost so_far = into@;
        proof {
            lemma_contains_own_child(node@, i as nat);
            assert forall|c: CoordVec<N, DT>| #[trigger] into@.contains_key(c) implies !child@.contains(
                c@,
            ) by {
                if child@.contains(c@) {
                    lemma_contains_transitive(node@, child@, c@);
                    assert(!before.contains_key(c));
                    if c == node {
                        assert(child@.depth <= node@.depth);
                    } else {
                        let j = choose|j: nat|
                            j < i as nat && (#[trigger] node@.child(j)).contains(c@);
                        lemma_child_index_recovered(node@, j, c@);
                        lemma_child_index_recovered(node@, i as nat, c@);
                    }
                }
            }
        }
        gather(chunks, child, min, max, max_depth, deepest, into);
        proof {
            assert forall|c: CoordVec<N, DT>| #[trigger]
                into@.contains_key(c) <==> with_node.contains_key(c) || (under_first(
                    node@,
                    c@,
                    (i + 1) as nat,
                ) && matches_under(chunks@, node@, c, min@, max@, max_depth as nat)) by {
                if so_far.contains_key(c) && !with_node.contains_key(c) {
                    let j = choose|j: nat| j < i as nat && (#[trigger] node@.child(j)).contains(c@);
                    assert(j < (i + 1) as nat && node@.child(j).contains(c@));
                }
                if matches_under(chunks@, child@, c, min@, max@, max_depth as nat) {
                    assert(node@.child(i as nat).contains(c@));
                    lemma_contains_transitive(node@, child@, c@);
                }
                if under_first(node@, c@, (i + 1) as nat) {
                    let j = choose|j: nat|
                        j < (i + 1) as nat && (#[trigger] node@.child(j)).contains(c@);
                    if j < i {
                        assert(under_first(node@, c@, i as nat));
                    } else {
                        assert(j == i);
                    }
                }
            }
        }
        i += 1;
    }
    proof {
        assert forall|c: CoordVec<N, DT>| #[trigger]
            into@.contains_key(c) <==> before.contains_key(c) || matches_under(
                chunks@,
                node@,
                c,
                min@,
                max@,
                max_depth as nat,
            ) by {
            if matches_under(chunks@, node@, c, min@, max@, max_depth as nat) && c != node {
                if c@.depth == node@.depth {
                    lemma_contains_same_depth(node@, c@);
                    node.lemma_view_injective(c);
                }
                lemma_child_toward(node@, c@);
                assert(node@.child(node@.child_index(c@)).contains(c@));
            }
        }
    }
}

} // verus!
