//! The set of nodes that a level-of-detail policy asks for.

use crate::laws::{
    lemma_ancestors_comparable, lemma_contains_same_depth, lemma_contains_scaled,
    lemma_scaled_contains, lemma_scaled_twice, lemma_scaled_wf,
};
use crate::model::Coord;
use vstd::prelude::*;

verus! {

/// A node is split where it is above the deepest level and some target asks for it.
pub open spec fn splits(node: Coord, targets: Seq<Coord>, max_depth: nat, detail: nat) -> bool {
    &&& node.depth < max_depth
    &&& exists|k: int| 0 <= k < targets.len() && (#[trigger] targets[k]).can_subdivide(node, detail)
}

/// Every node above `c` on the way from the root is split.
pub open spec fn reached(c: Coord, targets: Seq<Coord>, max_depth: nat, detail: nat) -> bool {
    forall|depth: nat|
        depth < c.depth ==> splits(#[trigger] c.scaled_to(depth), targets, max_depth, detail)
}

/// A node is asked for where every node above it is split and it is not split itself.
pub open spec fn is_desired(c: Coord, targets: Seq<Coord>, max_depth: nat, detail: nat) -> bool {
    &&& c.wf()
    &&& reached(c, targets, max_depth, detail)
    &&& !splits(c, targets, max_depth, detail)
}

/// A node that is asked for is no deeper than the deepest level.
pub proof fn lemma_desired_depth(c: Coord, targets: Seq<Coord>, max_depth: nat, detail: nat)
    requires
        is_desired(c, targets, max_depth, detail),
    ensures
        c.depth <= max_depth,
{
    if c.depth > max_depth {
        assert(splits(c.scaled_to(max_depth), targets, max_depth, detail));
    }
}

/// No node that is asked for lies under another: of two such nodes, one of which covers
/// the other, there is only one.
pub proof fn lemma_desired_disjoint(
    a: Coord,
    b: Coord,
    targets: Seq<Coord>,
    max_depth: nat,
    detail: nat,
)
    requires
        is_desired(a, targets, max_depth, detail),
        is_desired(b, targets, max_depth, detail),
        a.contains(b),
    ensures
        a == b,
{
    if a.depth < b.depth {
        lemma_contains_scaled(a, b);
        assert(splits(b.scaled_to(a.depth), targets, max_depth, detail));
    } else {
        lemma_contains_same_depth(a, b);
    }
}

/// Below a chain of split nodes there is a node that is asked for.
proof fn lemma_descend(x: Coord, from: nat, targets: Seq<Coord>, max_depth: nat, detail: nat) -> (depth:
    nat)
    requires
        x.wf(),
        max_depth <= x.depth,
        from <= max_depth,
        forall|d: nat| d < from ==> splits(#[trigger] x.scaled_to(d), targets, max_depth, detail),
    ensures
        depth <= max_depth,
        is_desired(x.scaled_to(depth), targets, max_depth, detail),
    decreases max_depth - from,
{
    let here = x.scaled_to(from);
    if splits(here, targets, max_depth, detail) {
        lemma_descend(x, from + 1, targets, max_depth, detail)
    } else {
        lemma_scaled_wf(x, from);
        assert forall|d: nat| d < here.depth implies splits(
            #[trigger] here.scaled_to(d),
            targets,
            max_depth,
            detail,
        ) by {
            lemma_scaled_twice(x, from, d);
        }
        from
    }
}

/// The nodes that are asked for tile the region: every cell at or below the deepest
/// level lies under exactly one of them.
pub proof fn lemma_desired_covers(x: Coord, targets: Seq<Coord>, max_depth: nat, detail: nat) -> (depth:
    nat)
    requires
        x.wf(),
        max_depth <= x.depth,
    ensures
        depth <= max_depth,
        is_desired(x.scaled_to(depth), targets, max_depth, detail),
        x.scaled_to(depth).contains(x),
        forall|other: Coord|
            is_desired(other, targets, max_depth, detail) && #[trigger] other.contains(x) ==> other
                == x.scaled_to(depth),
{
    let depth = lemma_descend(x, 0, targets, max_depth, detail);
    let leaf = x.scaled_to(depth);
    lemma_scaled_contains(x, depth);
    assert forall|other: Coord|
        is_desired(other, targets, max_depth, detail) && #[trigger] other.contains(x) implies other
        == leaf by {
        if other.depth <= leaf.depth {
            lemma_ancestors_comparable(other, leaf, x);
            lemma_desired_disjoint(other, leaf, targets, max_depth, detail);
        } else {
            lemma_ancestors_comparable(leaf, other, x);
            lemma_desired_disjoint(leaf, other, targets, max_depth, detail);
        }
    }
    depth
}

} // verus!
