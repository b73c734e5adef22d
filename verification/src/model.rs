//! The mathematical value of a coordinate, and the tree relations stated on it.

use vstd::arithmetic::power2::pow2;
use vstd::prelude::*;

verus! {

/// Bit `i` of `index`.
pub open spec fn bit_of(index: nat, i: nat) -> nat {
    (index / pow2(i)) % 2
}

/// The number whose bit `i` is `bits[i]`.
pub open spec fn bits_value(bits: Seq<nat>) -> nat
    decreases bits.len(),
{
    if bits.len() == 0 {
        0
    } else {
        bits_value(bits.drop_last()) + bits.last() * pow2((bits.len() - 1) as nat)
    }
}

/// The smallest of three numbers.
pub open spec fn min3(a: nat, b: nat, c: nat) -> nat {
    if a <= b && a <= c {
        a
    } else if b <= c {
        b
    } else {
        c
    }
}

/// A node of the tree: one number per axis, counted in cells of the node's depth.
pub struct Coord {
    pub pos: Seq<nat>,
    pub depth: nat,
}

impl Coord {
    /// Every component is below `2^depth`.
    pub open spec fn wf(self) -> bool {
        forall|i: int| 0 <= i < self.pos.len() ==> self.pos[i] < pow2(self.depth)
    }

    /// The node that covers the whole region, on `dims` axes.
    pub open spec fn root(dims: nat) -> Coord {
        Coord { pos: Seq::new(dims, |i: int| 0nat), depth: 0 }
    }

    /// The child picked by `index`: bit `i` of `index` says which half of axis `i`.
    pub open spec fn child(self, index: nat) -> Coord {
        Coord {
            pos: Seq::new(self.pos.len(), |i: int| 2 * self.pos[i] + bit_of(index, i as nat)),
            depth: self.depth + 1,
        }
    }

    /// Component `i` counted in cells of the shallower depth `depth`.
    pub open spec fn scaled_axis(self, depth: nat, i: int) -> nat {
        self.pos[i] / pow2((self.depth - depth) as nat)
    }

    /// The node of depth `depth` that covers `self`, for `depth` up to `self.depth`.
    pub open spec fn scaled_to(self, depth: nat) -> Coord {
        Coord { pos: Seq::new(self.pos.len(), |i: int| self.scaled_axis(depth, i)), depth }
    }

    /// `self` is `other` or one of its ancestors.
    pub open spec fn contains(self, other: Coord) -> bool {
        &&& self.depth <= other.depth
        &&& self.pos.len() == other.pos.len()
        &&& forall|i: int|
            0 <= i < self.pos.len() ==> other.scaled_axis(self.depth, i) == self.pos[i]
    }

    /// Along axis `i`, which half of `self` the deeper node `other` lies in.
    pub open spec fn half_toward(self, other: Coord, i: int) -> nat {
        let levels = (other.depth - self.depth) as nat;
        ((other.pos[i] - self.pos[i] * pow2(levels)) / (pow2((levels - 1) as nat) as int)) as nat
    }

    /// The index of the child of `self` on the way to the deeper node `other`.
    pub open spec fn child_index(self, other: Coord) -> nat {
        bits_value(Seq::new(self.pos.len(), |i: int| self.half_toward(other, i)))
    }

    /// Along axis `i`, `self` lies between `min` and `max`, all three counted in cells of
    /// the shallowest of their depths.
    pub open spec fn within_on_axis(self, min: Coord, max: Coord, i: int) -> bool {
        let level = min3(self.depth, min.depth, max.depth);
        min.scaled_axis(level, i) <= self.scaled_axis(level, i) <= max.scaled_axis(level, i)
    }

    /// `self` is no deeper than `max_depth` and lies in the box from `min` to `max`.
    pub open spec fn inside_bounds(self, min: Coord, max: Coord, max_depth: nat) -> bool {
        &&& self.depth <= max_depth
        &&& forall|i: int| 0 <= i < self.pos.len() ==> self.within_on_axis(min, max, i)
    }

    /// Along axis `i`, the target `self` lies in the cells of `node` widened by `detail`
    /// child cells on either side, all counted in half cells of the target's depth.
    pub open spec fn near_on_axis(self, node: Coord, detail: nat, i: int) -> bool {
        let levels = (self.depth - node.depth) as nat;
        let low = node.pos[i] * pow2(levels + 1) - detail * pow2(levels);
        let high = node.pos[i] * pow2(levels + 1) + (detail + 2) * pow2(levels);
        low <= 2 * self.pos[i] < high
    }

    /// A target at `self` asks for `node` to be split.
    pub open spec fn can_subdivide(self, node: Coord, detail: nat) -> bool {
        &&& node.depth < self.depth
        &&& forall|i: int| 0 <= i < self.pos.len() ==> self.near_on_axis(node, detail, i)
    }

    /// The lowest corner of the box that reaches `radius` cells from `self` on every axis.
    pub open spec fn low_corner(self, radius: nat) -> Coord {
        Coord {
            pos: Seq::new(
                self.pos.len(),
                |i: int|
                    if self.pos[i] >= radius {
                        (self.pos[i] - radius) as nat
                    } else {
                        0
                    },
            ),
            depth: self.depth,
        }
    }

    /// The highest corner of the box that reaches `radius` cells from `self` on every
    /// axis, cut off at the edge of the region.
    pub open spec fn high_corner(self, radius: nat) -> Coord {
        Coord {
            pos: Seq::new(
                self.pos.len(),
                |i: int|
                    if self.pos[i] + radius < pow2(self.depth) {
                        self.pos[i] + radius
                    } else {
                        (pow2(self.depth) - 1) as nat
                    },
            ),
            depth: self.depth,
        }
    }

    /// `self` lies within `radius` cells of `center`, counted at the depth of `center`.
    pub open spec fn within(self, center: Coord, radius: nat) -> bool {
        self.inside_bounds(center.low_corner(radius), center.high_corner(radius), self.depth)
    }

    /// The component-wise sum, at the depth of `self`.
    pub open spec fn plus(self, other: Coord) -> Coord {
        Coord {
            pos: Seq::new(self.pos.len(), |i: int| self.pos[i] + other.pos[i]),
            depth: self.depth,
        }
    }
}

/// The number of cells in the box from `low` to `high`, both corners included.
pub open spec fn box_cells(low: Seq<nat>, high: Seq<nat>) -> int
    decreases low.len(),
{
    if low.len() == 0 {
        1
    } else {
        box_cells(low.drop_last(), high.drop_last()) * (high[low.len() - 1] - low.last() + 1)
    }
}

} // verus!
