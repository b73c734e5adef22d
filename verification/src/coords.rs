//! Coordinates of the nodes of an implicit tree with `2^N` children per node.

use crate::integer::ReasonableIntegerLike;
use crate::model::{bit_of, bits_value, box_cells, min3, Coord};
use crate::power::{lemma_half, lemma_pow2_monotonic, pow2_u64};
use vstd::arithmetic::div_mod::lemma_small_mod;
use vstd::arithmetic::power2::{lemma2_to64_rest, lemma_pow2_pos, lemma_pow2_unfold, pow2};
use vstd::bits::{lemma_usize_pow2_no_overflow, lemma_usize_shl_is_mul, lemma_usize_shr_is_div};
use vstd::prelude::*;

verus! {

/// The deepest level a coordinate may be at.
pub const MAX_DEPTH: u8 = 60;

/// A position in the tree: one coordinate per axis, and the depth they are counted at.
#[derive(Debug, Copy, PartialEq, Eq, Hash)]
pub struct CoordVec<const N: usize, DT = u8> where DT: ReasonableIntegerLike {
    pub pos: [DT; N],
    pub depth: u8,
}

impl<const N: usize, DT> Clone for CoordVec<N, DT> where DT: ReasonableIntegerLike {
    /// A copy of the coordinate.
    fn clone(&self) -> (r: Self)
        ensures
            r == *self,
    {
        *self
    }
}

impl<const N: usize, DT> View for CoordVec<N, DT> where DT: ReasonableIntegerLike {
    type V = Coord;

    /// The numbers that the components stand for, and the depth.
    open spec fn view(&self) -> Coord {
        Coord {
            pos: Seq::new(N as nat, |i: int| self.pos[i].spec_value()),
            depth: self.depth as nat,
        }
    }
}

impl<const N: usize, DT> CoordVec<N, DT> where DT: ReasonableIntegerLike {
    /// The depth is at most `MAX_DEPTH`, and every component is below `2^depth` and small
    /// enough for a `usize`.
    pub open spec fn wf(self) -> bool {
        &&& self.depth <= MAX_DEPTH
        &&& forall|i: int|
            0 <= i < N ==> {
                &&& (#[trigger] self.pos[i]).spec_value() < pow2(self.depth as nat)
                &&& self.pos[i].spec_value() <= usize::MAX
            }
    }

    /// Two coordinates with the same value are the same coordinate.
    pub proof fn lemma_view_injective(self, other: Self)
        requires
            self@ == other@,
        ensures
            self == other,
    {
        assert forall|i: int| 0 <= i < N implies self.pos[i] == other.pos[i] by {
            assert(self@.pos[i] == self.pos[i].spec_value());
            assert(other@.pos[i] == other.pos[i].spec_value());
            self.pos[i].lemma_value_injective(other.pos[i]);
        }
        assert(self.pos =~= other.pos);
    }

    /// Makes a coordinate from a position and the depth it is counted at.
    pub fn new(pos: [DT; N], depth: u8) -> (r: Self)
        requires
            depth <= MAX_DEPTH,
            forall|i: int|
                0 <= i < N ==> {
                    &&& (#[trigger] pos[i]).spec_value() < pow2(depth as nat)
                    &&& pos[i].spec_value() <= usize::MAX
                },
        ensures
            r.pos == pos,
            r.depth == depth,
            r.wf(),
    {
        Self { pos, depth }
    }

    /// Component `i` as `tousize` gives it: the number it stands for, cut to a `usize`.
    pub open spec fn word(self, i: int) -> nat {
        self.pos[i].spec_value() % (usize::MAX as nat + 1)
    }

    /// The two positions agree in every component, each taken as a `usize`.
    pub open spec fn same_words(self, other: Self) -> bool {
        forall|i: int| 0 <= i < N ==> self.word(i) == other.word(i)
    }

    /// Every component of `self` is below that of `other`, each taken as a `usize`.
    pub open spec fn words_below(self, other: Self) -> bool {
        forall|i: int| 0 <= i < N ==> self.word(i) < other.word(i)
    }

    /// The components of a well-formed coordinate are their own words.
    pub proof fn lemma_words(self)
        requires
            self.wf(),
        ensures
            forall|i: int| 0 <= i < N ==> self.word(i) == self@.pos[i],
    {
        assert forall|i: int| 0 <= i < N implies self.word(i) == self@.pos[i] by {
            lemma_small_mod(self.pos[i].spec_value(), usize::MAX as nat + 1);
        }
    }

    /// Whether the two positions agree in every component.
    pub fn same_position(self, other: Self) -> (r: bool)
        ensures
            r == self.same_words(other),
    {
        let mut i: usize = 0;
        while i < N
            invariant
                i <= N,
                forall|j: int| 0 <= j < i ==> self.word(j) == other.word(j),
            decreases N - i,
        {
            if self.pos[i].tousize() != other.pos[i].tousize() {
                assert(self.word(i as int) != other.word(i as int));
                return false;
            }
            i += 1;
        }
        true
    }

    /// Whether two well-formed coordinates are the same.
    pub fn equals(self, other: Self) -> (r: bool)
        requires
            self.wf(),
            other.wf(),
        ensures
            r == (self == other),
    {
        if self.depth != other.depth {
            return false;
        }
        let same = self.same_position(other);
        proof {
            self.lemma_words();
            other.lemma_words();
            if same {
                assert forall|i: int| 0 <= i < N implies self@.pos[i] == other@.pos[i] by {
                    assert(self.word(i) == other.word(i));
                }
                assert(self@.pos =~= other@.pos);
                self.lemma_view_injective(other);
            }
        }
        same
    }

    /// Whether every component of `self` is strictly below that of `other`.
    pub fn below(self, other: Self) -> (r: bool)
        ensures
            r == self.words_below(other),
    {
        let mut i: usize = 0;
        while i < N
            invariant
                i <= N,
                forall|j: int| 0 <= j < i ==> self.word(j) < other.word(j),
            decreases N - i,
        {
            if self.pos[i].tousize() >= other.pos[i].tousize() {
                assert(!(self.word(i as int) < other.word(i as int)));
                return false;
            }
            i += 1;
        }
        true
    }

    /// The depths agree, and every sum of two components can be held by `DT` and by a
    /// `usize`.
    pub open spec fn sum_fits(self, rhs: Self) -> bool {
        &&& self.depth == rhs.depth
        &&& forall|i: int|
            0 <= i < N ==> {
                &&& self@.pos[i] + rhs@.pos[i] < pow2(DT::spec_bits())
                &&& self@.pos[i] + rhs@.pos[i] <= usize::MAX
            }
    }

    /// The coordinate at the depth of `self` whose position is the sum of the two.
    pub open spec fn sum(self, rhs: Self) -> Self {
        choose|r: Self| r@ == self@.plus(rhs@)
    }

    /// The children of the coordinate are within `MAX_DEPTH`, and their positions can be
    /// held by `DT` and by a `usize`.
    pub open spec fn can_descend(self) -> bool {
        &&& self.depth < MAX_DEPTH
        &&& self.depth < DT::spec_bits()
        &&& self.depth < usize::BITS
    }

    /// The coordinate at `depth` whose components are the numbers of `cells`, each cut to
    /// the width of `DT`.
    pub fn from_cells(cells: [usize; N], depth: u8) -> (r: Self)
        ensures
            r.depth == depth,
            forall|i: int|
                0 <= i < N ==> (#[trigger] r.pos[i]).spec_value() == (cells[i] as nat) % pow2(
                    DT::spec_bits(),
                ),
    {
        let zero = DT::fromusize(0);
        let mut pos = [zero;N];
        let mut i: usize = 0;
        while i < N
            invariant
                i <= N,
                forall|j: int|
                    0 <= j < i ==> (#[trigger] pos[j]).spec_value() == (cells[j] as nat) % pow2(
                        DT::spec_bits(),
                    ),
            decreases N - i,
        {
            let v = DT::fromusize(cells[i]);
            pos[i] = v;
            i += 1;
        }
        Self { pos, depth }
    }

    /// The components as `tousize` gives them.
    pub fn cells(self) -> (r: [usize; N])
        ensures
            forall|i: int| 0 <= i < N ==> (#[trigger] r[i]) as nat == self.word(i),
    {
        let mut out = [0usize;N];
        let mut i: usize = 0;
        while i < N
            invariant
                i <= N,
                forall|j: int| 0 <= j < i ==> (#[trigger] out[j]) as nat == self.word(j),
            decreases N - i,
        {
            let v = self.pos[i].tousize();
            out[i] = v;
            i += 1;
        }
        out
    }

    /// The lowest corner of the box that reaches `radius` cells from `self` on every axis.
    pub fn low_corner(self, radius: u32) -> (r: Self)
        requires
            self.wf(),
        ensures
            r.wf(),
            r@ == self@.low_corner(radius as nat),
    {
        let mut pos = self.pos;
        let mut i: usize = 0;
        while i < N
            invariant
                i <= N,
                self.wf(),
                forall|j: int| i <= j < N ==> pos[j] == self.pos[j],
                forall|j: int|
                    0 <= j < i ==> (#[trigger] pos[j]).spec_value() == self@.low_corner(
                        radius as nat,
                    ).pos[j],
            decreases N - i,
        {
            let x = self.axis(i);
            let v = if x >= radius as u64 {
                x - radius as u64
            } else {
                0
            };
            proof {
                self.pos[i as int].lemma_value_bound();
            }
            let moved = DT::fromusize(v as usize);
            pos[i] = moved;
            i += 1;
        }
        let r = Self { pos, depth: self.depth };
        assert(r@.pos =~= self@.low_corner(radius as nat).pos);
        assert forall|j: int| 0 <= j < N implies (#[trigger] r.pos[j]).spec_value() < pow2(
            r.depth as nat,
        ) && r.pos[j].spec_value() <= usize::MAX by {
            assert(r.pos[j].spec_value() == self@.low_corner(radius as nat).pos[j]);
            assert(self.pos[j].spec_value() < pow2(self.depth as nat));
        }
        r
    }

    /// The highest corner of the box that reaches `radius` cells from `self` on every
    /// axis, cut off at the edge of the region.
    pub fn high_corner(self, radius: u32) -> (r: Self)
        requires
            self.wf(),
            self.depth <= DT::spec_bits(),
            self.depth <= usize::BITS,
        ensures
            r.wf(),
            r@ == self@.high_corner(radius as nat),
    {
        let mut pos = self.pos;
        let mut i: usize = 0;
        proof {
            lemma_pow2_monotonic(self.depth as nat, 60);
            lemma_pow2_monotonic(self.depth as nat, DT::spec_bits());
            lemma_pow2_monotonic(self.depth as nat, usize::BITS as nat);
            lemma2_to64_rest();
            vstd::layout::unsigned_int_max_values();
        }
        let edge = pow2_u64(self.depth);
        while i < N
            invariant
                i <= N,
                self.wf(),
                edge == pow2(self.depth as nat),
                edge <= 0x1000_0000_0000_0000,
                edge <= pow2(DT::spec_bits()),
                edge <= usize::MAX + 1,
                forall|j: int| i <= j < N ==> pos[j] == self.pos[j],
                forall|j: int|
                    0 <= j < i ==> (#[trigger] pos[j]).spec_value() == self@.high_corner(
                        radius as nat,
                    ).pos[j],
            decreases N - i,
        {
            let x = self.axis(i);
            let v = if x + (radius as u64) < edge {
                x + radius as u64
            } else {
                edge - 1
            };
            let moved = DT::fromusize(v as usize);
            pos[i] = moved;
            i += 1;
        }
        let r = Self { pos, depth: self.depth };
        assert(r@.pos =~= self@.high_corner(radius as nat).pos);
        assert forall|j: int| 0 <= j < N implies (#[trigger] r.pos[j]).spec_value() < pow2(
            r.depth as nat,
        ) && r.pos[j].spec_value() <= usize::MAX by {
            assert(r.pos[j].spec_value() == self@.high_corner(radius as nat).pos[j]);
        }
        r
    }

    /// Component `i` as a machine integer.
    pub(crate) fn axis(self, i: usize) -> (r: u64)
        requires
            self.wf(),
            i < N,
        ensures
            r == self@.pos[i as int],
            r < pow2(self.depth as nat),
    {
        let r = self.pos[i].tousize();
        r as u64
    }
}

/// What the tree asks of a coordinate type.
pub trait LodVec<const N: usize>:
    std::hash::Hash + Eq + Sized + Copy + Clone + Send + Sync + std::fmt::Debug + PartialOrd
{
    /// The number of children that a node has.
    const MAX_CHILDREN: usize = 1 << N;

    /// The value of the coordinate.
    spec fn coord(self) -> Coord;

    /// The coordinate is one that the tree can hold.
    spec fn valid(self) -> bool;

    /// The children of the coordinate can be held too.
    spec fn has_children(self) -> bool;

    /// The child of this node picked by `index`.
    fn get_child(self, index: usize) -> (r: Self)
        requires
            self.valid(),
            self.has_children(),
            N <= usize::BITS,
            (index as nat) < pow2(N as nat),
        ensures
            r.valid(),
            r.coord() == self.coord().child(index as nat),
    ;

    /// The index of the child of this node on the way to the deeper node `child`.
    fn get_child_index(self, child: Self) -> (r: usize)
        requires
            self.valid(),
            child.valid(),
            N <= usize::BITS,
            self.coord().depth < child.coord().depth,
            self.coord().contains(child.coord()),
        ensures
            r == self.coord().child_index(child.coord()),
    ;

    /// Whether this node is `child` or one of its ancestors.
    fn contains_child_node(self, child: Self) -> (r: bool)
        requires
            self.valid(),
            child.valid(),
        ensures
            r == self.coord().contains(child.coord()),
    ;

    /// The node that covers the whole region.
    fn root() -> (r: Self)
        ensures
            r.valid(),
            r.coord() == Coord::root(N as nat),
    ;

    /// Whether a target at this position asks for `node` to be split, so that `detail`
    /// cells around the target are kept at the finer level.
    fn can_subdivide(self, node: Self, detail: u32) -> (r: bool)
        requires
            self.valid(),
            node.valid(),
        ensures
            r == self.coord().can_subdivide(node.coord(), detail as nat),
    ;

    /// Whether this node is no deeper than `max_depth` and lies in the box whose lowest
    /// corner is `min` and whose highest corner is `max`.
    fn is_inside_bounds(self, min: Self, max: Self, max_depth: u8) -> (r: bool)
        requires
            self.valid(),
            min.valid(),
            max.valid(),
        ensures
            r == self.coord().inside_bounds(min.coord(), max.coord(), max_depth as nat),
    ;

    /// The depth of this node.
    fn depth(self) -> (r: u8)
        ensures
            r == self.coord().depth,
    ;
}

impl<const N: usize, DT> LodVec<N> for CoordVec<N, DT> where DT: ReasonableIntegerLike {
    open spec fn coord(self) -> Coord {
        self@
    }

    open spec fn valid(self) -> bool {
        self.wf()
    }

    open spec fn has_children(self) -> bool {
        self.can_descend()
    }

    fn root() -> (r: Self) {
        let zero = DT::fromusize(0);
        proof {
            lemma_pow2_pos(DT::spec_bits());
            lemma_pow2_pos(0);
        }
        let r = Self { pos: [zero;N], depth: 0 };
        assert(r@.pos =~= Coord::root(N as nat).pos);
        r
    }

    fn depth(self) -> (r: u8) {
        self.depth
    }

    fn get_child(self, index: usize) -> (r: Self) {
        let mut pos = self.pos;
        let mut i: usize = 0;
        while i < N
            invariant
                i <= N,
                N <= usize::BITS,
                self.wf(),
                self.can_descend(),
                forall|j: int|
                    0 <= j < i ==> (#[trigger] pos[j]).spec_value() == 2 * self@.pos[j] + bit_of(
                        index as nat,
                        j as nat,
                    ),
            decreases N - i,
        {
            proof {
                lemma_pow2_monotonic(self.depth as nat, 60);
                lemma2_to64_rest();
            }
            let doubled = self.axis(i) * 2;
            let bit = (index >> i) % 2;
            proof {
                lemma_usize_shr_is_div(index, i);
                lemma_child_fits::<DT>(self@.pos[i as int], self.depth as nat, bit as nat);
            }
            let p = doubled + bit as u64;
            let v = DT::fromusize(p as usize);
            pos[i] = v;
            i += 1;
        }
        let r = Self { pos, depth: self.depth + 1 };
        proof {
            assert(r@.pos =~= self@.child(index as nat).pos);
            assert forall|j: int| 0 <= j < N implies {
                &&& (#[trigger] r.pos[j]).spec_value() < pow2(r.depth as nat)
                &&& r.pos[j].spec_value() <= usize::MAX
            } by {
                lemma_child_fits::<DT>(
                    self@.pos[j],
                    self.depth as nat,
                    bit_of(index as nat, j as nat),
                );
            }
        }
        r
    }

    fn get_child_index(self, child: Self) -> (r: usize) {
        let levels = child.depth - self.depth;
        let scale = pow2_u64(levels);
        let half = pow2_u64(levels - 1);
        let ghost sides = Seq::new(N as nat, |i: int| self@.half_toward(child@, i));
        let mut index: usize = 0;
        let mut i: usize = 0;
        proof {
            lemma_pow2_pos(0);
        }
        while i < N
            invariant
                i <= N,
                N <= usize::BITS,
                self.wf(),
                child.wf(),
                self.depth < child.depth,
                self@.contains(child@),
                levels == child.depth - self.depth,
                scale == pow2(levels as nat),
                half == pow2((levels - 1) as nat),
                half > 0,
                sides == Seq::new(N as nat, |i: int| self@.half_toward(child@, i)),
                index == bits_value(sides.take(i as int)),
                index < pow2(i as nat),
            decreases N - i,
        {
            proof {
                assert(child@.scaled_axis(self@.depth, i as int) == self@.pos[i as int]);
                lemma_half(child@.pos[i as int], self@.pos[i as int], levels as nat);
                lemma_pow2_monotonic(child.depth as nat, 60);
                lemma2_to64_rest();
                lemma_usize_pow2_no_overflow(i as nat);
                lemma_usize_shl_is_mul(1, i);
                lemma_pow2_unfold((i + 1) as nat);
                lemma_pow2_monotonic((i + 1) as nat, usize::BITS as nat);
                vstd::layout::unsigned_int_max_values();
                assert(sides.take(i + 1).drop_last() =~= sides.take(i as int));
            }
            let base = self.axis(i) * scale;
            let offset = child.axis(i) - base;
            let side = offset / half;
            let weight = 1usize << i;
            proof {
                let upto = sides.take(i + 1);
                assert(upto.len() == i + 1);
                assert(upto.last() == sides[i as int]);
                assert(side == self@.half_toward(child@, i as int));
                assert(weight == pow2(i as nat));
                assert(bits_value(upto) == bits_value(upto.drop_last()) + upto.last() * pow2(
                    i as nat,
                ));
                assert(side == 0 || side == 1);
                assert(side * pow2(i as nat) == if side == 1 {
                    pow2(i as nat)
                } else {
                    0
                }) by (nonlinear_arith)
                    requires
                        side == 0 || side == 1,
                ;
            }
            if side == 1 {
                index = index + weight;
            }
            i += 1;
        }
        assert(sides.take(N as int) =~= sides);
        index
    }

    fn contains_child_node(self, child: Self) -> (r: bool) {
        if child.depth < self.depth {
            return false;
        }
        let levels = child.depth - self.depth;
        let scale = pow2_u64(levels);
        let mut i: usize = 0;
        while i < N
            invariant
                i <= N,
                self.wf(),
                child.wf(),
                self.depth <= child.depth,
                levels == child.depth - self.depth,
                scale == pow2(levels as nat),
                scale > 0,
                forall|j: int| 0 <= j < i ==> child@.scaled_axis(self@.depth, j) == self@.pos[j],
            decreases N - i,
        {
            if child.axis(i) / scale != self.axis(i) {
                assert(child@.scaled_axis(self@.depth, i as int) != self@.pos[i as int]);
                return false;
            }
            i += 1;
        }
        true
    }

    fn is_inside_bounds(self, min: Self, max: Self, max_depth: u8) -> (r: bool) {
        if self.depth > max_depth {
            return false;
        }
        let mut level = self.depth;
        if min.depth < level {
            level = min.depth;
        }
        if max.depth < level {
            level = max.depth;
        }
        assert(level == min3(self@.depth, min@.depth, max@.depth));
        let self_scale = pow2_u64(self.depth - level);
        let min_scale = pow2_u64(min.depth - level);
        let max_scale = pow2_u64(max.depth - level);
        let mut i: usize = 0;
        while i < N
            invariant
                i <= N,
                self.wf(),
                min.wf(),
                max.wf(),
                level == min3(self@.depth, min@.depth, max@.depth),
                self_scale == pow2((self.depth - level) as nat),
                min_scale == pow2((min.depth - level) as nat),
                max_scale == pow2((max.depth - level) as nat),
                self_scale > 0,
                min_scale > 0,
                max_scale > 0,
                forall|j: int| 0 <= j < i ==> self@.within_on_axis(min@, max@, j),
            decreases N - i,
        {
            let here = self.axis(i) / self_scale;
            let low = min.axis(i) / min_scale;
            let high = max.axis(i) / max_scale;
            if !(low <= here && here <= high) {
                assert(!self@.within_on_axis(min@, max@, i as int));
                return false;
            }
            i += 1;
        }
        true
    }

    fn can_subdivide(self, node: Self, detail: u32) -> (r: bool) {
        if node.depth >= self.depth {
            return false;
        }
        let levels = self.depth - node.depth;
        let cell = pow2_u64(levels) as u128;
        proof {
            lemma_pow2_monotonic(levels as nat, 60);
            lemma_pow2_monotonic(node.depth as nat, 60);
            lemma_pow2_monotonic(self.depth as nat, 60);
            lemma2_to64_rest();
            lemma_pow2_unfold((levels + 1) as nat);
        }
        let span = 2 * cell;
        assert(detail * cell <= 0xffff_ffff * 0x1000_0000_0000_0000) by (nonlinear_arith)
            requires
                detail <= 0xffff_ffff,
                cell <= 0x1000_0000_0000_0000,
        ;
        let margin = (detail as u128) * cell;
        assert((detail + 2) * cell == detail * cell + 2 * cell) by (nonlinear_arith);
        let mut i: usize = 0;
        while i < N
            invariant
                i <= N,
                self.wf(),
                node.wf(),
                node.depth < self.depth,
                levels == self.depth - node.depth,
                cell == pow2(levels as nat),
                cell <= 0x1000_0000_0000_0000,
                pow2(node.depth as nat) <= 0x1000_0000_0000_0000,
                pow2(self.depth as nat) <= 0x1000_0000_0000_0000,
                span == pow2((levels + 1) as nat),
                span == 2 * cell,
                margin == detail * cell,
                margin <= 0xffff_ffff * 0x1000_0000_0000_0000,
                (detail + 2) * cell == detail * cell + 2 * cell,
                forall|j: int| 0 <= j < i ==> self@.near_on_axis(node@, detail as nat, j),
            decreases N - i,
        {
            let corner = node.axis(i) as u128;
            assert(corner * span <= 0x1000_0000_0000_0000 * 0x2000_0000_0000_0000)
                by (nonlinear_arith)
                requires
                    corner <= 0x1000_0000_0000_0000,
                    span <= 0x2000_0000_0000_0000,
            ;
            let base = corner * span;
            let low = base.saturating_sub(margin);
            let high = base + margin + span;
            let here = 2 * (self.axis(i) as u128);
            if !(low <= here && here < high) {
                assert(!self@.near_on_axis(node@, detail as nat, i as int));
                return false;
            }
            assert(self@.near_on_axis(node@, detail as nat, i as int));
            i += 1;
        }
        true
    }
}

/// The position of a child along one axis is below `2^(depth + 1)`, which `DT` and a
/// `usize` can hold when the depth is below their widths.
proof fn lemma_child_fits<DT: ReasonableIntegerLike>(x: nat, depth: nat, bit: nat)
    requires
        x < pow2(depth),
        bit <= 1,
        depth < DT::spec_bits(),
        depth < usize::BITS,
    ensures
        2 * x + bit < pow2(depth + 1),
        2 * x + bit < pow2(DT::spec_bits()),
        2 * x + bit <= usize::MAX,
{
    lemma_pow2_unfold(depth + 1);
    lemma_pow2_monotonic(depth + 1, DT::spec_bits());
    lemma_pow2_monotonic(depth + 1, usize::BITS as nat);
    vstd::layout::unsigned_int_max_values();
}

/// A position in a tree with eight children per node.
pub type OctVec<DT = u8> = CoordVec<3, DT>;

/// A position in a tree with four children per node.
pub type QuadVec<DT = u8> = CoordVec<2, DT>;

impl<DT> OctVec<DT> where DT: ReasonableIntegerLike {
    /// Makes a coordinate from its three components and the depth they are counted at.
    pub fn build(x: DT, y: DT, z: DT, depth: u8) -> (r: Self)
        requires
            depth <= MAX_DEPTH,
            x.spec_value() < pow2(depth as nat),
            y.spec_value() < pow2(depth as nat),
            z.spec_value() < pow2(depth as nat),
            x.spec_value() <= usize::MAX,
            y.spec_value() <= usize::MAX,
            z.spec_value() <= usize::MAX,
        ensures
            r.pos[0] == x,
            r.pos[1] == y,
            r.pos[2] == z,
            r.depth == depth,
            r.wf(),
    {
        Self::new([x, y, z], depth)
    }
}

impl<DT> QuadVec<DT> where DT: ReasonableIntegerLike {
    /// Makes a coordinate from its two components and the depth they are counted at.
    pub fn build(x: DT, y: DT, depth: u8) -> (r: Self)
        requires
            depth <= MAX_DEPTH,
            x.spec_value() < pow2(depth as nat),
            y.spec_value() < pow2(depth as nat),
            x.spec_value() <= usize::MAX,
            y.spec_value() <= usize::MAX,
        ensures
            r.pos[0] == x,
            r.pos[1] == y,
            r.depth == depth,
            r.wf(),
    {
        Self::new([x, y], depth)
    }
}

impl<const N: usize, DT> Default for CoordVec<N, DT> where DT: ReasonableIntegerLike {
    /// The root.
    fn default() -> (r: Self)
        ensures
            r.wf(),
            r@ == Coord::root(N as nat),
    {
        Self::root()
    }
}

/// Every prefix of a box holds at least one cell and no more cells than the box.
proof fn lemma_box_cells_prefix(low: Seq<nat>, high: Seq<nat>, i: int)
    requires
        low.len() == high.len(),
        0 <= i <= low.len(),
        forall|j: int| 0 <= j < low.len() ==> low[j] <= high[j],
    ensures
        1 <= box_cells(low.take(i), high.take(i)) <= box_cells(low, high),
    decreases low.len(),
{
    if i == low.len() {
        assert(low.take(i) =~= low);
        assert(high.take(i) =~= high);
        if low.len() > 0 {
            lemma_box_cells_prefix(low.drop_last(), high.drop_last(), i - 1);
            assert(low.drop_last().take(i - 1) =~= low.drop_last());
            assert(high.drop_last().take(i - 1) =~= high.drop_last());
            let rest = box_cells(low.drop_last(), high.drop_last());
            let side = high[low.len() - 1] - low.last() + 1;
            assert(rest * side >= 1) by (nonlinear_arith)
                requires
                    rest >= 1,
                    side >= 1,
            ;
        }
    } else {
        lemma_box_cells_prefix(low.drop_last(), high.drop_last(), i);
        lemma_box_cells_prefix(low.drop_last(), high.drop_last(), low.len() - 1);
        assert(low.drop_last().take(i) =~= low.take(i));
        assert(high.drop_last().take(i) =~= high.take(i));
        assert(low.drop_last().take(low.len() - 1) =~= low.drop_last());
        assert(high.drop_last().take(low.len() - 1) =~= high.drop_last());
        let rest = box_cells(low.drop_last(), high.drop_last());
        let side = high[low.len() - 1] - low.last() + 1;
        assert(rest * side >= rest) by (nonlinear_arith)
            requires
                rest >= 1,
                side >= 1,
        ;
    }
}

/// The number of cells in the box whose lowest corner is `a` and whose highest corner is
/// `b`, both at one depth.
pub fn get_chunk_count_at_max_depth<const N: usize>(a: CoordVec<N>, b: CoordVec<N>) -> (r: usize)
    requires
        a.depth == b.depth,
        forall|i: int| 0 <= i < N ==> a.pos[i] <= b.pos[i],
        box_cells(a@.pos, b@.pos) <= usize::MAX,
    ensures
        r == box_cells(a@.pos, b@.pos),
{
    let mut count: usize = 1;
    let mut i: usize = 0;
    assert(a@.pos.take(0) =~= Seq::<nat>::empty());
    assert(b@.pos.take(0) =~= Seq::<nat>::empty());
    while i < N
        invariant
            i <= N,
            forall|j: int| 0 <= j < N ==> a.pos[j] <= b.pos[j],
            box_cells(a@.pos, b@.pos) <= usize::MAX,
            count == box_cells(a@.pos.take(i as int), b@.pos.take(i as int)),
        decreases N - i,
    {
        let side = (b.pos[i] - a.pos[i]) as usize + 1;
        proof {
            let low = a@.pos.take(i + 1);
            let high = b@.pos.take(i + 1);
            assert(low.drop_last() =~= a@.pos.take(i as int));
            assert(high.drop_last() =~= b@.pos.take(i as int));
            assert(low.last() == a.pos[i as int] as nat);
            assert(high[low.len() - 1] == b.pos[i as int] as nat);
            assert(box_cells(low, high) == count * side);
            lemma_box_cells_prefix(a@.pos, b@.pos, i + 1);
        }
        count = count * side;
        i += 1;
    }
    assert(a@.pos.take(N as int) =~= a@.pos);
    assert(b@.pos.take(N as int) =~= b@.pos);
    count
}

} // verus!
