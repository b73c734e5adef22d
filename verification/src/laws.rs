//! What holds between the tree relations on coordinates.

use crate::model::{bit_of, bits_value, min3, Coord};
use crate::power::{
    lemma_div_of_sum, lemma_div_pow2_bound, lemma_div_pow2_ordered, lemma_div_pow2_twice, lemma_half,
};
use vstd::arithmetic::div_mod::{lemma_mod_breakdown, lemma_small_mod};
use vstd::arithmetic::div_mod::lemma_hoist_over_denominator;
use vstd::arithmetic::power2::{
    lemma2_to64, lemma_pow2_adds, lemma_pow2_pos, lemma_pow2_unfold, pow2,
};
use vstd::prelude::*;

verus! {

/// The lowest `n` bits of a number, put together again, give the number modulo `2^n`.
pub proof fn lemma_bits_of_index(index: nat, n: nat)
    ensures
        bits_value(Seq::new(n, |i: int| bit_of(index, i as nat))) == index % pow2(n),
    decreases n,
{
    let bits = Seq::new(n, |i: int| bit_of(index, i as nat));
    if n == 0 {
        lemma2_to64();
    } else {
        let fewer = Seq::new((n - 1) as nat, |i: int| bit_of(index, i as nat));
        assert(bits.drop_last() =~= fewer);
        lemma_bits_of_index(index, (n - 1) as nat);
        lemma_pow2_pos((n - 1) as nat);
        lemma_pow2_unfold(n);
        lemma_mod_breakdown(index as int, pow2((n - 1) as nat) as int, 2);
        assert(bits.last() == bit_of(index, (n - 1) as nat));
        assert(bits.last() * pow2((n - 1) as nat) == pow2((n - 1) as nat) * bits.last())
            by (nonlinear_arith);
        assert(pow2((n - 1) as nat) * 2 == pow2(n));
    }
}

/// A node contains itself.
pub proof fn lemma_contains_self(c: Coord)
    ensures
        c.contains(c),
{
    lemma2_to64();
    assert forall|i: int| 0 <= i < c.pos.len() implies c.scaled_axis(c.depth, i) == c.pos[i] by {
        assert((c.depth - c.depth) as nat == 0);
        assert(c.pos[i] / 1 == c.pos[i]);
    }
}

/// A node that contains another contains each of the other's children.
pub proof fn lemma_contains_child(c: Coord, d: Coord, index: nat)
    requires
        c.contains(d),
    ensures
        c.contains(d.child(index)),
{
    let e = d.child(index);
    let levels = (d.depth - c.depth) as nat;
    assert forall|i: int| 0 <= i < c.pos.len() implies e.scaled_axis(c.depth, i) == c.pos[i] by {
        assert(d.scaled_axis(c.depth, i) == c.pos[i]);
        lemma2_to64();
        lemma_div_pow2_twice(e.pos[i], 1, levels);
        assert(e.pos[i] / 2 == d.pos[i]);
    }
}

/// Containment carries over from a node to what the contained node contains.
pub proof fn lemma_contains_transitive(a: Coord, b: Coord, c: Coord)
    requires
        a.contains(b),
        b.contains(c),
    ensures
        a.contains(c),
{
    assert forall|i: int| 0 <= i < a.pos.len() implies c.scaled_axis(a.depth, i) == a.pos[i] by {
        assert(c.scaled_axis(b.depth, i) == b.pos[i]);
        assert(b.scaled_axis(a.depth, i) == a.pos[i]);
        lemma_div_pow2_twice(c.pos[i], (c.depth - b.depth) as nat, (b.depth - a.depth) as nat);
    }
}

/// A node contains its children.
pub proof fn lemma_contains_own_child(c: Coord, index: nat)
    ensures
        c.contains(c.child(index)),
{
    lemma_contains_self(c);
    lemma_contains_child(c, c, index);
}

/// The index recovered from any node at or below the child picked by `index` is `index`.
pub proof fn lemma_child_index_recovered(c: Coord, index: nat, d: Coord)
    requires
        index < pow2(c.pos.len()),
        c.child(index).contains(d),
    ensures
        c.child_index(d) == index,
{
    let n = c.pos.len();
    let levels = (d.depth - c.depth) as nat;
    let sides = Seq::new(n, |i: int| c.half_toward(d, i));
    let bits = Seq::new(n, |i: int| bit_of(index, i as nat));
    assert forall|i: int| 0 <= i < n implies sides[i] == bits[i] by {
        let below = d.pos[i] / pow2((levels - 1) as nat);
        assert(d.scaled_axis(c.depth + 1, i) == c.child(index).pos[i]);
        assert(below == 2 * c.pos[i] + bit_of(index, i as nat));
        lemma2_to64();
        lemma_div_pow2_twice(d.pos[i], (levels - 1) as nat, 1);
        assert(below / 2 == c.pos[i]);
        lemma_half(d.pos[i], c.pos[i], levels);
    }
    assert(sides =~= bits);
    lemma_bits_of_index(index, n);
    lemma_small_mod(index, pow2(n));
}

/// The index recovered from the child picked by `index` is `index`.
pub proof fn lemma_child_index_inverse(c: Coord, index: nat)
    requires
        index < pow2(c.pos.len()),
    ensures
        c.child_index(c.child(index)) == index,
{
    lemma_contains_self(c.child(index));
    lemma_child_index_recovered(c, index, c.child(index));
}

/// A node inside a box stays inside when the two corners of the box are taken at a
/// shallower depth.
pub proof fn lemma_bounds_coarser(c: Coord, min: Coord, max: Coord, max_depth: nat, level: nat)
    requires
        level <= min.depth,
        level <= max.depth,
        c.pos.len() == min.pos.len(),
        c.pos.len() == max.pos.len(),
        c.inside_bounds(min, max, max_depth),
    ensures
        c.inside_bounds(min.scaled_to(level), max.scaled_to(level), max_depth),
{
    let fine = min3(c.depth, min.depth, max.depth);
    let coarse = min3(c.depth, level, level);
    let low = min.scaled_to(level);
    let high = max.scaled_to(level);
    assert forall|i: int| 0 <= i < c.pos.len() implies c.within_on_axis(low, high, i) by {
        assert(c.within_on_axis(min, max, i));
        let step = (fine - coarse) as nat;
        lemma_div_pow2_twice(min.pos[i], (min.depth - level) as nat, (level - coarse) as nat);
        lemma_div_pow2_twice(max.pos[i], (max.depth - level) as nat, (level - coarse) as nat);
        lemma_div_pow2_twice(min.pos[i], (min.depth - fine) as nat, step);
        lemma_div_pow2_twice(max.pos[i], (max.depth - fine) as nat, step);
        lemma_div_pow2_twice(c.pos[i], (c.depth - fine) as nat, step);
        lemma_div_pow2_ordered(min.scaled_axis(fine, i), c.scaled_axis(fine, i), step);
        lemma_div_pow2_ordered(c.scaled_axis(fine, i), max.scaled_axis(fine, i), step);
    }
}

/// A number put together from bits is below `2^n` for `n` bits, and has those bits.
pub proof fn lemma_bits_value_bits(bits: Seq<nat>, i: int)
    requires
        forall|j: int| 0 <= j < bits.len() ==> bits[j] <= 1,
        0 <= i < bits.len(),
    ensures
        bits_value(bits) < pow2(bits.len()),
        bit_of(bits_value(bits), i as nat) == bits[i],
    decreases bits.len(),
{
    let n = bits.len();
    let rest = bits.drop_last();
    let top = pow2((n - 1) as nat);
    let low = bits_value(rest);
    let b = bits.last();
    lemma_pow2_pos((n - 1) as nat);
    lemma_pow2_unfold(n);
    lemma_pow2_pos(0);
    if n > 1 {
        lemma_bits_value_bits(rest, 0);
    } else {
        assert(low == 0);
        lemma2_to64();
    }
    assert(low < top);
    assert(b * top <= top) by (nonlinear_arith)
        requires
            b <= 1,
    ;
    if i == n - 1 {
        lemma_div_of_sum(b, low, top);
    } else {
        lemma_bits_value_bits(rest, i);
        let gap = (n - 1 - i) as nat;
        let unit = pow2(i as nat);
        lemma_pow2_pos(i as nat);
        lemma_pow2_adds(gap, i as nat);
        lemma_pow2_unfold(gap);
        let t = b * pow2(gap);
        assert(b * top == t * unit) by (nonlinear_arith)
            requires
                top == pow2(gap) * unit,
                t == b * pow2(gap),
        ;
        lemma_hoist_over_denominator(low as int, t as int, unit);
        assert(t == 2 * (b * pow2((gap - 1) as nat))) by (nonlinear_arith)
            requires
                t == b * pow2(gap),
                pow2(gap) == 2 * pow2((gap - 1) as nat),
        ;
    }
}

/// The node that covers a node is that node scaled to the depth of the first.
pub proof fn lemma_contains_scaled(a: Coord, c: Coord)
    requires
        a.contains(c),
    ensures
        c.scaled_to(a.depth) == a,
{
    assert(c.scaled_to(a.depth).pos =~= a.pos);
}

/// A node scaled to a shallower depth covers the node.
pub proof fn lemma_scaled_contains(c: Coord, depth: nat)
    requires
        depth <= c.depth,
    ensures
        c.scaled_to(depth).contains(c),
{
}

/// A well-formed node scaled to a shallower depth is well formed.
pub proof fn lemma_scaled_wf(c: Coord, depth: nat)
    requires
        c.wf(),
        depth <= c.depth,
    ensures
        c.scaled_to(depth).wf(),
{
    assert forall|i: int| 0 <= i < c.pos.len() implies c.scaled_to(depth).pos[i] < pow2(depth) by {
        assert(depth + (c.depth - depth) as nat == c.depth);
        lemma_div_pow2_bound(c.pos[i], depth, (c.depth - depth) as nat);
    }
}

/// Scaling in two steps is scaling in one.
pub proof fn lemma_scaled_twice(c: Coord, first: nat, second: nat)
    requires
        second <= first <= c.depth,
    ensures
        c.scaled_to(first).scaled_to(second) == c.scaled_to(second),
{
    assert forall|i: int| 0 <= i < c.pos.len() implies c.scaled_to(first).scaled_to(second).pos[i]
        == c.scaled_to(second).pos[i] by {
        lemma_div_pow2_twice(c.pos[i], (c.depth - first) as nat, (first - second) as nat);
    }
    assert(c.scaled_to(first).scaled_to(second).pos =~= c.scaled_to(second).pos);
}

/// Of two nodes that cover one node, the shallower covers the deeper.
pub proof fn lemma_ancestors_comparable(a: Coord, b: Coord, x: Coord)
    requires
        a.contains(x),
        b.contains(x),
        a.depth <= b.depth,
    ensures
        a.contains(b),
{
    lemma_contains_scaled(a, x);
    lemma_contains_scaled(b, x);
    lemma_scaled_twice(x, b.depth, a.depth);
    lemma_scaled_contains(b, a.depth);
}

/// Two nodes of one depth, one of which covers the other, are the same node.
pub proof fn lemma_contains_same_depth(a: Coord, b: Coord)
    requires
        a.contains(b),
        a.depth == b.depth,
    ensures
        a == b,
{
    lemma2_to64();
    assert forall|i: int| 0 <= i < a.pos.len() implies a.pos[i] == b.pos[i] by {
        assert(b.scaled_axis(a.depth, i) == a.pos[i]);
        assert((b.depth - a.depth) as nat == 0);
        assert(pow2(0) == 1);
        assert(b.pos[i] / 1 == b.pos[i]);
    }
    assert(a.pos =~= b.pos);
}

/// A deeper node that a node covers lies under the child that `child_index` names, and
/// that index is below `2^n` on `n` axes.
pub proof fn lemma_child_toward(c: Coord, d: Coord)
    requires
        c.contains(d),
        c.depth < d.depth,
    ensures
        c.child_index(d) < pow2(c.pos.len()),
        c.child(c.child_index(d)).contains(d),
{
    let n = c.pos.len();
    let levels = (d.depth - c.depth) as nat;
    let sides = Seq::new(n, |i: int| c.half_toward(d, i));
    let index = c.child_index(d);
    assert forall|i: int| 0 <= i < n implies sides[i] <= 1 && sides[i] == d.pos[i] / pow2(
        (levels - 1) as nat,
    ) - 2 * c.pos[i] by {
        assert(d.scaled_axis(c.depth, i) == c.pos[i]);
        lemma_half(d.pos[i], c.pos[i], levels);
        assert(sides[i] == c.half_toward(d, i));
        let above = d.pos[i] - c.pos[i] * pow2(levels);
        assert(c.half_toward(d, i) == (above / (pow2((levels - 1) as nat) as int)) as nat);
    }
    if n == 0 {
        lemma2_to64();
    } else {
        lemma_bits_value_bits(sides, 0);
    }
    let child = c.child(index);
    assert forall|i: int| 0 <= i < n implies d.scaled_axis(child.depth, i) == child.pos[i] by {
        lemma_bits_value_bits(sides, i);
        assert((d.depth - child.depth) as nat == (levels - 1) as nat);
    }
}

/// A node that covers a node inside a box is inside the box.
pub proof fn lemma_inside_ancestor(a: Coord, c: Coord, min: Coord, max: Coord, max_depth: nat)
    requires
        a.contains(c),
        c.inside_bounds(min, max, max_depth),
    ensures
        a.inside_bounds(min, max, max_depth),
{
    let fine = min3(c.depth, min.depth, max.depth);
    let coarse = min3(a.depth, min.depth, max.depth);
    let step = (fine - coarse) as nat;
    assert forall|i: int| 0 <= i < a.pos.len() implies a.within_on_axis(min, max, i) by {
        assert(c.within_on_axis(min, max, i));
        assert(c.scaled_axis(a.depth, i) == a.pos[i]);
        lemma_div_pow2_twice(c.pos[i], (c.depth - a.depth) as nat, (a.depth - coarse) as nat);
        lemma_div_pow2_twice(c.pos[i], (c.depth - fine) as nat, step);
        lemma_div_pow2_twice(min.pos[i], (min.depth - fine) as nat, step);
        lemma_div_pow2_twice(max.pos[i], (max.depth - fine) as nat, step);
        lemma_div_pow2_ordered(min.scaled_axis(fine, i), c.scaled_axis(fine, i), step);
        lemma_div_pow2_ordered(c.scaled_axis(fine, i), max.scaled_axis(fine, i), step);
    }
}

} // verus!
