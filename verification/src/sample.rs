//! Coordinates drawn at random from a box.

use crate::coords::CoordVec;
use crate::integer::ReasonableIntegerLike;
use rand::rngs::StdRng;
use rand::Rng;
use vstd::arithmetic::power2::pow2;
use vstd::prelude::*;

verus! {

/// `rand::rngs::StdRng`, the random source that coordinates are drawn from. Nothing is
/// known of what is inside it.
#[verifier::external_type_specification]
#[verifier::external_body]
pub struct ExStdRng(StdRng);

/// `rand::Rng::gen_range` on the half-open range from `low` to `high`, drawn from a
/// `StdRng`. The range must not be empty; what is claimed of the number drawn is only that
/// it lies in the range.
#[verifier::external_body]
fn gen_range_usize(rng: &mut StdRng, low: usize, high: usize) -> (r: usize)
    requires
        low < high,
    ensures
        low <= r < high,
{
    rng.gen_range(low..high)
}

/// A position whose components lie below those of a well-formed coordinate is that of a
/// well-formed coordinate of the same depth.
proof fn lemma_values_wf<const N: usize, T: ReasonableIntegerLike>(
    pos: [T; N],
    min: CoordVec<N, T>,
    max: CoordVec<N, T>,
)
    requires
        max.wf(),
        forall|j: int|
            0 <= j < N ==> min@.pos[j] <= (#[trigger] pos[j]).spec_value() && pos[j].spec_value()
                < max@.pos[j],
    ensures
        forall|j: int|
            0 <= j < N ==> {
                &&& (#[trigger] pos[j]).spec_value() < pow2(max.depth as nat)
                &&& pos[j].spec_value() <= usize::MAX
            },
{
    assert forall|j: int| 0 <= j < N implies {
        &&& (#[trigger] pos[j]).spec_value() < pow2(max.depth as nat)
        &&& pos[j].spec_value() <= usize::MAX
    } by {
        assert(pos[j].spec_value() < max@.pos[j]);
        assert(max@.pos[j] == max.pos[j].spec_value());
    }
}

/// A coordinate at the depth of `min` and `max`, each component drawn from the half-open
/// range between theirs.
pub fn rand_cv<const N: usize, T>(rng: &mut StdRng, min: CoordVec<N, T>, max: CoordVec<N, T>) -> (r:
    CoordVec<N, T>) where T: ReasonableIntegerLike
    requires
        min.wf(),
        max.wf(),
        min.depth == max.depth,
        forall|i: int| 0 <= i < N ==> (#[trigger] min@.pos[i]) < max@.pos[i],
    ensures
        r.wf(),
        r.depth == min.depth,
        forall|i: int|
            0 <= i < N ==> min@.pos[i] <= (#[trigger] r@.pos[i]) && r@.pos[i] < max@.pos[i],
{
    let mut pos = min.pos;
    let mut i: usize = 0;
    while i < N
        invariant
            i <= N,
            min.wf(),
            max.wf(),
            forall|j: int| 0 <= j < N ==> (#[trigger] min@.pos[j]) < max@.pos[j],
            forall|j: int|
                0 <= j < i ==> min@.pos[j] <= (#[trigger] pos[j]).spec_value()
                    && pos[j].spec_value() < max@.pos[j],
            forall|j: int| i <= j < N ==> pos[j] == min.pos[j],
        decreases N - i,
    {
        assert(min@.pos[i as int] < max@.pos[i as int]);
        let low = min.pos[i].tousize();
        let high = max.pos[i].tousize();
        let drawn = gen_range_usize(rng, low, high);
        proof {
            max.pos[i as int].lemma_value_bound();
        }
        let v = T::fromusize(drawn);
        pos[i] = v;
        i += 1;
    }
    proof {
        lemma_values_wf(pos, min, max);
    }
    let r = CoordVec::new(pos, min.depth);
    assert forall|j: int| 0 <= j < N implies min@.pos[j] <= (#[trigger] r@.pos[j]) && r@.pos[j]
        < max@.pos[j] by {
        assert(min@.pos[j] <= pos[j].spec_value() && pos[j].spec_value() < max@.pos[j]);
    }
    r
}

} // verus!
