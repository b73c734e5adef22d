//! Adding two positions of one depth, axis by axis.

use crate::coords::CoordVec;
use crate::integer::ReasonableIntegerLike;
use core::ops::Add;
use vstd::prelude::*;
use vstd::std_specs::ops::AddSpecImpl;

verus! {

impl<const N: usize, DT> Add for CoordVec<N, DT> where DT: ReasonableIntegerLike {
    type Output = Self;

    /// The coordinate of the same depth whose position is the sum of the two positions.
    fn add(self, rhs: Self) -> (r: Self) {
        let mut pos = self.pos;
        let mut i: usize = 0;
        while i < N
            invariant
                i <= N,
                self.sum_fits(rhs),
                forall|j: int|
                    0 <= j < i ==> (#[trigger] pos[j]).spec_value() == self@.pos[j] + rhs@.pos[j],
            decreases N - i,
        {
            assert(self@.pos[i as int] + rhs@.pos[i as int] <= usize::MAX);
            let a = self.pos[i].tousize();
            let b = rhs.pos[i].tousize();
            let sum = DT::fromusize(a + b);
            pos[i] = sum;
            i += 1;
        }
        let r = Self { pos, depth: self.depth };
        proof {
            assert(r@.pos =~= self@.plus(rhs@).pos);
            r.lemma_view_injective(self.sum(rhs));
        }
        r
    }
}

impl<const N: usize, DT> AddSpecImpl for CoordVec<N, DT> where DT: ReasonableIntegerLike {
    open spec fn obeys_add_spec() -> bool {
        true
    }

    open spec fn add_req(self, rhs: Self) -> bool {
        self.sum_fits(rhs)
    }

    open spec fn add_spec(self, rhs: Self) -> Self {
        self.sum(rhs)
    }
}

} // verus!
