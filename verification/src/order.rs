//! The partial order on coordinates: by position, between nodes of one depth.

use crate::coords::CoordVec;
use crate::integer::ReasonableIntegerLike;
use std::cmp::Ordering;
use vstd::prelude::*;
use vstd::std_specs::cmp::PartialOrdSpecImpl;

verus! {

impl<const N: usize, DT> PartialOrd for CoordVec<N, DT> where DT: ReasonableIntegerLike {
    /// Two coordinates compare only at one depth, and then only where they are equal or
    /// one is below the other on every axis.
    fn partial_cmp(&self, other: &Self) -> (r: Option<Ordering>) {
        if self.depth != other.depth {
            return None;
        }
        if self.same_position(*other) {
            return Some(Ordering::Equal);
        }
        if self.below(*other) {
            Some(Ordering::Less)
        } else if other.below(*self) {
            Some(Ordering::Greater)
        } else {
            None
        }
    }
}

impl<const N: usize, DT> PartialOrdSpecImpl for CoordVec<N, DT> where DT: ReasonableIntegerLike {
    open spec fn obeys_partial_cmp_spec() -> bool {
        true
    }

    open spec fn partial_cmp_spec(&self, other: &Self) -> Option<Ordering> {
        if self.depth != other.depth {
            None
        } else if self.same_words(*other) {
            Some(Ordering::Equal)
        } else if self.words_below(*other) {
            Some(Ordering::Less)
        } else if other.words_below(*self) {
            Some(Ordering::Greater)
        } else {
            None
        }
    }
}

} // verus!
