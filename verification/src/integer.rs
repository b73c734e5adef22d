//! The unsigned integer types that a position can be made of.

use vstd::arithmetic::div_mod::lemma_small_mod;
use vstd::arithmetic::power2::{lemma2_to64, lemma2_to64_rest, pow2};
use vstd::prelude::*;

verus! {

/// An unsigned integer type that holds one axis of a position.
///
/// Arithmetic on positions is carried out on `usize`; the two conversions
/// truncate, as a cast between integer types does.
pub trait ReasonableIntegerLike:
    Default + Eq + Ord + Send + Sync + std::fmt::Debug + Copy + std::hash::Hash
{
    /// The number that a value stands for.
    spec fn spec_value(self) -> nat;

    /// The width of the type in bits.
    spec fn spec_bits() -> nat;

    /// A value is below two to the power of the type's width.
    proof fn lemma_value_bound(self)
        ensures
            self.spec_value() < pow2(Self::spec_bits()),
    ;

    /// Two values that stand for the same number are the same value.
    proof fn lemma_value_injective(self, other: Self)
        requires
            self.spec_value() == other.spec_value(),
        ensures
            self == other,
    ;

    /// The value that stands for the low bits of `value`.
    fn fromusize(value: usize) -> (r: Self)
        ensures
            r.spec_value() == (value as nat) % pow2(Self::spec_bits()),
            (value as nat) < pow2(Self::spec_bits()) ==> r.spec_value() == value as nat,
    ;

    /// The number that `self` stands for, cut to the width of `usize`.
    fn tousize(self) -> (r: usize)
        ensures
            r as nat == self.spec_value() % (usize::MAX as nat + 1),
            self.spec_value() <= usize::MAX as nat ==> r as nat == self.spec_value(),
    ;
}

impl ReasonableIntegerLike for u8 {
    open spec fn spec_value(self) -> nat {
        self as nat
    }

    open spec fn spec_bits() -> nat {
        8
    }

    proof fn lemma_value_bound(self) {
        lemma2_to64();
    }

    proof fn lemma_value_injective(self, other: Self) {
    }

    fn fromusize(value: usize) -> (r: Self) {
        let r = #[verifier::truncate] (value as u8);
        proof {
            lemma2_to64();
            assert(r as usize == value % 0x100) by (bit_vector)
                requires
                    r == value as u8,
            ;
        }
        r
    }

    fn tousize(self) -> (r: usize) {
        proof {
            lemma_small_mod(self as nat, usize::MAX as nat + 1);
        }
        self as usize
    }
}

impl ReasonableIntegerLike for u16 {
    open spec fn spec_value(self) -> nat {
        self as nat
    }

    open spec fn spec_bits() -> nat {
        16
    }

    proof fn lemma_value_bound(self) {
        lemma2_to64();
    }

    proof fn lemma_value_injective(self, other: Self) {
    }

    fn fromusize(value: usize) -> (r: Self) {
        let r = #[verifier::truncate] (value as u16);
        proof {
            lemma2_to64();
            assert(r as usize == value % 0x1_0000) by (bit_vector)
                requires
                    r == value as u16,
            ;
        }
        r
    }

    fn tousize(self) -> (r: usize) {
        proof {
            lemma_small_mod(self as nat, usize::MAX as nat + 1);
        }
        self as usize
    }
}

impl ReasonableIntegerLike for u32 {
    open spec fn spec_value(self) -> nat {
        self as nat
    }

    open spec fn spec_bits() -> nat {
        32
    }

    proof fn lemma_value_bound(self) {
        lemma2_to64();
    }

    proof fn lemma_value_injective(self, other: Self) {
    }

    fn fromusize(value: usize) -> (r: Self) {
        let wide = value as u64;
        let r = #[verifier::truncate] (wide as u32);
        proof {
            lemma2_to64();
            assert(r as u64 == wide % 0x1_0000_0000) by (bit_vector)
                requires
                    r == wide as u32,
            ;
        }
        r
    }

    fn tousize(self) -> (r: usize) {
        proof {
            lemma_small_mod(self as nat, usize::MAX as nat + 1);
        }
        self as usize
    }
}

impl ReasonableIntegerLike for u64 {
    open spec fn spec_value(self) -> nat {
        self as nat
    }

    open spec fn spec_bits() -> nat {
        64
    }

    proof fn lemma_value_bound(self) {
        lemma2_to64_rest();
    }

    proof fn lemma_value_injective(self, other: Self) {
    }

    fn fromusize(value: usize) -> (r: Self) {
        proof {
            lemma2_to64_rest();
            lemma_small_mod(value as nat, pow2(64));
        }
        value as u64
    }

    fn tousize(self) -> (r: usize) {
        let r = #[verifier::truncate] (self as usize);
        proof {
            if usize::BITS == 64 {
                lemma_small_mod(self as nat, usize::MAX as nat + 1);
            } else {
                let low = self as u32;
                assert(low as u64 == self % 0x1_0000_0000) by (bit_vector)
                    requires
                        low == self as u32,
                ;
            }
        }
        r
    }
}

} // verus!
