//! Powers of two: the arithmetic that scaling a position between depths rests on.

use vstd::arithmetic::div_mod::{
    lemma_div_denominator, lemma_div_is_ordered, lemma_fundamental_div_mod,
    lemma_fundamental_div_mod_converse, lemma_multiply_divide_lt,
};
use vstd::arithmetic::mul::lemma_mul_is_commutative;
use vstd::arithmetic::power2::{
    lemma2_to64_rest, lemma_pow2_adds, lemma_pow2_pos, lemma_pow2_strictly_increases,
    lemma_pow2_unfold, pow2,
};
use vstd::bits::lemma_u64_shl_is_mul;
use vstd::prelude::*;

verus! {

/// Powers of two grow with the exponent.
pub proof fn lemma_pow2_monotonic(a: nat, b: nat)
    requires
        a <= b,
    ensures
        0 < pow2(a) <= pow2(b),
{
    lemma_pow2_pos(a);
    if a < b {
        lemma_pow2_strictly_increases(a, b);
    }
}

/// Dividing by two powers of two in turn divides by the power of the summed exponents.
pub proof fn lemma_div_pow2_twice(x: nat, a: nat, b: nat)
    ensures
        (x / pow2(a)) / pow2(b) == x / pow2(a + b),
{
    lemma_pow2_pos(a);
    lemma_pow2_pos(b);
    lemma_pow2_adds(a, b);
    lemma_div_denominator(x as int, pow2(a) as int, pow2(b) as int);
}

/// Dividing by a power of two keeps the order.
pub proof fn lemma_div_pow2_ordered(x: nat, y: nat, e: nat)
    requires
        x <= y,
    ensures
        x / pow2(e) <= y / pow2(e),
{
    lemma_pow2_pos(e);
    lemma_div_is_ordered(x as int, y as int, pow2(e) as int);
}

/// A number below `2^(a + b)`, divided by `2^b`, is below `2^a`.
pub proof fn lemma_div_pow2_bound(x: nat, a: nat, b: nat)
    requires
        x < pow2(a + b),
    ensures
        x / pow2(b) < pow2(a),
{
    lemma_pow2_pos(b);
    lemma_pow2_adds(b, a);
    assert(b + a == a + b);
    lemma_multiply_divide_lt(x as int, pow2(b) as int, pow2(a) as int);
}

/// `q * d + r` divided by `d` is `q`, for `r` below `d`.
pub proof fn lemma_div_of_sum(q: nat, r: nat, d: nat)
    requires
        r < d,
    ensures
        (q * d + r) / d == q,
        (q * d + r) % d == r,
{
    lemma_fundamental_div_mod_converse((q * d + r) as int, d as int, q as int, r as int);
}

/// Any number is its quotient by `d` times `d`, plus a remainder below `d`.
pub proof fn lemma_split(x: nat, d: nat)
    requires
        0 < d,
    ensures
        x == (x / d) * d + x % d,
        x % d < d,
{
    lemma_fundamental_div_mod(x as int, d as int);
    lemma_mul_is_commutative(d as int, (x / d) as int);
}

/// Where `c / 2^levels` is `x`, what is left of `c` above `x * 2^levels` is below
/// `2^levels`, and its quotient by `2^(levels - 1)` is the lowest bit of `c / 2^(levels - 1)`.
pub proof fn lemma_half(c: nat, x: nat, levels: nat)
    requires
        levels >= 1,
        c / pow2(levels) == x,
    ensures
        x * pow2(levels) <= c,
        c - x * pow2(levels) < pow2(levels),
        0 <= (c - x * pow2(levels)) / (pow2((levels - 1) as nat) as int) <= 1,
        (c - x * pow2(levels)) / (pow2((levels - 1) as nat) as int) == c / pow2(
            (levels - 1) as nat,
        ) - 2 * x,
{
    let p = pow2(levels);
    let h = pow2((levels - 1) as nat);
    lemma_pow2_pos(levels);
    lemma_pow2_pos((levels - 1) as nat);
    lemma_pow2_unfold(levels);
    lemma_split(c, p);
    let off = (c - x * p) as nat;
    lemma_multiply_divide_lt(off as int, h as int, 2);
    lemma_split(off, h);
    let q = off / h;
    let r = off % h;
    assert(c == (2 * x + q) * h + r) by (nonlinear_arith)
        requires
            c == x * p + off,
            p == 2 * h,
            off == q * h + r,
    ;
    lemma_fundamental_div_mod_converse(c as int, h as int, (2 * x + q) as int, r as int);
}

/// `2^e` as a machine integer.
pub fn pow2_u64(e: u8) -> (r: u64)
    requires
        e < 64,
    ensures
        r == pow2(e as nat),
        r > 0,
{
    proof {
        lemma_pow2_pos(e as nat);
        lemma_pow2_monotonic(e as nat, 63);
        lemma2_to64_rest();
        lemma_u64_shl_is_mul(1, e as u64);
    }
    1u64 << (e as u64)
}

} // verus!
