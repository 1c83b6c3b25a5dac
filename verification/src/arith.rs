//! Small integer helpers: rounded-up division, alignment, minimum.

use vstd::prelude::*;
use vstd::arithmetic::div_mod::{lemma_fundamental_div_mod, lemma_mod_multiples_basic};

verus! {

/// The quotient `value / divisor`, rounded up.
pub open spec fn ceil_div_spec(value: int, divisor: int) -> int {
    value / divisor + if value % divisor == 0 { 0int } else { 1int }
}

/// `value` rounded up to a multiple of `alignment`.
pub open spec fn align_up_spec(value: int, alignment: int) -> int {
    ceil_div_spec(value, alignment) * alignment
}

/// The smaller of two integers.
pub open spec fn min_spec(a: int, b: int) -> int {
    if a <= b { a } else { b }
}

/// The rounded-up quotient is the least integer whose product with the divisor reaches `value`.
pub proof fn lemma_ceil_div(value: int, divisor: int)
    requires
        0 <= value,
        0 < divisor,
    ensures
        0 <= ceil_div_spec(value, divisor) <= value,
        value <= ceil_div_spec(value, divisor) * divisor < value + divisor,
{
    let q = value / divisor;
    let r = value % divisor;
    lemma_fundamental_div_mod(value, divisor);
    assert(q * divisor == divisor * q) by (nonlinear_arith);
    assert((q + 1) * divisor == q * divisor + divisor) by (nonlinear_arith);
    assert(0 <= q <= value) by (nonlinear_arith)
        requires
            value == divisor * q + r,
            0 <= r < divisor,
            0 <= value,
            0 < divisor,
    ;
    if r != 0 {
        assert(q + 1 <= value) by (nonlinear_arith)
            requires
                value == divisor * q + r,
                0 < r,
                0 <= q,
                0 < divisor,
        ;
    }
}

/// `value / divisor`, rounded up.
pub fn ceil_div(value: usize, divisor: usize) -> (quotient: usize)
    requires
        divisor != 0,
    ensures
        quotient == ceil_div_spec(value as int, divisor as int),
{
    proof {
        lemma_ceil_div(value as int, divisor as int);
    }
    let quotient: usize = value / divisor;
    if value % divisor == 0 {
        quotient
    } else {
        quotient + 1
    }
}

/// The smaller of two sizes.
pub fn min_usize(a: usize, b: usize) -> (m: usize)
    ensures
        m == min_spec(a as int, b as int),
{
    if a <= b {
        a
    } else {
        b
    }
}

/// Rounds `value` up to the next multiple of `alignment`.
pub fn align_up(value: usize, alignment: usize) -> (aligned: usize)
    requires
        alignment != 0,
        align_up_spec(value as int, alignment as int) <= usize::MAX,
    ensures
        aligned == align_up_spec(value as int, alignment as int),
{
    proof {
        lemma_ceil_div(value as int, alignment as int);
    }
    ceil_div(value, alignment) * alignment
}

/// Aligning gives the least multiple of the alignment that is not below the value.
pub proof fn law_align_up_is_least_multiple(value: int, alignment: int, other: int)
    requires
        0 <= value,
        0 < alignment,
    ensures
        align_up_spec(value, alignment) % alignment == 0,
        value <= align_up_spec(value, alignment) < value + alignment,
        value <= other && other % alignment == 0 ==> align_up_spec(value, alignment) <= other,
{
    lemma_ceil_div(value, alignment);
    lemma_mod_multiples_basic(ceil_div_spec(value, alignment), alignment);
    if value <= other && other % alignment == 0 {
        let q = other / alignment;
        let c = ceil_div_spec(value, alignment);
        lemma_fundamental_div_mod(other, alignment);
        if c > q {
            assert(c * alignment >= (q + 1) * alignment) by (nonlinear_arith)
                requires
                    c >= q + 1,
                    0 < alignment,
            ;
            assert((q + 1) * alignment == alignment * q + alignment) by (nonlinear_arith);
        } else {
            assert(c * alignment <= alignment * q) by (nonlinear_arith)
                requires
                    c <= q,
                    0 < alignment,
            ;
        }
    }
}

/// Aligning a second time changes nothing.
pub proof fn law_align_up_is_idempotent(value: int, alignment: int)
    requires
        0 <= value,
        0 < alignment,
    ensures
        align_up_spec(align_up_spec(value, alignment), alignment) == align_up_spec(
            value,
            alignment,
        ),
{
    let once = align_up_spec(value, alignment);
    law_align_up_is_least_multiple(value, alignment, 0);
    law_align_up_is_least_multiple(once, alignment, once);
}

} // verus!
