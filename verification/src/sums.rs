//! Sums over a range of integers.

use vstd::prelude::*;

verus! {

/// The sum of `f(0)`, `f(1)` and so on, up to but not including `f(n)`.
pub open spec fn total(f: spec_fn(int) -> int, n: int) -> int
    decreases n,
{
    if n <= 0 {
        0
    } else {
        total(f, n - 1) + f(n - 1)
    }
}

/// Sums of the same numbers are the same.
pub proof fn lemma_total_equal(f: spec_fn(int) -> int, g: spec_fn(int) -> int, n: int)
    requires
        forall|i: int| 0 <= i < n ==> #[trigger] f(i) == g(i),
    ensures
        total(f, n) == total(g, n),
    decreases n,
{
    if n > 0 {
        lemma_total_equal(f, g, n - 1);
        assert(f(n - 1) == g(n - 1));
    }
}

} // verus!
