//! Evenly spaced positions, laid out by the `iter_num_tools` crate.

use vstd::prelude::*;

verus! {

/// The `n`-th of `steps` evenly spaced whole-number positions from 0 up to,
/// not including, `end`: the distance between two positions is `end / steps`,
/// rounded down.
pub open spec fn even_space(end: usize, steps: usize, n: usize) -> int {
    n * (end as int / steps as int)
}

/// `iter_num_tools::lin_space` over the range from 0 up to, not including,
/// `end`, asked for its `n`-th item: the position `n` times the step, where
/// the step is `end / steps`, rounded down; `None` from the `steps`-th item
/// on. The crate divides by `steps`, so `requires` rules out zero.
#[verifier::external_body]
pub(crate) fn lin_space_nth(end: usize, steps: usize, n: usize) -> (r: Option<usize>)
    requires
        steps > 0,
    ensures
        r == (if n < steps {
            Some(even_space(end, steps, n) as usize)
        } else {
            None
        }),
{
    iter_num_tools::lin_space(0..end, steps).nth(n)
}

/// An evenly spaced position is no farther than the end.
pub proof fn lemma_even_space_bound(end: usize, steps: usize, n: usize)
    requires
        steps > 0,
        n < steps,
    ensures
        0 <= even_space(end, steps, n) <= end,
{
    let step = end as int / steps as int;
    assert(step * steps <= end) by (nonlinear_arith)
        requires
            step == end as int / steps as int,
            steps > 0,
    ;
    assert(0 <= n * step <= step * steps) by (nonlinear_arith)
        requires
            0 <= n < steps,
            step >= 0,
    ;
}

} // verus!
