//! Small shared helpers.
use vstd::prelude::*;

verus! {

/// Ceiling division: the least `q` with `q * denominator >= numerator`.
#[inline(always)]
pub fn div_roundup(numerator: usize, denominator: usize) -> (r: usize)
    requires
        denominator >= 1,
        numerator + denominator <= usize::MAX,
    ensures
        r == (numerator + denominator - 1) as int / denominator as int,
        r * denominator >= numerator,
        numerator > 0 ==> (r - 1) * denominator < numerator,
{
    let r = (numerator + denominator - 1) / denominator;
    proof {
        let n = numerator as int;
        let d = denominator as int;
        assert((n + d - 1) / d * d >= n && (n > 0 ==> ((n + d - 1) / d - 1) * d < n))
            by (nonlinear_arith)
            requires
                d >= 1,
                n >= 0,
        ;
    }
    r
}

} // verus!
