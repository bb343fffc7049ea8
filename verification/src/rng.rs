//! Trusted draws from the process-wide random number generator.

use rand::Rng;
use vstd::prelude::*;

verus! {

/// Relies on rand::Rng::gen_range over `0..n`: the drawn value lies
/// below `n`. The range is non-empty, so the call does not panic.
#[verifier::external_body]
pub(crate) fn rand_below(n: usize) -> (r: usize)
    requires
        n > 0,
    ensures
        r < n,
{
    rand::thread_rng().gen_range(0..n)
}

/// Relies on rand::Rng::gen_range over `lo..=hi`: the drawn value lies
/// in the inclusive range. The range is non-empty, so the call does not
/// panic.
#[verifier::external_body]
pub(crate) fn rand_in_i64(lo: i64, hi: i64) -> (r: i64)
    requires
        lo <= hi,
    ensures
        lo <= r <= hi,
{
    rand::thread_rng().gen_range(lo..=hi)
}

} // verus!
