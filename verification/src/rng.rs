use vstd::prelude::*;

verus! {

/// Relies on rand::random_range over the inclusive range `lo..=hi`: the
/// draw lies within the bounds. Nothing more is assumed of it; which value
/// comes back is chance.
#[verifier::external_body]
pub(crate) fn random_in_range(lo: usize, hi: usize) -> (r: usize)
    requires
        lo <= hi,
    ensures
        lo <= r <= hi,
{
    rand::random_range(lo..=hi)
}

} // verus!
