use vstd::prelude::*;

verus! {

/// Relies on rand::random_range, which samples the thread-local generator
/// uniformly over a range: for `0..n` it returns an integer in `[0, n)`. It
/// panics only on an empty range, which `requires` excludes. Nothing more is
/// assumed of the value: every result in range is handled by the callers.
#[verifier::external_body]
pub(crate) fn random_below(n: i32) -> (r: i32)
    requires
        1 <= n,
    ensures
        0 <= r < n,
{
    rand::random_range(0..n)
}

} // verus!
