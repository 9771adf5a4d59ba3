//! The randomness boundary: a single trusted wrapper around `rand`, and the
//! candidate sampler built on it. Everything downstream treats the sampled
//! value as an arbitrary member of the stated range.

use vstd::prelude::*;

verus! {

/// Relies on `rand::thread_rng` and `rand::Rng::gen_range`: a sample from the
/// half-open range `lo..hi`, uniform over it, which panics only when the range
/// is empty. Nothing is assumed about which value comes back beyond the range
/// bound, so callers must hold for every outcome.
#[verifier::external_body]
fn sample_range(lo: u64, hi: u64) -> (r: u64)
    requires
        lo < hi,
    ensures
        lo <= r < hi,
{
    rand::Rng::gen_range(&mut rand::thread_rng(), lo..hi)
}

/// Draw a candidate for the primitive-root search: a residue in `[2, p - 2]`,
/// excluding 0, 1 and `p - 1`, none of which can generate the full group.
pub fn generate_candidate(p: u64) -> (r: u64)
    requires
        p >= 4,
    ensures
        2 <= r <= p - 2,
{
    sample_range(2, p - 1)
}

/// Draw a Miller-Rabin witness for `n`: a base in `[2, n - 3]`.
pub(crate) fn sample_witness(n: u64) -> (r: u64)
    requires
        n >= 5,
    ensures
        2 <= r <= n - 3,
{
    sample_range(2, n - 2)
}

} // verus!
