//! Look-ahead freedom contract.
use vstd::prelude::*;

verus! {

/// Implemented by anything that declares which forward bar indices its
/// output at bar `t` must not depend on.  By default that is every index
/// after `t`, which the look-ahead harness pollutes before comparing.
pub trait LookaheadFree {
    /// Half-open range of forward indices the output at `t` must not read.
    fn forward_dependent_indices(&self, t: usize) -> (r: core::ops::Range<usize>)
        requires
            t < usize::MAX,
        default_ensures
            r.start == t + 1,
            r.end == usize::MAX,
    {
        (t + 1)..usize::MAX
    }
}

} // verus!
