//! `hydroplane` — element-agnostic, ISPC-style SPMD infrastructure with verified contracts.
use vstd::prelude::*;

pub mod arch;
pub mod backend;
pub mod cols;
pub mod dense;
pub mod dispatch;
pub mod matrix;
pub mod scalar;
pub mod varying;

verus! {

/// Padding granularity: the widest lane count targeted. Every backend's lane count divides it.
pub const MAX_LANES: usize = 32;

/// Upper bound on a backend's unroll factor: the most independent accumulator chains any
/// reduction unrolls to.
pub const MAX_UNROLL: usize = 16;

/// The unroll factor the dispatch adapter resolves on this build. This library carries no
/// per-core latency sweep, so the factor is the scalar backend's: always `1`.
pub fn ilp_detected_for_test() -> (k: u8)
    ensures
        k == 1,
{
    let u = <backend::ScalarBackend as backend::Backend<u32>>::unroll(backend::ScalarBackend);
    u as u8
}

} // verus!
