//! SME capability detection: `HWCAP2_SME` from the ELF aux vector on Linux, the
//! `hw.optional.arm.FEAT_SME` sysctl on Apple, absent elsewhere.

use vstd::prelude::*;

use crate::arch::{hwcap_probe_result, probe_hwcap_bit, HostOs, ProbeCache};

verus! {

/// `HWCAP2_SME`: bit 23 of the `AT_HWCAP2` aux-vector entry.
pub const HWCAP2_SME_BIT: u32 = 23;

/// Whether the running CPU implements SME, probed once per `cache`: on Linux bit
/// [`HWCAP2_SME_BIT`] of the `AT_HWCAP2` word `read_hwcap2` returns, on Apple the
/// `FEAT_SME` flag `apple_flag` returns, `false` on any other OS. Every later call returns the
/// first answer. Capability only: [`select`](crate::arch::select) still keeps Apple on NEON.
pub fn is_supported<R: FnOnce() -> u64, A: FnOnce() -> bool>(
    cache: &mut ProbeCache,
    os: HostOs,
    read_hwcap2: R,
    apple_flag: A,
) -> (b: bool)
    requires
        old(cache).wf(),
        read_hwcap2.requires(()),
        apple_flag.requires(()),
    ensures
        final(cache).wf(),
        final(cache).known() == Some(b),
        old(cache).known() matches Some(v) ==> b == v,
        old(cache).known() is None ==> hwcap_probe_result(os, HWCAP2_SME_BIT, read_hwcap2, apple_flag, b),
{
    probe_hwcap_bit(cache, os, HWCAP2_SME_BIT, read_hwcap2, apple_flag)
}

} // verus!
