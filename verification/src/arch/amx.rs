//! AMX capability detection: the `CPUID` leaf-7 feature bits, and on Linux the one-time
//! tile-data permission the OS must grant before a tile instruction may run. Other OSes offer no
//! portable way to ask for that permission, so AMX counts as absent there.

use vstd::prelude::*;

use crate::arch::{HostOs, ProbeCache};

verus! {

/// AMX-TILE: bit 24 of `CPUID.(EAX=7,ECX=0).EDX`.
pub const AMX_TILE_BIT: u32 = 24;

/// AMX-BF16: bit 22 of `CPUID.(EAX=7,ECX=0).EDX`.
pub const AMX_BF16_BIT: u32 = 22;

/// AMX-FP16: bit 21 of `CPUID.(EAX=7,ECX=1).EAX` (subleaf 1, not beside AMX-BF16).
pub const AMX_FP16_BIT: u32 = 21;

/// What the AMX-BF16 probe finds: on Linux, when `edx` reports AMX-TILE and AMX-BF16, whether
/// the permission request `perm` succeeds, else `false`; on any other OS `false`.
pub open spec fn bf16_probe_result<C: FnOnce() -> u32, P: FnOnce() -> bool>(
    os: HostOs,
    edx: C,
    perm: P,
    r: bool,
) -> bool {
    match os {
        HostOs::Linux => exists|e: u32|
            #[trigger] edx.ensures((), e) && if e & (1u32 << AMX_TILE_BIT) != 0 && e & (1u32
                << AMX_BF16_BIT) != 0 {
                perm.ensures((), r)
            } else {
                !r
            },
        _ => !r,
    }
}

/// What the AMX-FP16 probe finds: on Linux, when `edx` (subleaf 0) reports AMX-TILE and `eax`
/// (subleaf 1) reports AMX-FP16, whether the permission request `perm` succeeds, else `false`;
/// on any other OS `false`.
pub open spec fn fp16_probe_result<C: FnOnce() -> u32, D: FnOnce() -> u32, P: FnOnce() -> bool>(
    os: HostOs,
    edx: C,
    eax: D,
    perm: P,
    r: bool,
) -> bool {
    match os {
        HostOs::Linux => exists|e: u32, a: u32|
            #[trigger] edx.ensures((), e) && #[trigger] eax.ensures((), a) && if e & (1u32 << AMX_TILE_BIT)
                != 0 && a & (1u32 << AMX_FP16_BIT) != 0 {
                perm.ensures((), r)
            } else {
                !r
            },
        _ => !r,
    }
}

/// Whether the running CPU implements AMX-BF16 and the OS granted tile-data permission, probed
/// once per `cache`: `edx` reads `CPUID.(7,0).EDX`, `perm` asks for the permission (asked only
/// when both feature bits are set). Every later call returns the first answer.
pub fn is_supported<C: FnOnce() -> u32, P: FnOnce() -> bool>(
    cache: &mut ProbeCache,
    os: HostOs,
    edx: C,
    perm: P,
) -> (b: bool)
    requires
        old(cache).wf(),
        edx.requires(()),
        perm.requires(()),
    ensures
        final(cache).wf(),
        final(cache).known() == Some(b),
        old(cache).known() matches Some(v) ==> b == v,
        old(cache).known() is None ==> bf16_probe_result(os, edx, perm, b),
{
    let probe = move || -> (r: bool)
        requires
            edx.requires(()),
            perm.requires(()),
        ensures
            bf16_probe_result(os, edx, perm, r),
        {
            match os {
                HostOs::Linux => {
                    let e = edx();
                    if e & (1u32 << AMX_TILE_BIT) != 0 && e & (1u32 << AMX_BF16_BIT) != 0 {
                        perm()
                    } else {
                        false
                    }
                },
                _ => false,
            }
        };
    cache.get(probe)
}

/// Whether the running CPU implements AMX-FP16 (a separate bit from AMX-BF16: a host can have
/// one without the other) and the OS granted tile-data permission, probed once per `cache`:
/// `edx` reads `CPUID.(7,0).EDX`, `eax` reads `CPUID.(7,1).EAX`, `perm` asks for the
/// permission (asked only when both feature bits are set). Every later call returns the first
/// answer.
pub fn is_supported_f16<C: FnOnce() -> u32, D: FnOnce() -> u32, P: FnOnce() -> bool>(
    cache: &mut ProbeCache,
    os: HostOs,
    edx: C,
    eax: D,
    perm: P,
) -> (b: bool)
    requires
        old(cache).wf(),
        edx.requires(()),
        eax.requires(()),
        perm.requires(()),
    ensures
        final(cache).wf(),
        final(cache).known() == Some(b),
        old(cache).known() matches Some(v) ==> b == v,
        old(cache).known() is None ==> fp16_probe_result(os, edx, eax, perm, b),
{
    let probe = move || -> (r: bool)
        requires
            edx.requires(()),
            eax.requires(()),
            perm.requires(()),
        ensures
            fp16_probe_result(os, edx, eax, perm, r),
        {
            match os {
                HostOs::Linux => {
                    let e = edx();
                    let a = eax();
                    if e & (1u32 << AMX_TILE_BIT) != 0 && a & (1u32 << AMX_FP16_BIT) != 0 {
                        perm()
                    } else {
                        false
                    }
                },
                _ => false,
            }
        };
    cache.get(probe)
}

} // verus!
