//! The ARM backend-selection policy: which scalable path (SME matrix engine, base SVE, or fixed
//! NEON) an aarch64 dispatch should prefer, from what the hardware reports and the build policy.

use vstd::prelude::*;

pub mod amx;
pub mod sme1;
pub mod sme2;

verus! {

/// Which scalable backend (if any) the ARM dispatch should prefer. ARM has one backend per
/// `(vector length, ISA version)`, so selection keys on the detected SVE/SME width.
#[derive(Clone, Copy, PartialEq, Eq, Debug, Structural)]
pub enum ArmPath {
    /// Fixed-width NEON (128-bit). Always available on aarch64; the floor and the Apple default.
    Neon,
    /// Streaming-SVE2 + the SME ZA matrix engine, at the streaming vector length (bytes).
    Sme { svl_bytes: usize, v2: bool },
    /// Base (non-streaming) SVE at the detected vector length (bytes); `v2` = SVE2.
    Sve { vl_bytes: usize, v2: bool },
}

/// What the hardware reports and what the build allows, as plain data for [`select`].
#[derive(Clone, Copy, Debug, Default)]
pub struct ArmProbe {
    /// Apple silicon: no base SVE, and NEON + Accelerate is the fast path.
    pub apple: bool,
    /// Build opt-out of SVE and SME.
    pub no_sve: bool,
    /// Build opt-out of SME only.
    pub no_sme: bool,
    /// Build preference for NEON even when SVE is present.
    pub neon_over_sve: bool,
    /// Runtime feature detection is available (a `std` build).
    pub detect: bool,
    pub sme: bool,
    pub sme2: bool,
    pub svl_bytes: usize,
    pub sve: bool,
    pub sve2: bool,
    pub vl_bytes: usize,
}

/// The policy, in order: never SVE/SME on Apple; `no_sve` or `neon_over_sve` keep NEON; without
/// runtime detection NEON; otherwise the SME matrix engine (unless `no_sme`), then base SVE,
/// then NEON.
pub open spec fn select_spec(p: ArmProbe) -> ArmPath {
    if p.apple || p.no_sve || p.neon_over_sve || !p.detect {
        ArmPath::Neon
    } else if !p.no_sme && p.sme {
        ArmPath::Sme { svl_bytes: p.svl_bytes, v2: p.sme2 }
    } else if p.sve {
        ArmPath::Sve { vl_bytes: p.vl_bytes, v2: p.sve2 }
    } else {
        ArmPath::Neon
    }
}

/// Pick the ARM execution path from detection results and the build-time policy.
pub fn select(p: &ArmProbe) -> (r: ArmPath)
    ensures
        r == select_spec(*p),
{
    if p.apple {
        return ArmPath::Neon;
    }
    if p.no_sve || p.neon_over_sve {
        return ArmPath::Neon;
    }
    if p.detect {
        if !p.no_sme && p.sme {
            return ArmPath::Sme { svl_bytes: p.svl_bytes, v2: p.sme2 };
        }
        if p.sve {
            return ArmPath::Sve { vl_bytes: p.vl_bytes, v2: p.sve2 };
        }
    }
    ArmPath::Neon
}

/// Apple never leaves NEON, whatever the hardware reports.
pub proof fn lemma_apple_is_neon(p: ArmProbe)
    requires
        p.apple,
    ensures
        select_spec(p) == ArmPath::Neon,
{
}

/// A resolve-once capability flag: the OS probe (an aux-vector read or a syscall) runs on first
/// use only, and every later read returns what it found.
pub struct ProbeCache {
    /// `0` until probed, then `1` (absent) or `2` (present).
    state: u8,
}

impl ProbeCache {
    /// The cached answer: `None` before the first probe.
    pub closed spec fn known(&self) -> Option<bool> {
        if self.state == 0 {
            None
        } else {
            Some(self.state == 2)
        }
    }

    pub closed spec fn wf(&self) -> bool {
        self.state <= 2
    }

    /// A cache that has not probed yet.
    pub fn new() -> (r: Self)
        ensures
            r.wf(),
            r.known() == None::<bool>,
    {
        ProbeCache { state: 0 }
    }

    /// The capability, probing only if no answer is cached yet.
    pub fn get<F: FnOnce() -> bool>(&mut self, probe: F) -> (b: bool)
        requires
            old(self).wf(),
            old(self).known() is None ==> probe.requires(()),
        ensures
            final(self).wf(),
            final(self).known() == Some(b),
            old(self).known() matches Some(v) ==> b == v,
            old(self).known() is None ==> probe.ensures((), b),
    {
        if self.state == 0 {
            let v = probe();
            self.state = if v {
                2
            } else {
                1
            };
            v
        } else {
            self.state == 2
        }
    }
}

/// The operating systems the capability probes tell apart: Linux reports CPU features in the ELF
/// aux vector, Apple through `sysctl`, and any other OS through neither.
#[derive(Clone, Copy, PartialEq, Eq, Debug, Structural)]
pub enum HostOs {
    Linux,
    Apple,
    Other,
}

/// What a probe of one aux-vector capability bit finds: on Linux bit `bit` of the word `read`
/// returns, on Apple the flag `flag` returns, elsewhere nothing.
pub open spec fn hwcap_probe_result<R: FnOnce() -> u64, A: FnOnce() -> bool>(
    os: HostOs,
    bit: u32,
    read: R,
    flag: A,
    r: bool,
) -> bool {
    match os {
        HostOs::Linux => exists|w: u64| #[trigger] read.ensures((), w) && r == (w & (1u64 << bit) != 0),
        HostOs::Apple => flag.ensures((), r),
        HostOs::Other => !r,
    }
}

/// A capability bit probed once per cache: the first call asks the OS (`read` for the aux-vector
/// word on Linux, `flag` for the `sysctl` flag on Apple, nothing elsewhere) and tests the bit;
/// every later call returns that first answer without asking again.
pub fn probe_hwcap_bit<R: FnOnce() -> u64, A: FnOnce() -> bool>(
    cache: &mut ProbeCache,
    os: HostOs,
    bit: u32,
    read: R,
    flag: A,
) -> (b: bool)
    requires
        old(cache).wf(),
        bit < 64,
        read.requires(()),
        flag.requires(()),
    ensures
        final(cache).wf(),
        final(cache).known() == Some(b),
        old(cache).known() matches Some(v) ==> b == v,
        old(cache).known() is None ==> hwcap_probe_result(os, bit, read, flag, b),
{
    let probe = move || -> (r: bool)
        requires
            bit < 64,
            read.requires(()),
            flag.requires(()),
        ensures
            hwcap_probe_result(os, bit, read, flag, r),
        {
            match os {
                HostOs::Linux => {
                    let w = read();
                    hwcap_has(w, bit)
                },
                HostOs::Apple => flag(),
                HostOs::Other => false,
            }
        };
    cache.get(probe)
}

/// Whether bit `bit` of a hardware-capability word (an `AT_HWCAP`/`AT_HWCAP2` aux-vector entry
/// or a `CPUID` register) is set.
pub fn hwcap_has(word: u64, bit: u32) -> (b: bool)
    requires
        bit < 64,
    ensures
        b == (word & (1u64 << bit) != 0),
{
    word & (1u64 << bit) != 0
}

} // verus!
