//! The per-element dispatch ladders: which backend a single-element-type dispatch runs on, from
//! what the host offers. Each element type walks its own ladder, widest first, and lands on the
//! scalar backend when nothing else applies.

use vstd::prelude::*;

use crate::dispatch::Caps;

verus! {

/// The element type a dispatch is for.
#[derive(Clone, Copy, PartialEq, Eq, Debug, Structural)]
pub enum Elem {
    F32,
    F64,
    /// `u32` or `i32`.
    Int,
    F16,
    Bf16,
}

/// What the host offers a dispatch: the capabilities [`Caps`] records (with the build opt-outs
/// already applied, so `sve_vl` is `0` where SVE is absent or not to be used), and the three the
/// combo policy does not look at.
#[derive(Clone, Copy, Default)]
pub struct Host {
    pub caps: Caps,
    /// aarch64 NEON with native half-precision arithmetic (`FEAT_FP16`).
    pub neon_fp16: bool,
    /// RISC-V "V" vector length in bytes (`VLENB`); `0` without the extension.
    pub rvv_vlenb: usize,
    /// 32-bit ARM NEON.
    pub neon_a32: bool,
}

/// The backend a dispatch runs on. The scalable backends carry the register width in bytes.
#[derive(Clone, Copy, PartialEq, Eq, Debug, Structural)]
pub enum Route {
    Avx512Fp16,
    Avx512Bf16,
    Avx512,
    Avx2,
    Avx1,
    Sse4,
    Neon,
    Sve(usize),
    Rvv(usize),
    NeonA32,
    RelaxedSimd,
    Simd128,
    Scalar,
}

/// The widest register width (64, 32 or 16 bytes) a scalable vector length of `vl` bytes covers;
/// 16 is the architectural minimum.
pub open spec fn scalable_width_spec(vl: usize) -> usize {
    if vl >= 64 {
        64
    } else if vl >= 32 {
        32
    } else {
        16
    }
}

/// The register width a scalable backend runs at for a vector length of `vl` bytes.
pub fn scalable_width(vl: usize) -> (w: usize)
    ensures
        w == scalable_width_spec(vl),
{
    if vl >= 64 {
        64
    } else if vl >= 32 {
        32
    } else {
        16
    }
}

/// The x86 rung: the AVX-512 family (its FP16/BF16 towers for that half type only), AVX2, AVX1
/// (`f32`/`f64` only), SSE4; `None` when the host has none of them.
pub open spec fn x86_route(e: Elem, c: Caps) -> Option<Route> {
    if c.avx512 {
        if e == Elem::F16 && c.fp16 {
            Some(Route::Avx512Fp16)
        } else if e == Elem::Bf16 && c.bf16 {
            Some(Route::Avx512Bf16)
        } else {
            Some(Route::Avx512)
        }
    } else if c.avx2 {
        Some(Route::Avx2)
    } else if c.avx1 && (e == Elem::F32 || e == Elem::F64) {
        Some(Route::Avx1)
    } else if c.sse4 {
        Some(Route::Sse4)
    } else {
        None
    }
}

/// The aarch64 rung: integers always on NEON; `f16` on NEON only with native half arithmetic,
/// then SVE, else none; `f32`/`f64`/`bf16` on SVE at its width where allowed, else NEON.
pub open spec fn arm64_route(e: Elem, h: Host) -> Option<Route> {
    if !h.caps.neon {
        None
    } else if e == Elem::Int {
        Some(Route::Neon)
    } else if e == Elem::F16 && h.neon_fp16 {
        Some(Route::Neon)
    } else if h.caps.sve_vl > 0 {
        Some(Route::Sve(scalable_width_spec(h.caps.sve_vl as usize)))
    } else if e == Elem::F16 {
        None
    } else {
        Some(Route::Neon)
    }
}

/// The backend a single-element dispatch for `e` runs on: the x86 rung, then aarch64, then RVV
/// at its width (`f32`/`f64`), 32-bit ARM NEON (`f32`), relaxed-SIMD, SIMD128, and the scalar
/// backend when none applies.
pub open spec fn route_spec(e: Elem, h: Host) -> Route {
    if x86_route(e, h.caps) is Some {
        x86_route(e, h.caps)->0
    } else if arm64_route(e, h) is Some {
        arm64_route(e, h)->0
    } else if h.rvv_vlenb > 0 && (e == Elem::F32 || e == Elem::F64) {
        Route::Rvv(scalable_width_spec(h.rvv_vlenb))
    } else if h.neon_a32 && e == Elem::F32 {
        Route::NeonA32
    } else if h.caps.relaxed {
        Route::RelaxedSimd
    } else if h.caps.simd128 {
        Route::Simd128
    } else {
        Route::Scalar
    }
}

/// The backend a dispatch for `e` runs on, on this host.
pub fn route(e: Elem, h: &Host) -> (r: Route)
    ensures
        r == route_spec(e, *h),
{
    let c = h.caps;
    if c.avx512 {
        if e == Elem::F16 && c.fp16 {
            return Route::Avx512Fp16;
        }
        if e == Elem::Bf16 && c.bf16 {
            return Route::Avx512Bf16;
        }
        return Route::Avx512;
    }
    if c.avx2 {
        return Route::Avx2;
    }
    if c.avx1 && (e == Elem::F32 || e == Elem::F64) {
        return Route::Avx1;
    }
    if c.sse4 {
        return Route::Sse4;
    }
    if c.neon {
        if e == Elem::Int {
            return Route::Neon;
        }
        if e == Elem::F16 && h.neon_fp16 {
            return Route::Neon;
        }
        if c.sve_vl > 0 {
            return Route::Sve(scalable_width(c.sve_vl as usize));
        }
        if e != Elem::F16 {
            return Route::Neon;
        }
    }
    if h.rvv_vlenb > 0 && (e == Elem::F32 || e == Elem::F64) {
        return Route::Rvv(scalable_width(h.rvv_vlenb));
    }
    if h.neon_a32 && e == Elem::F32 {
        return Route::NeonA32;
    }
    if c.relaxed {
        return Route::RelaxedSimd;
    }
    if c.simd128 {
        return Route::Simd128;
    }
    Route::Scalar
}

/// What the ladders never do: run an element on a backend that only emulates it. Integers never
/// take AVX1 or SVE, the half-precision towers serve only their own half type, `f16` reaches
/// NEON only with native half arithmetic, RVV serves only `f32`/`f64`, 32-bit ARM NEON only
/// `f32`; and a scalable width never exceeds the vector length the host reported, except at the
/// 16-byte floor.
pub proof fn lemma_route_policy(e: Elem, h: Host)
    ensures
        e == Elem::Int ==> route_spec(e, h) != Route::Avx1 && !(route_spec(e, h) is Sve),
        route_spec(e, h) == Route::Avx512Fp16 ==> e == Elem::F16,
        route_spec(e, h) == Route::Avx512Bf16 ==> e == Elem::Bf16,
        e == Elem::F16 && route_spec(e, h) == Route::Neon ==> h.neon_fp16,
        route_spec(e, h) is Rvv ==> e == Elem::F32 || e == Elem::F64,
        route_spec(e, h) == Route::NeonA32 ==> e == Elem::F32,
        route_spec(e, h) matches Route::Sve(w) ==> w == 16 || w <= h.caps.sve_vl,
        route_spec(e, h) matches Route::Rvv(w) ==> w == 16 || w <= h.rvv_vlenb,
{
}

} // verus!
