//! The instruction-set tiers combo dispatch can select. The fp16/bf16 tiers serve
//! f32/f64/integers through plain AVX-512, so a combo without half types canonicalizes down to
//! `AVX512` and never monomorphizes for them.

use vstd::prelude::*;

verus! {

pub const SCALAR: u8 = 1;

pub const SSE4: u8 = 2;

pub const AVX1: u8 = 3;

pub const AVX2: u8 = 4;

pub const AVX512: u8 = 5;

pub const AVX512FP16: u8 = 6;

pub const AVX512BF16: u8 = 7;

pub const NEON: u8 = 8;

pub const SVE16: u8 = 9;

pub const SVE32: u8 = 10;

pub const SVE64: u8 = 11;

pub const SIMD128: u8 = 12;

pub const RELAXED: u8 = 13;

} // verus!
