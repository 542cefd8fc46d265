use lib::matrix::panels::{pack_a, pack_a_pairs, pack_b, pack_b_pairs};
use lib::backend::Backend;
use lib::dispatch::{dispatch, run_scalar, Kernel, SimdDispatch};
use lib::matrix::{packed_gemm, simd_gemm};
use lib::scalar::{FloatScalar, Scalar};
use lib::varying::Gang;

/// An `f32` lane element.
#[derive(Clone, Copy, Debug, PartialEq, PartialOrd)]
pub struct F32(pub f32);

/// An `f64` lane element.
#[derive(Clone, Copy, Debug, PartialEq, PartialOrd)]
pub struct F64(pub f64);

impl Scalar for F32 {
    fn zero_spec() -> Self {
        F32(0.0)
    }
    fn one_spec() -> Self {
        F32(1.0)
    }
    fn add_spec(self, o: Self) -> Self {
        F32(self.0 + o.0)
    }
    fn sub_spec(self, o: Self) -> Self {
        F32(self.0 - o.0)
    }
    fn mul_spec(self, o: Self) -> Self {
        F32(self.0 * o.0)
    }
    fn neg_spec(self) -> Self {
        F32(-self.0)
    }
    fn abs_spec(self) -> Self {
        F32(self.0.abs())
    }
    fn min_spec(self, o: Self) -> Self {
        F32(self.0.min(o.0))
    }
    fn max_spec(self, o: Self) -> Self {
        F32(self.0.max(o.0))
    }
    fn le_spec(self, o: Self) -> bool {
        self.0 <= o.0
    }
    fn lt_spec(self, o: Self) -> bool {
        self.0 < o.0
    }
    fn is_zero_spec(self) -> bool {
        self.0 == 0.0
    }
    fn is_one_spec(self) -> bool {
        self.0 == 1.0
    }
    fn to_bits_spec(self) -> u32 {
        self.0.to_bits()
    }
    fn from_bits_spec(b: u32) -> Self {
        F32(f32::from_bits(b))
    }
    fn lemma_zero_one() {}
    fn bit_width() -> u32 {
        32
    }
    fn lemma_bits_round_trip(_x: Self) {}
    fn zero() -> Self {
        Self::zero_spec()
    }
    fn one() -> Self {
        Self::one_spec()
    }
    fn wadd(self, o: Self) -> Self {
        self.add_spec(o)
    }
    fn wsub(self, o: Self) -> Self {
        self.sub_spec(o)
    }
    fn wmul(self, o: Self) -> Self {
        self.mul_spec(o)
    }
    fn neg(self) -> Self {
        self.neg_spec()
    }
    fn abs(self) -> Self {
        self.abs_spec()
    }
    fn min(self, o: Self) -> Self {
        self.min_spec(o)
    }
    fn max(self, o: Self) -> Self {
        self.max_spec(o)
    }
    fn le(self, o: Self) -> bool {
        self.le_spec(o)
    }
    fn lt(self, o: Self) -> bool {
        self.lt_spec(o)
    }
    fn is_zero(self) -> bool {
        self.is_zero_spec()
    }
    fn is_one(self) -> bool {
        self.is_one_spec()
    }
    fn to_bits32(self) -> u32 {
        self.to_bits_spec()
    }
    fn from_bits32(b: u32) -> Self {
        Self::from_bits_spec(b)
    }
}

impl FloatScalar for F32 {
    fn div_spec(self, o: Self) -> Self {
        F32(self.0 / o.0)
    }
    fn fma_spec(self, b: Self, c: Self) -> Self {
        F32(self.0.mul_add(b.0, c.0))
    }
    fn sqrt_spec(self) -> Self {
        F32(self.0.sqrt())
    }
    fn recip_spec(self) -> Self {
        F32((1.0 / self.0 as f64) as f32)
    }
    fn div(self, o: Self) -> Self {
        self.div_spec(o)
    }
    fn fma(self, b: Self, c: Self) -> Self {
        self.fma_spec(b, c)
    }
    fn sqrt(self) -> Self {
        self.sqrt_spec()
    }
    fn recip(self) -> Self {
        self.recip_spec()
    }
}

impl Scalar for F64 {
    fn zero_spec() -> Self {
        F64(0.0)
    }
    fn one_spec() -> Self {
        F64(1.0)
    }
    fn add_spec(self, o: Self) -> Self {
        F64(self.0 + o.0)
    }
    fn sub_spec(self, o: Self) -> Self {
        F64(self.0 - o.0)
    }
    fn mul_spec(self, o: Self) -> Self {
        F64(self.0 * o.0)
    }
    fn neg_spec(self) -> Self {
        F64(-self.0)
    }
    fn abs_spec(self) -> Self {
        F64(self.0.abs())
    }
    fn min_spec(self, o: Self) -> Self {
        F64(self.0.min(o.0))
    }
    fn max_spec(self, o: Self) -> Self {
        F64(self.0.max(o.0))
    }
    fn le_spec(self, o: Self) -> bool {
        self.0 <= o.0
    }
    fn lt_spec(self, o: Self) -> bool {
        self.0 < o.0
    }
    fn is_zero_spec(self) -> bool {
        self.0 == 0.0
    }
    fn is_one_spec(self) -> bool {
        self.0 == 1.0
    }
    fn to_bits_spec(self) -> u32 {
        self.0.to_bits() as u32
    }
    fn from_bits_spec(b: u32) -> Self {
        F64(f64::from_bits(b as u64))
    }
    fn lemma_zero_one() {}
    fn bit_width() -> u32 {
        64
    }
    fn lemma_bits_round_trip(_x: Self) {}
    fn zero() -> Self {
        Self::zero_spec()
    }
    fn one() -> Self {
        Self::one_spec()
    }
    fn wadd(self, o: Self) -> Self {
        self.add_spec(o)
    }
    fn wsub(self, o: Self) -> Self {
        self.sub_spec(o)
    }
    fn wmul(self, o: Self) -> Self {
        self.mul_spec(o)
    }
    fn neg(self) -> Self {
        self.neg_spec()
    }
    fn abs(self) -> Self {
        self.abs_spec()
    }
    fn min(self, o: Self) -> Self {
        self.min_spec(o)
    }
    fn max(self, o: Self) -> Self {
        self.max_spec(o)
    }
    fn le(self, o: Self) -> bool {
        self.le_spec(o)
    }
    fn lt(self, o: Self) -> bool {
        self.lt_spec(o)
    }
    fn is_zero(self) -> bool {
        self.is_zero_spec()
    }
    fn is_one(self) -> bool {
        self.is_one_spec()
    }
    fn to_bits32(self) -> u32 {
        self.to_bits_spec()
    }
    fn from_bits32(b: u32) -> Self {
        Self::from_bits_spec(b)
    }
}

impl FloatScalar for F64 {
    fn div_spec(self, o: Self) -> Self {
        F64(self.0 / o.0)
    }
    fn fma_spec(self, b: Self, c: Self) -> Self {
        F64(self.0.mul_add(b.0, c.0))
    }
    fn sqrt_spec(self) -> Self {
        F64(self.0.sqrt())
    }
    fn recip_spec(self) -> Self {
        F64((1.0 / self.0 as f64) as f64)
    }
    fn div(self, o: Self) -> Self {
        self.div_spec(o)
    }
    fn fma(self, b: Self, c: Self) -> Self {
        self.fma_spec(b, c)
    }
    fn sqrt(self) -> Self {
        self.sqrt_spec()
    }
    fn recip(self) -> Self {
        self.recip_spec()
    }
}

/// Conversions the checks compute their oracles through.
pub trait TestFloat: FloatScalar + core::fmt::Debug {
    fn from_f64(x: f64) -> Self;
    fn into_f64(self) -> f64;
}

impl TestFloat for F32 {
    fn from_f64(x: f64) -> Self {
        F32(x as f32)
    }
    fn into_f64(self) -> f64 {
        self.0 as f64
    }
}

impl TestFloat for F64 {
    fn from_f64(x: f64) -> Self {
        F64(x)
    }
    fn into_f64(self) -> f64 {
        self.0
    }
}

impl SimdDispatch for F32 {
    fn dispatch<K: Kernel<Self>>(kernel: K) -> K::Output {
        run_scalar(kernel)
    }
}

const M: usize = 9;
const N: usize = 22;
const K: usize = 7;

/// Row-major `A` (`M×K`), `B` (`K×N`) and `C` (`M×N`).
fn data() -> (Vec<F32>, Vec<F32>, Vec<F32>) {
    let mut a = vec![F32(0.0); M * K];
    let mut b = vec![F32(0.0); K * N];
    let mut c = vec![F32(0.0); M * N];
    for i in 0..M {
        for k in 0..K {
            a[i * K + k] = F32(((i * K + k) as f32 * 0.13).sin());
        }
    }
    for k in 0..K {
        for j in 0..N {
            b[k * N + j] = F32(((k * N + j) as f32 * 0.07).cos());
        }
    }
    for i in 0..M {
        for j in 0..N {
            c[i * N + j] = F32(((i + j) as f32 * 0.01) - 0.5);
        }
    }
    (a, b, c)
}

struct Probe;

impl Kernel<F32> for Probe {
    type Output = ();
    fn run<S: Backend<F32>>(self, ctx: Gang<S>) {
        let be = ctx.backend();
        let (a, b, c) = data();
        // Every register-block width must match `simd_gemm` exactly — same per-element `fma`
        // order, so bit-equal, not merely close.
        let want = simd_gemm::<F32, S, M, N, K>(be, &a, &b, c.clone());
        assert_eq!(packed_gemm::<_, _, M, N, K, 4, 2>(be, &a, &b, c.clone()), want);
        assert_eq!(packed_gemm::<_, _, M, N, K, 4, 3>(be, &a, &b, c.clone()), want);
        assert_eq!(packed_gemm::<_, _, M, N, K, 4, 4>(be, &a, &b, c.clone()), want);
    }
}

#[test]
fn packed_matches_simd_every_block_width() {
    dispatch(Probe);
}

#[test]
fn panels_transpose_a_and_slice_b() {
    // A: 4×3 row-major (M = 2 panels × blk 2), A[r][c] = 10r + c.
    let a: Vec<u32> = (0..4).flat_map(|r| (0..3).map(move |c| 10 * r + c)).collect();
    let mut ap = vec![99u32; 13];
    pack_a(&a, &mut ap, 2, 3, 2);
    // Panel p, step j, row m at p·6 + j·2 + m holds A[2p + m][j]; the trailing slot stays.
    assert_eq!(ap, [0, 10, 1, 11, 2, 12, 20, 30, 21, 31, 22, 32, 99]);

    // B: 2×5 row-major, B[r][c] = 10r + c; two panels of width 2 (column 4 unused).
    let b: Vec<u32> = (0..2).flat_map(|r| (0..5).map(move |c| 10 * r + c)).collect();
    let mut bp = vec![99u32; 8];
    pack_b(&b, &mut bp, 2, 2, 5, 2);
    assert_eq!(bp, [0, 1, 10, 11, 2, 3, 12, 13]);
}

#[test]
fn pair_panels_interleave_neighbours() {
    // A: 2×3 row-major, one panel of blk 2; K = 3 gives 2 pair-rows, the last padded with zero.
    let a: Vec<u32> = vec![1, 2, 3, 4, 5, 6];
    let mut ap = vec![99u32; 9];
    pack_a_pairs(&a, &mut ap, 1, 3, 2);
    // Pair-row 0: (A00, A01), (A10, A11); pair-row 1: (A02, 0), (A12, 0).
    assert_eq!(ap, [1, 2, 4, 5, 3, 0, 6, 0, 99]);

    // B: 3×2 row-major, one panel of blk 2.
    let b: Vec<u32> = vec![1, 2, 3, 4, 5, 6];
    let mut bp = vec![99u32; 8];
    pack_b_pairs(&b, &mut bp, 1, 3, 2, 2);
    // Pair-row 0: (B00, B10), (B01, B11); pair-row 1: (B20, 0), (B21, 0).
    assert_eq!(bp, [1, 3, 2, 4, 5, 0, 6, 0]);
}
