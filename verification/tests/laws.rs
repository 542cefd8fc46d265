use lib::dispatch::route::{route, scalable_width, Elem, Host, Route};
use lib::arch::{amx, hwcap_has, select, sme1, sme2, ArmPath, ArmProbe, HostOs, ProbeCache};
use lib::backend::subgroup::{choose_execution, Execution};
use lib::backend::{Backend, ScalarBackend, Unroll};
use lib::cols::Cols;
use lib::dense::{col_sums, fma_scalar, fro_norm, gemm, gemv, potrf, row_sums, scale, syrk, trsm, Diag, Mat, MatMut, Side, Trans, Uplo};
use lib::dispatch::tier;
use lib::dispatch::{canonical_tier, combo_tier, dispatch, run_kernel_on, Caps, Kernel, TierCache};
use lib::ilp_detected_for_test;
use lib::matrix::{
    dispatch_matrix, run_matrix_scalar, tile_index, Accumulator, Layout, MatrixA, MatrixB, MatrixBackend, MatrixDispatch,
    MatrixKernel, Role, View,
};
use lib::scalar::{FloatScalar, Scalar};
use lib::varying::Gang;

/// An `f32` lane element.
#[derive(Clone, Copy, Debug, PartialEq, PartialOrd)]
pub struct F32(pub f32);

/// An `f64` lane element.
#[derive(Clone, Copy, Debug, PartialEq, PartialOrd)]
pub struct F64(pub f64);

impl Scalar for F32 {
    fn zero_spec() -> Self {
        F32(0.0)
    }
    fn one_spec() -> Self {
        F32(1.0)
    }
    fn add_spec(self, o: Self) -> Self {
        F32(self.0 + o.0)
    }
    fn sub_spec(self, o: Self) -> Self {
        F32(self.0 - o.0)
    }
    fn mul_spec(self, o: Self) -> Self {
        F32(self.0 * o.0)
    }
    fn neg_spec(self) -> Self {
        F32(-self.0)
    }
    fn abs_spec(self) -> Self {
        F32(self.0.abs())
    }
    fn min_spec(self, o: Self) -> Self {
        F32(self.0.min(o.0))
    }
    fn max_spec(self, o: Self) -> Self {
        F32(self.0.max(o.0))
    }
    fn le_spec(self, o: Self) -> bool {
        self.0 <= o.0
    }
    fn lt_spec(self, o: Self) -> bool {
        self.0 < o.0
    }
    fn is_zero_spec(self) -> bool {
        self.0 == 0.0
    }
    fn is_one_spec(self) -> bool {
        self.0 == 1.0
    }
    fn to_bits_spec(self) -> u32 {
        self.0.to_bits()
    }
    fn from_bits_spec(b: u32) -> Self {
        F32(f32::from_bits(b))
    }
    fn lemma_zero_one() {}
    fn bit_width() -> u32 {
        32
    }
    fn lemma_bits_round_trip(_x: Self) {}
    fn zero() -> Self {
        Self::zero_spec()
    }
    fn one() -> Self {
        Self::one_spec()
    }
    fn wadd(self, o: Self) -> Self {
        self.add_spec(o)
    }
    fn wsub(self, o: Self) -> Self {
        self.sub_spec(o)
    }
    fn wmul(self, o: Self) -> Self {
        self.mul_spec(o)
    }
    fn neg(self) -> Self {
        self.neg_spec()
    }
    fn abs(self) -> Self {
        self.abs_spec()
    }
    fn min(self, o: Self) -> Self {
        self.min_spec(o)
    }
    fn max(self, o: Self) -> Self {
        self.max_spec(o)
    }
    fn le(self, o: Self) -> bool {
        self.le_spec(o)
    }
    fn lt(self, o: Self) -> bool {
        self.lt_spec(o)
    }
    fn is_zero(self) -> bool {
        self.is_zero_spec()
    }
    fn is_one(self) -> bool {
        self.is_one_spec()
    }
    fn to_bits32(self) -> u32 {
        self.to_bits_spec()
    }
    fn from_bits32(b: u32) -> Self {
        Self::from_bits_spec(b)
    }
}

impl FloatScalar for F32 {
    fn div_spec(self, o: Self) -> Self {
        F32(self.0 / o.0)
    }
    fn fma_spec(self, b: Self, c: Self) -> Self {
        F32(self.0.mul_add(b.0, c.0))
    }
    fn sqrt_spec(self) -> Self {
        F32(self.0.sqrt())
    }
    fn recip_spec(self) -> Self {
        F32((1.0 / self.0 as f64) as f32)
    }
    fn div(self, o: Self) -> Self {
        self.div_spec(o)
    }
    fn fma(self, b: Self, c: Self) -> Self {
        self.fma_spec(b, c)
    }
    fn sqrt(self) -> Self {
        self.sqrt_spec()
    }
    fn recip(self) -> Self {
        self.recip_spec()
    }
}

impl Scalar for F64 {
    fn zero_spec() -> Self {
        F64(0.0)
    }
    fn one_spec() -> Self {
        F64(1.0)
    }
    fn add_spec(self, o: Self) -> Self {
        F64(self.0 + o.0)
    }
    fn sub_spec(self, o: Self) -> Self {
        F64(self.0 - o.0)
    }
    fn mul_spec(self, o: Self) -> Self {
        F64(self.0 * o.0)
    }
    fn neg_spec(self) -> Self {
        F64(-self.0)
    }
    fn abs_spec(self) -> Self {
        F64(self.0.abs())
    }
    fn min_spec(self, o: Self) -> Self {
        F64(self.0.min(o.0))
    }
    fn max_spec(self, o: Self) -> Self {
        F64(self.0.max(o.0))
    }
    fn le_spec(self, o: Self) -> bool {
        self.0 <= o.0
    }
    fn lt_spec(self, o: Self) -> bool {
        self.0 < o.0
    }
    fn is_zero_spec(self) -> bool {
        self.0 == 0.0
    }
    fn is_one_spec(self) -> bool {
        self.0 == 1.0
    }
    fn to_bits_spec(self) -> u32 {
        self.0.to_bits() as u32
    }
    fn from_bits_spec(b: u32) -> Self {
        F64(f64::from_bits(b as u64))
    }
    fn lemma_zero_one() {}
    fn bit_width() -> u32 {
        64
    }
    fn lemma_bits_round_trip(_x: Self) {}
    fn zero() -> Self {
        Self::zero_spec()
    }
    fn one() -> Self {
        Self::one_spec()
    }
    fn wadd(self, o: Self) -> Self {
        self.add_spec(o)
    }
    fn wsub(self, o: Self) -> Self {
        self.sub_spec(o)
    }
    fn wmul(self, o: Self) -> Self {
        self.mul_spec(o)
    }
    fn neg(self) -> Self {
        self.neg_spec()
    }
    fn abs(self) -> Self {
        self.abs_spec()
    }
    fn min(self, o: Self) -> Self {
        self.min_spec(o)
    }
    fn max(self, o: Self) -> Self {
        self.max_spec(o)
    }
    fn le(self, o: Self) -> bool {
        self.le_spec(o)
    }
    fn lt(self, o: Self) -> bool {
        self.lt_spec(o)
    }
    fn is_zero(self) -> bool {
        self.is_zero_spec()
    }
    fn is_one(self) -> bool {
        self.is_one_spec()
    }
    fn to_bits32(self) -> u32 {
        self.to_bits_spec()
    }
    fn from_bits32(b: u32) -> Self {
        Self::from_bits_spec(b)
    }
}

impl FloatScalar for F64 {
    fn div_spec(self, o: Self) -> Self {
        F64(self.0 / o.0)
    }
    fn fma_spec(self, b: Self, c: Self) -> Self {
        F64(self.0.mul_add(b.0, c.0))
    }
    fn sqrt_spec(self) -> Self {
        F64(self.0.sqrt())
    }
    fn recip_spec(self) -> Self {
        F64((1.0 / self.0 as f64) as f64)
    }
    fn div(self, o: Self) -> Self {
        self.div_spec(o)
    }
    fn fma(self, b: Self, c: Self) -> Self {
        self.fma_spec(b, c)
    }
    fn sqrt(self) -> Self {
        self.sqrt_spec()
    }
    fn recip(self) -> Self {
        self.recip_spec()
    }
}

/// Conversions the checks compute their oracles through.
pub trait TestFloat: FloatScalar + core::fmt::Debug {
    fn from_f64(x: f64) -> Self;
    fn into_f64(self) -> f64;
}

impl TestFloat for F32 {
    fn from_f64(x: f64) -> Self {
        F32(x as f32)
    }
    fn into_f64(self) -> f64 {
        self.0 as f64
    }
}

impl TestFloat for F64 {
    fn from_f64(x: f64) -> Self {
        F64(x)
    }
    fn into_f64(self) -> f64 {
        self.0
    }
}

fn caps() -> Caps {
    Caps::default()
}

#[test]
fn tier_for_each_host() {
    let mut c = caps();
    assert_eq!(canonical_tier(&c, 0), tier::SCALAR);
    c.simd128 = true;
    assert_eq!(canonical_tier(&c, 0), tier::SIMD128);
    c.relaxed = true;
    assert_eq!(canonical_tier(&c, 0), tier::RELAXED);
    c.neon = true;
    assert_eq!(canonical_tier(&c, 0), tier::NEON);
    c.sve_vl = 16;
    assert_eq!(canonical_tier(&c, 0), tier::SVE16);
    c.sve_vl = 32;
    assert_eq!(canonical_tier(&c, 0), tier::SVE32);
    c.sve_vl = 64;
    assert_eq!(canonical_tier(&c, 0), tier::SVE64);
    // SVE only for integer-free combos: an integer element falls back to NEON.
    assert_eq!(canonical_tier(&c, 16), tier::NEON);
    c.sse4 = true;
    assert_eq!(canonical_tier(&c, 0), tier::SSE4);
    c.avx1 = true;
    assert_eq!(canonical_tier(&c, 0), tier::AVX1);
    // AVX1 only for pure f32/f64 combos.
    assert_eq!(canonical_tier(&c, 4), tier::SSE4);
    assert_eq!(canonical_tier(&c, 8), tier::SSE4);
    assert_eq!(canonical_tier(&c, 32), tier::SSE4);
    c.avx2 = true;
    assert_eq!(canonical_tier(&c, 4), tier::AVX2);
    c.avx512 = true;
    assert_eq!(canonical_tier(&c, 4), tier::AVX512);
    c.fp16 = true;
    c.bf16 = true;
    assert_eq!(canonical_tier(&c, 4), tier::AVX512FP16);
    assert_eq!(canonical_tier(&c, 8), tier::AVX512BF16);
    assert_eq!(canonical_tier(&c, 12), tier::AVX512FP16);
    // A combo without halves never reaches the half towers.
    assert_eq!(canonical_tier(&c, 1), tier::AVX512);
}

#[test]
fn tier_cache_resolves_once() {
    let mut c = caps();
    c.avx2 = true;
    let mut table = TierCache::new(c);
    let first = combo_tier(&mut table, 5);
    assert_eq!(first, tier::AVX2);
    assert_eq!(combo_tier(&mut table, 5), first);
    // Only the low six bits name the combo.
    assert_eq!(combo_tier(&mut table, 64 + 5), first);
    assert_eq!(combo_tier(&mut table, 0), tier::AVX2);
}

#[test]
fn choose_more_work_stays_on_subgroup() {
    assert_eq!(choose_execution(127, 32, 4), Execution::Sequential);
    for n in [128usize, 129, 1000, 1 << 20] {
        assert_eq!(choose_execution(n, 32, 4), Execution::Subgroup);
    }
    assert_eq!(choose_execution(63, 64, 1), Execution::Sequential);
    assert_eq!(choose_execution(64, 64, 1), Execution::Subgroup);
}

#[test]
fn arm_selection_policy() {
    let hw = ArmProbe {
        detect: true,
        sme: true,
        sme2: true,
        svl_bytes: 64,
        sve: true,
        sve2: false,
        vl_bytes: 32,
        ..ArmProbe::default()
    };
    assert_eq!(select(&hw), ArmPath::Sme { svl_bytes: 64, v2: true });
    assert_eq!(select(&ArmProbe { no_sme: true, ..hw }), ArmPath::Sve { vl_bytes: 32, v2: false });
    assert_eq!(select(&ArmProbe { no_sve: true, ..hw }), ArmPath::Neon);
    assert_eq!(select(&ArmProbe { neon_over_sve: true, ..hw }), ArmPath::Neon);
    assert_eq!(select(&ArmProbe { apple: true, ..hw }), ArmPath::Neon);
    assert_eq!(select(&ArmProbe { detect: false, ..hw }), ArmPath::Neon);
    assert_eq!(select(&ArmProbe { sme: false, sve: false, ..hw }), ArmPath::Neon);
}

#[test]
fn unroll_factor_is_scalar() {
    assert_eq!(ilp_detected_for_test(), 1);
}

struct Sum<'a> {
    xs: &'a [u32],
}

impl Kernel<u32> for Sum<'_> {
    type Output = u32;
    fn run<S: Backend<u32>>(self, simd: Gang<S>) -> u32 {
        simd.total(self.xs)
    }
}

struct Factor;

impl Kernel<u32> for Factor {
    type Output = usize;
    fn run<S: Backend<u32>>(self, simd: Gang<S>) -> usize {
        simd.unroll::<u32>()
    }
}

struct CappedFactor;

impl Kernel<u32> for CappedFactor {
    type Output = usize;
    const K_CAP: usize = 4;
    fn run<S: Backend<u32>>(self, simd: Gang<S>) -> usize {
        simd.unroll::<u32>()
    }
}

#[test]
fn run_kernel_on_picks_the_unroll_wrapper() {
    assert_eq!(run_kernel_on(Factor, ScalarBackend), 1);
    assert_eq!(run_kernel_on(Factor, Unroll::<_, 8>(ScalarBackend)), 8);
    assert_eq!(run_kernel_on(Factor, Unroll::<_, 12>(ScalarBackend)), 12);
    // A factor with no wrapper of its own falls back to 1; one above the cap is capped.
    assert_eq!(run_kernel_on(Factor, Unroll::<_, 3>(ScalarBackend)), 1);
    assert_eq!(run_kernel_on(Factor, Unroll::<_, 32>(ScalarBackend)), 16);
    assert_eq!(run_kernel_on(CappedFactor, Unroll::<_, 16>(ScalarBackend)), 4);
}

#[test]
fn integer_dispatch_wraps() {
    let xs = [u32::MAX, 2, 3];
    assert_eq!(dispatch(Sum { xs: &xs }), 4);
    assert_eq!(run_kernel_on(Sum { xs: &xs }, ScalarBackend), 4);
}

#[test]
fn gemm_col_major_matches_row_major() {
    // Same logical A, B, C; C stored both ways. The results agree bit for bit.
    let (m, n, k) = (5usize, 4usize, 3usize);
    let a: Vec<F32> = (0..m * k).map(|i| F32(0.3 + 0.17 * i as f32)).collect();
    let b: Vec<F32> = (0..k * n).map(|i| F32(-1.0 + 0.11 * i as f32)).collect();
    let cval = |i: usize, j: usize| F32(0.05 * (i * n + j) as f32 - 0.4);
    let mut crm: Vec<F32> = (0..m * n).map(|q| cval(q / n, q % n)).collect();
    let mut ccm: Vec<F32> = (0..m * n).map(|q| cval(q % m, q / m)).collect();
    let am = Mat::new(&a, m, k);
    let bm = Mat::new(&b, k, n);
    gemm(Trans::N, Trans::N, F32(1.5), am, bm, F32(0.5), MatMut::new(&mut crm, m, n));
    gemm(Trans::N, Trans::N, F32(1.5), am, bm, F32(0.5), MatMut::strided(&mut ccm, m, n, m, Layout::ColMajor));
    for i in 0..m {
        for j in 0..n {
            assert_eq!(crm[i * n + j], ccm[j * m + i]);
        }
    }
}

#[test]
fn gemm_beta_zero_ignores_nan_output() {
    let a = [1.0, 2.0, 3.0, 4.0].map(F64);
    let b = [5.0, 6.0, 7.0, 8.0].map(F64);
    let mut c = [f64::NAN; 4].map(F64);
    gemm(Trans::N, Trans::N, F64(1.0), Mat::new(&a, 2, 2), Mat::new(&b, 2, 2), F64(0.0), MatMut::new(&mut c, 2, 2));
    assert_eq!(c, [19.0, 22.0, 43.0, 50.0].map(F64));
}

#[test]
fn gemm_leaves_padding_untouched() {
    // 2x2 C inside a stride-3 buffer: the padding column keeps its sentinel.
    let a = [1.0, 0.0, 0.0, 1.0].map(F64);
    let b = [2.0, 3.0, 4.0, 5.0].map(F64);
    let mut c = [7.0, 7.0, -1.0, 7.0, 7.0, -1.0].map(F64);
    gemm(Trans::N, Trans::T, F64(1.0), Mat::new(&a, 2, 2), Mat::new(&b, 2, 2), F64(1.0), MatMut::strided(&mut c, 2, 2, 3, Layout::RowMajor));
    assert_eq!(c, [9.0, 11.0, -1.0, 10.0, 12.0, -1.0].map(F64));
}

#[test]
fn potrf_reports_first_bad_pivot() {
    let mut neg = vec![F64(-1.0)];
    assert_eq!(potrf(Uplo::Lower, MatMut::new(&mut neg, 1, 1)), Err(0));
    assert_eq!(neg, vec![F64(-1.0)]);
    let mut d = vec![F64(4.0), F64(2.0), F64(2.0), F64(1.0)];
    assert_eq!(potrf(Uplo::Upper, MatMut::new(&mut d, 2, 2)), Err(1));
    // A refused factorization leaves A as it was.
    assert_eq!(d, vec![F64(4.0), F64(2.0), F64(2.0), F64(1.0)]);
    let mut e: Vec<F64> = Vec::new();
    assert_eq!(potrf(Uplo::Lower, MatMut::new(&mut e, 0, 0)), Ok(()));
    let mut ok = vec![F64(4.0), F64(99.0), F64(2.0), F64(5.0)];
    assert_eq!(potrf(Uplo::Lower, MatMut::new(&mut ok, 2, 2)), Ok(()));
    // L = [[2, 0], [1, 2]]; the upper triangle is not referenced.
    assert_eq!(ok, vec![F64(2.0), F64(99.0), F64(1.0), F64(2.0)]);
}

#[test]
fn scale_fast_exits() {
    let mut y = [1.0, f64::NAN, -3.0].map(F64);
    scale(&mut y, F64(1.0));
    assert!(y[1].0.is_nan());
    scale(&mut y, F64(0.0));
    assert_eq!(y, [0.0, 0.0, 0.0].map(F64));
    let mut z = [1.0, -2.0].map(F64);
    scale(&mut z, F64(2.5));
    assert_eq!(z, [2.5, -5.0].map(F64));
}

#[test]
fn fma_scalar_values() {
    assert_eq!(fma_scalar(F64(2.0), F64(3.0), F64(0.0), F64(f64::NAN)), F64(6.0));
    assert_eq!(fma_scalar(F64(2.0), F64(3.0), F64(0.5), F64(4.0)), F64(8.0));
}

#[test]
fn cols_len_is_shortest_plane() {
    let c: Cols<F32, 2> = Cols(vec![vec![F32(1.0); 4], vec![F32(2.0); 3]]);
    assert_eq!(c.len(), 3);
    assert!(!c.is_empty());
    let z: Cols<F32, 3> = Cols::zeros(2);
    assert_eq!(z.0.len(), 3);
    assert_eq!(z.refs()[1], &[F32(0.0), F32(0.0)][..]);
    let none: Cols<F32, 0> = Cols::zeros(5);
    assert_eq!(none.len(), 0);
}

#[test]
fn tile_index_layouts() {
    assert_eq!(tile_index(2, 3, 10, Layout::RowMajor), 23);
    assert_eq!(tile_index(2, 3, 10, Layout::ColMajor), 32);
}

struct TileMul<'a> {
    a: &'a [F32],
    b: &'a [F32],
    out: &'a mut [F32],
}

impl MatrixKernel<F32> for TileMul<'_> {
    type Output = ();
    fn run<S: MatrixBackend<F32>>(self, ctx: Gang<S>) {
        let t = ctx.tiles::<F32>();
        let a = t.load_a_rm::<2, 3>(self.a);
        // B is given column-major.
        let b = t.load_b::<3, 2>(self.b, 3, Layout::ColMajor);
        let c = t.splat_acc::<2, 2>(F32(1.0));
        let d = t.mma(a, b, c);
        d.store_rm_ex(self.out, |v: F32| F32(v.0 * 2.0));
    }
}

#[test]
fn tiles_matmul_with_epilogue() {
    let a = [1.0, 2.0, 3.0, 4.0, 5.0, 6.0].map(F32);
    // B = [[7, 8], [9, 10], [11, 12]] stored column-major.
    let b = [7.0, 9.0, 11.0, 8.0, 10.0, 12.0].map(F32);
    let mut out = [F32(0.0); 5];
    run_matrix_scalar(TileMul { a: &a, b: &b, out: &mut out });
    // (A·B + 1) · 2, the trailing slot untouched.
    assert_eq!(out, [118.0, 130.0, 280.0, 310.0, 0.0].map(F32));
}

impl MatrixDispatch for F32 {
    fn dispatch_matrix<K: MatrixKernel<Self>>(kernel: K) -> K::Output {
        run_matrix_scalar(kernel)
    }
}

#[test]
fn dispatch_matrix_runs_the_kernel_once() {
    let a = [1.0, 2.0, 3.0, 4.0, 5.0, 6.0].map(F32);
    let b = [7.0, 9.0, 11.0, 8.0, 10.0, 12.0].map(F32);
    let mut out = [F32(0.0); 4];
    dispatch_matrix::<F32, _>(TileMul { a: &a, b: &b, out: &mut out });
    assert_eq!(out, [118.0, 130.0, 280.0, 310.0].map(F32));
}

#[test]
fn tile_store_then_load_round_trips() {
    let src: Vec<F32> = (0..6).map(|i| F32(i as f32)).collect();
    let tiles = Gang::new(ScalarBackend).tiles::<F32>();
    let t = tiles.load_acc::<2, 3>(&src, 3, Layout::RowMajor);
    let mut buf = vec![F32(-9.0); 8];
    t.store(&mut buf, 2, Layout::ColMajor);
    // Column-major with stride 2: element (r, c) at c * 2 + r; slots 6 and 7 untouched.
    assert_eq!(buf, [0.0, 3.0, 1.0, 4.0, 2.0, 5.0, -9.0, -9.0].map(F32));
    let back = tiles.load_acc::<2, 3>(&buf, 2, Layout::ColMajor);
    assert_eq!(back.raw(), src);
}

#[test]
fn probe_cache_probes_once() {
    let mut cache = ProbeCache::new();
    let mut calls = 0;
    assert!(cache.get(|| {
        calls += 1;
        true
    }));
    // The cached answer wins; the probe is not run again.
    assert!(cache.get(|| false));
    assert_eq!(calls, 1);
    let mut absent = ProbeCache::new();
    assert!(!absent.get(|| false));
    assert!(!absent.get(|| true));
}

#[test]
fn hwcap_bits() {
    assert!(hwcap_has(1 << 21, 21));
    assert!(!hwcap_has(1 << 21, 20));
    assert!(hwcap_has(u64::MAX, 63));
    assert!(!hwcap_has(0, 0));
}

#[test]
fn roles_and_views() {
    assert_eq!(<MatrixA as Role>::USE, 0);
    assert_eq!(<MatrixB as Role>::USE, 1);
    assert_eq!(<Accumulator as Role>::USE, 2);
    let mem = [1.0, 2.0, 3.0, 4.0, 5.0, 6.0].map(F32);
    let dense: View<F32, 2, 3> = View { mem: &mem, row_stride: 3, layout: Layout::RowMajor };
    assert_eq!(dense.get(1, 2), F32(6.0));
    assert_eq!(dense.dense_ptr(), Some(&mem[..]));
    let cm: View<F32, 2, 3> = View { mem: &mem, row_stride: 2, layout: Layout::ColMajor };
    assert_eq!(cm.get(1, 2), F32(6.0));
    assert_eq!(cm.get(0, 1), F32(3.0));
    assert_eq!(cm.dense_ptr(), None);
}

#[test]
fn exact_small_solves() {
    // Lower, unit diagonal: [[1, 0], [2, 1]] · x = [1, 4]  ⇒  x = [1, 2].
    let a = [1.0, 0.0, 2.0, 1.0].map(F64);
    let mut b = [1.0, 4.0].map(F64);
    trsm(Side::Left, Uplo::Lower, Trans::N, Diag::Unit, F64(1.0), Mat::new(&a, 2, 2), MatMut::new(&mut b, 2, 1));
    assert_eq!(b, [1.0, 2.0].map(F64));
    // Lower, non-unit: [[2, 0], [1, 4]] · x = [2, 9]  ⇒  x = [1, 2].
    let a = [2.0, 0.0, 1.0, 4.0].map(F64);
    let mut b = [2.0, 9.0].map(F64);
    trsm(Side::Left, Uplo::Lower, Trans::N, Diag::NonUnit, F64(1.0), Mat::new(&a, 2, 2), MatMut::new(&mut b, 2, 1));
    assert_eq!(b, [1.0, 2.0].map(F64));
    // The same system read as the upper triangle of the transpose, with α = 2.
    let at = [2.0, 1.0, 0.0, 4.0].map(F64);
    let mut b = [1.0, 4.5].map(F64);
    trsm(Side::Left, Uplo::Upper, Trans::T, Diag::NonUnit, F64(2.0), Mat::new(&at, 2, 2), MatMut::new(&mut b, 2, 1));
    assert_eq!(b, [1.0, 2.0].map(F64));
    // Right side: x · [[2, 0], [1, 4]] = [4, 8]  ⇒  x = [1, 2].
    let mut b = [4.0, 8.0].map(F64);
    trsm(Side::Right, Uplo::Lower, Trans::N, Diag::NonUnit, F64(1.0), Mat::new(&a, 2, 2), MatMut::new(&mut b, 1, 2));
    assert_eq!(b, [1.0, 2.0].map(F64));
}

#[test]
fn exact_small_products() {
    let a = [1.0, 2.0, 3.0, 4.0].map(F64);
    let x = [1.0, 1.0].map(F64);
    let mut y = [10.0, 20.0].map(F64);
    gemv(Trans::N, F64(1.0), Mat::new(&a, 2, 2), &x, F64(1.0), &mut y);
    assert_eq!(y, [13.0, 27.0].map(F64));
    let mut y = [0.0, 0.0].map(F64);
    gemv(Trans::T, F64(2.0), Mat::new(&a, 2, 2), &x, F64(0.0), &mut y);
    assert_eq!(y, [8.0, 12.0].map(F64));
    // C := A·Aᵀ, lower triangle only; the upper entry keeps its sentinel.
    let mut c = [0.0, -1.0, 0.0, 0.0].map(F64);
    syrk(Uplo::Lower, Trans::N, F64(1.0), Mat::new(&a, 2, 2), F64(0.0), MatMut::new(&mut c, 2, 2));
    assert_eq!(c, [5.0, -1.0, 11.0, 25.0].map(F64));
    let mut rs = [F64(0.0); 2];
    row_sums(Mat::new(&a, 2, 2), &mut rs);
    assert_eq!(rs, [3.0, 7.0].map(F64));
    let mut cs = [F64(0.0); 2];
    col_sums(Mat::new(&a, 2, 2), &mut cs);
    assert_eq!(cs, [4.0, 6.0].map(F64));
    let v = [3.0, 4.0].map(F64);
    assert_eq!(fro_norm(Mat::new(&v, 1, 2)), F64(5.0));
}

#[test]
fn from_bits_undoes_to_bits() {
    let s = ScalarBackend;
    for x in [F32(1.5), F32(-0.0), F32(f32::from_bits(0x7fc0_1234)), F32(f32::NEG_INFINITY)] {
        let back: F32 = Backend::<F32>::from_bits(s, Backend::<F32>::to_bits(s, x));
        assert_eq!(back.0.to_bits(), x.0.to_bits());
    }
    let back: i32 = Backend::<i32>::from_bits(s, Backend::<i32>::to_bits(s, -5i32));
    assert_eq!(back, -5);
    let back: u32 = Backend::<u32>::from_bits(s, Backend::<u32>::to_bits(s, u32::MAX));
    assert_eq!(back, u32::MAX);
}

#[test]
fn cols_default_has_empty_planes() {
    let c: Cols<F32, 3> = Cols::default();
    assert_eq!(c.0.len(), 3);
    assert!(c.0.iter().all(|p| p.is_empty()));
    assert!(c.is_empty());
}

#[test]
fn sme_probes_read_the_os_once() {
    // Linux: HWCAP2_SME is bit 23 of AT_HWCAP2; the first answer is kept.
    let mut c = ProbeCache::new();
    assert!(sme1::is_supported(&mut c, HostOs::Linux, || 1u64 << 23, || false));
    assert!(sme1::is_supported(&mut c, HostOs::Linux, || 0, || false));
    let mut c = ProbeCache::new();
    assert!(!sme1::is_supported(&mut c, HostOs::Linux, || 1u64 << 37, || true));
    // SME2 is bit 37.
    let mut c = ProbeCache::new();
    assert!(sme2::is_supported(&mut c, HostOs::Linux, || 1u64 << 37, || false));
    // Apple asks the sysctl flag; any other OS reports nothing.
    let mut c = ProbeCache::new();
    assert!(sme1::is_supported(&mut c, HostOs::Apple, || 0, || true));
    let mut c = ProbeCache::new();
    assert!(!sme2::is_supported(&mut c, HostOs::Other, || u64::MAX, || true));
}

#[test]
fn amx_probes_need_bits_and_permission() {
    let both = (1u32 << 24) | (1u32 << 22);
    let mut c = ProbeCache::new();
    assert!(amx::is_supported(&mut c, HostOs::Linux, || both, || true));
    let mut c = ProbeCache::new();
    assert!(!amx::is_supported(&mut c, HostOs::Linux, || both, || false));
    let mut asked = false;
    let mut c = ProbeCache::new();
    assert!(!amx::is_supported(&mut c, HostOs::Linux, || 1u32 << 24, || {
        asked = true;
        true
    }));
    assert!(!asked);
    let mut c = ProbeCache::new();
    assert!(!amx::is_supported(&mut c, HostOs::Other, || both, || true));
    let mut c = ProbeCache::new();
    assert!(amx::is_supported_f16(&mut c, HostOs::Linux, || 1u32 << 24, || 1u32 << 21, || true));
    let mut c = ProbeCache::new();
    assert!(!amx::is_supported_f16(&mut c, HostOs::Linux, || both, || 0, || true));
}

#[test]
fn per_element_dispatch_ladders() {
    let mut x86 = Host::default();
    x86.caps.sse4 = true;
    x86.caps.avx1 = true;
    assert_eq!(route(Elem::F32, &x86), Route::Avx1);
    assert_eq!(route(Elem::Int, &x86), Route::Sse4);
    x86.caps.avx512 = true;
    x86.caps.fp16 = true;
    assert_eq!(route(Elem::F16, &x86), Route::Avx512Fp16);
    assert_eq!(route(Elem::Bf16, &x86), Route::Avx512);

    let mut arm = Host::default();
    arm.caps.neon = true;
    assert_eq!(route(Elem::F16, &arm), Route::Scalar);
    arm.caps.sve_vl = 32;
    assert_eq!(route(Elem::F16, &arm), Route::Sve(32));
    assert_eq!(route(Elem::F64, &arm), Route::Sve(32));
    assert_eq!(route(Elem::Int, &arm), Route::Neon);
    arm.neon_fp16 = true;
    assert_eq!(route(Elem::F16, &arm), Route::Neon);

    let rv = Host { rvv_vlenb: 128, ..Host::default() };
    assert_eq!(route(Elem::F32, &rv), Route::Rvv(64));
    assert_eq!(route(Elem::Int, &rv), Route::Scalar);
    let a32 = Host { neon_a32: true, ..Host::default() };
    assert_eq!(route(Elem::F32, &a32), Route::NeonA32);
    assert_eq!(route(Elem::F64, &a32), Route::Scalar);
    let mut wasm = Host::default();
    wasm.caps.simd128 = true;
    assert_eq!(route(Elem::F16, &wasm), Route::Simd128);
    assert_eq!(scalable_width(16), 16);
    assert_eq!(scalable_width(48), 32);
}
