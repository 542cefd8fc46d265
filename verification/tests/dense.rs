use lib::dense::{col_sums, fro_norm, gemm, gemv, potrf, row_sums, syrk, trsm, Diag, Mat, MatMut, Side, Trans, Uplo};
use lib::matrix::Layout;
use lib::matrix::Layout::{ColMajor as CM, RowMajor as RM};
use lib::dense::Trans::{N, T};
use lib::scalar::{FloatScalar, Scalar};

/// An `f32` lane element.
#[derive(Clone, Copy, Debug, PartialEq, PartialOrd)]
pub struct F32(pub f32);

/// An `f64` lane element.
#[derive(Clone, Copy, Debug, PartialEq, PartialOrd)]
pub struct F64(pub f64);

impl Scalar for F32 {
    fn zero_spec() -> Self {
        F32(0.0)
    }
    fn one_spec() -> Self {
        F32(1.0)
    }
    fn add_spec(self, o: Self) -> Self {
        F32(self.0 + o.0)
    }
    fn sub_spec(self, o: Self) -> Self {
        F32(self.0 - o.0)
    }
    fn mul_spec(self, o: Self) -> Self {
        F32(self.0 * o.0)
    }
    fn neg_spec(self) -> Self {
        F32(-self.0)
    }
    fn abs_spec(self) -> Self {
        F32(self.0.abs())
    }
    fn min_spec(self, o: Self) -> Self {
        F32(self.0.min(o.0))
    }
    fn max_spec(self, o: Self) -> Self {
        F32(self.0.max(o.0))
    }
    fn le_spec(self, o: Self) -> bool {
        self.0 <= o.0
    }
    fn lt_spec(self, o: Self) -> bool {
        self.0 < o.0
    }
    fn is_zero_spec(self) -> bool {
        self.0 == 0.0
    }
    fn is_one_spec(self) -> bool {
        self.0 == 1.0
    }
    fn to_bits_spec(self) -> u32 {
        self.0.to_bits()
    }
    fn from_bits_spec(b: u32) -> Self {
        F32(f32::from_bits(b))
    }
    fn lemma_zero_one() {}
    fn bit_width() -> u32 {
        32
    }
    fn lemma_bits_round_trip(_x: Self) {}
    fn zero() -> Self {
        Self::zero_spec()
    }
    fn one() -> Self {
        Self::one_spec()
    }
    fn wadd(self, o: Self) -> Self {
        self.add_spec(o)
    }
    fn wsub(self, o: Self) -> Self {
        self.sub_spec(o)
    }
    fn wmul(self, o: Self) -> Self {
        self.mul_spec(o)
    }
    fn neg(self) -> Self {
        self.neg_spec()
    }
    fn abs(self) -> Self {
        self.abs_spec()
    }
    fn min(self, o: Self) -> Self {
        self.min_spec(o)
    }
    fn max(self, o: Self) -> Self {
        self.max_spec(o)
    }
    fn le(self, o: Self) -> bool {
        self.le_spec(o)
    }
    fn lt(self, o: Self) -> bool {
        self.lt_spec(o)
    }
    fn is_zero(self) -> bool {
        self.is_zero_spec()
    }
    fn is_one(self) -> bool {
        self.is_one_spec()
    }
    fn to_bits32(self) -> u32 {
        self.to_bits_spec()
    }
    fn from_bits32(b: u32) -> Self {
        Self::from_bits_spec(b)
    }
}

impl FloatScalar for F32 {
    fn div_spec(self, o: Self) -> Self {
        F32(self.0 / o.0)
    }
    fn fma_spec(self, b: Self, c: Self) -> Self {
        F32(self.0.mul_add(b.0, c.0))
    }
    fn sqrt_spec(self) -> Self {
        F32(self.0.sqrt())
    }
    fn recip_spec(self) -> Self {
        F32((1.0 / self.0 as f64) as f32)
    }
    fn div(self, o: Self) -> Self {
        self.div_spec(o)
    }
    fn fma(self, b: Self, c: Self) -> Self {
        self.fma_spec(b, c)
    }
    fn sqrt(self) -> Self {
        self.sqrt_spec()
    }
    fn recip(self) -> Self {
        self.recip_spec()
    }
}

impl Scalar for F64 {
    fn zero_spec() -> Self {
        F64(0.0)
    }
    fn one_spec() -> Self {
        F64(1.0)
    }
    fn add_spec(self, o: Self) -> Self {
        F64(self.0 + o.0)
    }
    fn sub_spec(self, o: Self) -> Self {
        F64(self.0 - o.0)
    }
    fn mul_spec(self, o: Self) -> Self {
        F64(self.0 * o.0)
    }
    fn neg_spec(self) -> Self {
        F64(-self.0)
    }
    fn abs_spec(self) -> Self {
        F64(self.0.abs())
    }
    fn min_spec(self, o: Self) -> Self {
        F64(self.0.min(o.0))
    }
    fn max_spec(self, o: Self) -> Self {
        F64(self.0.max(o.0))
    }
    fn le_spec(self, o: Self) -> bool {
        self.0 <= o.0
    }
    fn lt_spec(self, o: Self) -> bool {
        self.0 < o.0
    }
    fn is_zero_spec(self) -> bool {
        self.0 == 0.0
    }
    fn is_one_spec(self) -> bool {
        self.0 == 1.0
    }
    fn to_bits_spec(self) -> u32 {
        self.0.to_bits() as u32
    }
    fn from_bits_spec(b: u32) -> Self {
        F64(f64::from_bits(b as u64))
    }
    fn lemma_zero_one() {}
    fn bit_width() -> u32 {
        64
    }
    fn lemma_bits_round_trip(_x: Self) {}
    fn zero() -> Self {
        Self::zero_spec()
    }
    fn one() -> Self {
        Self::one_spec()
    }
    fn wadd(self, o: Self) -> Self {
        self.add_spec(o)
    }
    fn wsub(self, o: Self) -> Self {
        self.sub_spec(o)
    }
    fn wmul(self, o: Self) -> Self {
        self.mul_spec(o)
    }
    fn neg(self) -> Self {
        self.neg_spec()
    }
    fn abs(self) -> Self {
        self.abs_spec()
    }
    fn min(self, o: Self) -> Self {
        self.min_spec(o)
    }
    fn max(self, o: Self) -> Self {
        self.max_spec(o)
    }
    fn le(self, o: Self) -> bool {
        self.le_spec(o)
    }
    fn lt(self, o: Self) -> bool {
        self.lt_spec(o)
    }
    fn is_zero(self) -> bool {
        self.is_zero_spec()
    }
    fn is_one(self) -> bool {
        self.is_one_spec()
    }
    fn to_bits32(self) -> u32 {
        self.to_bits_spec()
    }
    fn from_bits32(b: u32) -> Self {
        Self::from_bits_spec(b)
    }
}

impl FloatScalar for F64 {
    fn div_spec(self, o: Self) -> Self {
        F64(self.0 / o.0)
    }
    fn fma_spec(self, b: Self, c: Self) -> Self {
        F64(self.0.mul_add(b.0, c.0))
    }
    fn sqrt_spec(self) -> Self {
        F64(self.0.sqrt())
    }
    fn recip_spec(self) -> Self {
        F64((1.0 / self.0 as f64) as f64)
    }
    fn div(self, o: Self) -> Self {
        self.div_spec(o)
    }
    fn fma(self, b: Self, c: Self) -> Self {
        self.fma_spec(b, c)
    }
    fn sqrt(self) -> Self {
        self.sqrt_spec()
    }
    fn recip(self) -> Self {
        self.recip_spec()
    }
}

/// Conversions the checks compute their oracles through.
pub trait TestFloat: FloatScalar + core::fmt::Debug {
    fn from_f64(x: f64) -> Self;
    fn into_f64(self) -> f64;
}

impl TestFloat for F32 {
    fn from_f64(x: f64) -> Self {
        F32(x as f32)
    }
    fn into_f64(self) -> f64 {
        self.0 as f64
    }
}

impl TestFloat for F64 {
    fn from_f64(x: f64) -> Self {
        F64(x)
    }
    fn into_f64(self) -> f64 {
        self.0
    }
}

fn ramp<T: TestFloat>(n: usize, start: f64, step: f64) -> Vec<T> {
    (0..n).map(|i| T::from_f64(start + step * i as f64)).collect()
}

fn close<T: TestFloat>(a: T, b: T, tol: f64) -> bool {
    (a.into_f64() - b.into_f64()).abs() <= tol * (1.0 + b.into_f64().abs())
}

fn gemv_oracle<T: TestFloat>(trans: Trans, alpha: T, a: &Mat<T>, x: &[T], beta: T, y: &[T]) -> Vec<T> {
    let out_len = if trans == Trans::T { a.cols } else { a.rows };
    let in_len = if trans == Trans::T { a.rows } else { a.cols };
    (0..out_len)
        .map(|i| {
            let mut acc = 0.0;
            for (j, xj) in x.iter().enumerate().take(in_len) {
                let aij = if trans == Trans::T { a.get(j, i) } else { a.get(i, j) };
                acc += aij.into_f64() * xj.into_f64();
            }
            T::from_f64(alpha.into_f64() * acc + beta.into_f64() * y[i].into_f64())
        })
        .collect()
}

fn check_gemv<T: TestFloat>(rows: usize, cols: usize, layout: Layout, trans: Trans, alpha: T, beta: T) {
    let pad = 3;
    let (inner, outer) = match layout {
        Layout::RowMajor => (cols, rows),
        Layout::ColMajor => (rows, cols),
    };
    let stride = inner + pad;
    let mut data = ramp::<T>(outer * stride, 1.0, 0.5);
    for i in 0..outer {
        for p in inner..stride {
            data[i * stride + p] = T::from_f64(9999.0);
        }
    }
    let a = Mat::strided(&data, rows, cols, stride, layout);
    let (out_len, in_len) = if trans == Trans::T { (cols, rows) } else { (rows, cols) };
    let x = ramp::<T>(in_len, 0.3, 0.7);
    let mut y = ramp::<T>(out_len, 2.0, -0.4);
    let want = gemv_oracle(trans, alpha, &a, &x, beta, &y);
    gemv(trans, alpha, a, &x, beta, &mut y);
    for (g, w) in y.iter().zip(&want) {
        assert!(close(*g, *w, 1e-5), "gemv {layout:?} {trans:?}: {} vs {}", g.into_f64(), w.into_f64());
    }
}

#[test]
fn gemv_all_combos() {
    for &layout in &[Layout::RowMajor, Layout::ColMajor] {
        for &trans in &[Trans::N, Trans::T] {
            check_gemv::<F32>(11, 7, layout, trans, F32(1.0), F32(0.0));
            check_gemv::<F32>(11, 7, layout, trans, F32(2.5), F32(-1.5));
            check_gemv::<F64>(6, 13, layout, trans, F64(0.75), F64(1.0));
            check_gemv::<F32>(1, 20, layout, trans, F32(1.0), F32(0.0));
            check_gemv::<F32>(20, 1, layout, trans, F32(1.0), F32(0.0));
        }
    }
}

fn build<T: TestFloat>(rows: usize, cols: usize, layout: Layout, seed: f64) -> (Vec<T>, usize) {
    let (inner, outer) = match layout {
        Layout::RowMajor => (cols, rows),
        Layout::ColMajor => (rows, cols),
    };
    let stride = inner + 2;
    let mut data = ramp::<T>(outer * stride, seed, 0.13);
    for i in 0..outer {
        for p in inner..stride {
            data[i * stride + p] = T::from_f64(-7777.0);
        }
    }
    (data, stride)
}

#[allow(clippy::too_many_arguments)]
fn check_gemm<T: TestFloat>(
    m: usize,
    n: usize,
    k: usize,
    ta: Trans,
    tb: Trans,
    la: Layout,
    lb: Layout,
    lc: Layout,
    alpha: T,
    beta: T,
) {
    let (ar, ac) = if ta == Trans::T { (k, m) } else { (m, k) };
    let (br, bc) = if tb == Trans::T { (n, k) } else { (k, n) };
    let (adata, astride) = build::<T>(ar, ac, la, 1.0);
    let (bdata, bstride) = build::<T>(br, bc, lb, 2.0);
    let (mut cdata, cstride) = build::<T>(m, n, lc, 0.5);
    let c0 = cdata.clone();
    let a = Mat::strided(&adata, ar, ac, astride, la);
    let b = Mat::strided(&bdata, br, bc, bstride, lb);

    let a_op = |i: usize, p: usize| if ta == Trans::T { a.get(p, i) } else { a.get(i, p) };
    let b_op = |p: usize, j: usize| if tb == Trans::T { b.get(j, p) } else { b.get(p, j) };
    let c_off = |i: usize, j: usize| match lc {
        Layout::RowMajor => i * cstride + j,
        Layout::ColMajor => j * cstride + i,
    };
    let mut want = c0.clone();
    for i in 0..m {
        for j in 0..n {
            let mut acc = 0.0;
            for p in 0..k {
                acc += a_op(i, p).into_f64() * b_op(p, j).into_f64();
            }
            let o = c_off(i, j);
            want[o] = T::from_f64(alpha.into_f64() * acc + beta.into_f64() * c0[o].into_f64());
        }
    }

    let c = MatMut::strided(&mut cdata, m, n, cstride, lc);
    gemm(ta, tb, alpha, a, b, beta, c);
    for i in 0..m {
        for j in 0..n {
            let o = c_off(i, j);
            assert!(
                close(cdata[o], want[o], 1e-4),
                "gemm m{m} n{n} k{k} {ta:?}{tb:?} a{la:?} b{lb:?} c{lc:?}: {} vs {}",
                cdata[o].into_f64(),
                want[o].into_f64(),
            );
        }
    }
}

#[test]
fn gemm_all_combos() {
    for &ta in &[N, T] {
        for &tb in &[N, T] {
            for &la in &[RM, CM] {
                for &lb in &[RM, CM] {
                    for &lc in &[RM, CM] {
                        check_gemm::<F32>(5, 9, 7, ta, tb, la, lb, lc, F32(1.0), F32(0.0));
                        check_gemm::<F32>(5, 9, 7, ta, tb, la, lb, lc, F32(2.0), F32(-0.5));
                        check_gemm::<F64>(10, 6, 11, ta, tb, la, lb, lc, F64(0.7), F64(1.0));
                    }
                }
            }
        }
    }
}

#[test]
fn gemm_shapes() {
    for &(m, n, k) in &[(1, 1, 1), (1, 17, 3), (17, 1, 3), (16, 16, 16), (3, 8, 1), (9, 33, 5)] {
        check_gemm::<F32>(m, n, k, N, N, RM, RM, RM, F32(1.5), F32(0.25));
    }
}

#[allow(clippy::too_many_arguments)]
fn check_syrk<T: TestFloat>(n: usize, k: usize, uplo: Uplo, trans: Trans, la: Layout, lc: Layout, alpha: T, beta: T) {
    let (ar, ac) = if trans == Trans::T { (k, n) } else { (n, k) };
    let (adata, astride) = build::<T>(ar, ac, la, 1.0);
    let (mut cdata, cstride) = build::<T>(n, n, lc, 0.5);
    let c0 = cdata.clone();
    let a = Mat::strided(&adata, ar, ac, astride, la);
    let a_op = |i: usize, p: usize| if trans == Trans::T { a.get(p, i) } else { a.get(i, p) };
    let c_off = |i: usize, j: usize| match lc {
        Layout::RowMajor => i * cstride + j,
        Layout::ColMajor => j * cstride + i,
    };
    let mut want = c0.clone();
    for i in 0..n {
        let (lo, hi) = match uplo {
            Uplo::Lower => (0, i + 1),
            Uplo::Upper => (i, n),
        };
        for j in lo..hi {
            let mut acc = 0.0;
            for p in 0..k {
                acc += a_op(i, p).into_f64() * a_op(j, p).into_f64();
            }
            let o = c_off(i, j);
            want[o] = T::from_f64(alpha.into_f64() * acc + beta.into_f64() * c0[o].into_f64());
        }
    }
    let c = MatMut::strided(&mut cdata, n, n, cstride, lc);
    syrk(uplo, trans, alpha, a, beta, c);
    for (o, (g, w)) in cdata.iter().zip(&want).enumerate() {
        assert!(
            close(*g, *w, 1e-4),
            "syrk n{n} k{k} {uplo:?} {trans:?} off{o}: {} vs {}",
            g.into_f64(),
            w.into_f64()
        );
    }
}

#[test]
fn syrk_all_combos() {
    for &uplo in &[Uplo::Lower, Uplo::Upper] {
        for &trans in &[N, T] {
            for &la in &[RM, CM] {
                for &lc in &[RM, CM] {
                    check_syrk::<F32>(9, 5, uplo, trans, la, lc, F32(1.0), F32(0.0));
                    check_syrk::<F32>(9, 5, uplo, trans, la, lc, F32(1.5), F32(-0.5));
                    check_syrk::<F64>(7, 12, uplo, trans, la, lc, F64(0.6), F64(1.0));
                }
            }
        }
    }
}

fn tri_entry<T: TestFloat>(a: &Mat<T>, uplo: Uplo, diag: Diag, i: usize, p: usize) -> f64 {
    let in_tri = match uplo {
        Uplo::Lower => i >= p,
        Uplo::Upper => i <= p,
    };
    if i == p {
        if diag == Diag::Unit { 1.0 } else { a.get(i, i).into_f64() }
    } else if in_tri {
        a.get(i, p).into_f64()
    } else {
        0.0
    }
}

#[allow(clippy::too_many_arguments)]
fn check_trsm<T: TestFloat>(
    n: usize,
    r: usize,
    side: Side,
    uplo: Uplo,
    trans: Trans,
    diag: Diag,
    la: Layout,
    lb: Layout,
    alpha: T,
) {
    let (adata, astride) = build::<T>(n, n, la, 1.0);
    let mut a = adata;
    // Diagonal dominance keeps the solve well-conditioned.
    for i in 0..n {
        let o = match la {
            Layout::RowMajor => i * astride + i,
            Layout::ColMajor => i * astride + i,
        };
        a[o] = T::from_f64(n as f64 + 5.0);
    }
    let a = Mat::strided(&a, n, n, astride, la);
    let (br, bc) = match side {
        Side::Left => (n, r),
        Side::Right => (r, n),
    };
    let (mut bdata, bstride) = build::<T>(br, bc, lb, 2.0);
    let b_off = |i: usize, j: usize| match lb {
        Layout::RowMajor => i * bstride + j,
        Layout::ColMajor => j * bstride + i,
    };
    let b0: Vec<f64> = (0..br)
        .flat_map(|i| (0..bc).map(move |j| (i, j)))
        .map(|(i, j)| bdata[b_off(i, j)].into_f64())
        .collect();
    let b0_at = |i: usize, j: usize| b0[i * bc + j];

    let op_a = |i: usize, p: usize| {
        if trans == Trans::T { tri_entry(&a, uplo, diag, p, i) } else { tri_entry(&a, uplo, diag, i, p) }
    };

    let b = MatMut::strided(&mut bdata, br, bc, bstride, lb);
    trsm(side, uplo, trans, diag, alpha, a, b);
    let x = |i: usize, j: usize| bdata[b_off(i, j)].into_f64();

    match side {
        Side::Left => {
            for i in 0..n {
                for j in 0..r {
                    let lhs: f64 = (0..n).map(|p| op_a(i, p) * x(p, j)).sum();
                    assert!((lhs - alpha.into_f64() * b0_at(i, j)).abs() <= 1e-3 * (1.0 + lhs.abs()), "trsm L residual");
                }
            }
        }
        Side::Right => {
            for i in 0..r {
                for j in 0..n {
                    let lhs: f64 = (0..n).map(|p| x(i, p) * op_a(p, j)).sum();
                    assert!((lhs - alpha.into_f64() * b0_at(i, j)).abs() <= 1e-3 * (1.0 + lhs.abs()), "trsm R residual");
                }
            }
        }
    }
}

#[test]
fn trsm_all_combos() {
    for &side in &[Side::Left, Side::Right] {
        for &uplo in &[Uplo::Lower, Uplo::Upper] {
            for &trans in &[N, T] {
                for &diag in &[Diag::NonUnit, Diag::Unit] {
                    for &(la, lb) in &[(RM, RM), (CM, RM), (RM, CM), (CM, CM)] {
                        check_trsm::<F64>(6, 4, side, uplo, trans, diag, la, lb, F64(1.0));
                        check_trsm::<F64>(6, 4, side, uplo, trans, diag, la, lb, F64(2.5));
                        check_trsm::<F32>(5, 3, side, uplo, trans, diag, la, lb, F32(1.0));
                    }
                }
            }
        }
    }
}

fn spd<T: TestFloat>(n: usize, layout: Layout) -> (Vec<T>, usize, Vec<f64>) {
    let mut full = vec![0.0f64; n * n];
    let src = ramp::<F64>(n * n, 0.4, 0.11);
    for i in 0..n {
        for j in 0..n {
            let mut s = 0.0;
            for p in 0..n {
                s += src[i * n + p].0 * src[j * n + p].0;
            }
            full[i * n + j] = s + if i == j { n as f64 } else { 0.0 };
        }
    }
    let (mut data, stride) = build::<T>(n, n, layout, 0.0);
    let off = |i: usize, j: usize| match layout {
        Layout::RowMajor => i * stride + j,
        Layout::ColMajor => j * stride + i,
    };
    for i in 0..n {
        for j in 0..n {
            data[off(i, j)] = T::from_f64(full[i * n + j]);
        }
    }
    (data, stride, full)
}

fn check_potrf<T: TestFloat>(n: usize, uplo: Uplo, layout: Layout) {
    let (mut data, stride, orig) = spd::<T>(n, layout);
    let a = MatMut::strided(&mut data, n, n, stride, layout);
    potrf(uplo, a).expect("SPD should factor");
    let off = |i: usize, j: usize| match layout {
        Layout::RowMajor => i * stride + j,
        Layout::ColMajor => j * stride + i,
    };
    let fac = |i: usize, j: usize| data[off(i, j)].into_f64();
    for i in 0..n {
        for j in 0..n {
            let recon: f64 = (0..n)
                .filter(|&p| p <= i && p <= j)
                .map(|p| match uplo {
                    Uplo::Lower => fac(i, p) * fac(j, p),
                    Uplo::Upper => fac(p, i) * fac(p, j),
                })
                .sum();
            assert!(
                (recon - orig[i * n + j]).abs() <= 1e-3 * (1.0 + orig[i * n + j].abs()),
                "potrf recon ({i},{j})"
            );
        }
    }
}

#[test]
fn potrf_recon() {
    for &uplo in &[Uplo::Lower, Uplo::Upper] {
        for &layout in &[Layout::RowMajor, Layout::ColMajor] {
            check_potrf::<F64>(8, uplo, layout);
            check_potrf::<F32>(5, uplo, layout);
        }
    }
}

#[test]
fn potrf_non_spd() {
    let mut data = vec![F64(1.0), F64(2.0), F64(2.0), F64(1.0)];
    let a = MatMut::strided(&mut data, 2, 2, 2, Layout::RowMajor);
    assert!(potrf(Uplo::Lower, a).is_err());
}

#[test]
fn gemm_large_aligned() {
    for &ta in &[N, T] {
        for &tb in &[N, T] {
            check_gemm::<F32>(64, 64, 32, ta, tb, RM, RM, RM, F32(1.0), F32(0.0));
            check_gemm::<F32>(64, 64, 48, ta, tb, RM, RM, RM, F32(2.0), F32(-0.5));
            check_gemm::<F32>(64, 64, 32, ta, tb, CM, RM, RM, F32(1.5), F32(1.0));
            check_gemm::<F64>(64, 64, 32, ta, tb, RM, RM, RM, F64(0.75), F64(1.0));
        }
    }
    check_gemm::<F32>(64, 64, 32, Trans::N, Trans::N, RM, RM, CM, F32(1.0), F32(0.0));
    check_gemm::<F32>(64, 64, 32, Trans::N, Trans::N, RM, RM, CM, F32(1.5), F32(-2.0));
}

#[test]
fn syrk_large_aligned() {
    for &uplo in &[Uplo::Lower, Uplo::Upper] {
        for &trans in &[N, T] {
            check_syrk::<F32>(64, 32, uplo, trans, RM, RM, F32(1.0), F32(0.0));
            check_syrk::<F32>(64, 48, uplo, trans, RM, RM, F32(1.5), F32(-0.5));
            check_syrk::<F32>(64, 32, uplo, trans, CM, CM, F32(0.7), F32(1.0));
            check_syrk::<F64>(64, 32, uplo, trans, RM, RM, F64(0.9), F64(1.0));
        }
    }
}

#[test]
fn reductions() {
    for &layout in &[Layout::RowMajor, Layout::ColMajor] {
        let (rows, cols) = (9usize, 5usize);
        let (inner, outer) = match layout {
            Layout::RowMajor => (cols, rows),
            Layout::ColMajor => (rows, cols),
        };
        let stride = inner + 2;
        let data = ramp::<F64>(outer * stride, 1.0, 0.25);
        let a = Mat::strided(&data, rows, cols, stride, layout);

        let mut rs = vec![F64(0.0); rows];
        row_sums(a, &mut rs);
        for (r, &got) in rs.iter().enumerate() {
            let want: f64 = (0..cols).map(|c| a.get(r, c).0).sum();
            assert!(close(got, F64(want), 1e-9));
        }

        let mut cs = vec![F64(0.0); cols];
        col_sums(a, &mut cs);
        for (c, &got) in cs.iter().enumerate() {
            let want: f64 = (0..rows).map(|r| a.get(r, c).0).sum();
            assert!(close(got, F64(want), 1e-9));
        }

        let mut ss = 0.0;
        for r in 0..rows {
            for c in 0..cols {
                ss += a.get(r, c).0 * a.get(r, c).0;
            }
        }
        assert!(close(fro_norm(a), F64(ss.sqrt()), 1e-9));
    }
}

#[test]
fn empty_contractions_read_no_operand() {
    // gemm with k = 0: neither operand is read, even through strides that overrun their slices.
    let a = Mat::strided(&[][..], 3, 0, 5, RM);
    let b = Mat::strided(&[][..], 0, 2, 7, CM);
    let mut cdata: Vec<F32> = (1..=6).map(|i| F32(i as f32)).collect();
    gemm(N, N, F32(3.0), a, b, F32(2.0), MatMut::new(&mut cdata, 3, 2));
    assert_eq!(cdata, [2.0, 4.0, 6.0, 8.0, 10.0, 12.0].map(F32));

    // syrk with k = 0 and β = 0: the triangle becomes α·0, the rest stays.
    let a = Mat::strided(&[][..], 3, 0, 4, RM);
    let mut cdata = vec![F32(7.0); 9];
    syrk(Uplo::Lower, N, F32(1.0), a, F32(0.0), MatMut::new(&mut cdata, 3, 3));
    assert_eq!(cdata, [0.0, 7.0, 7.0, 0.0, 0.0, 7.0, 0.0, 0.0, 0.0].map(F32));

    // trsm with an empty right-hand side leaves everything untouched.
    let a = Mat::strided(&[][..], 5, 5, 9, RM);
    let mut bdata = vec![F32(1.0); 3];
    trsm(Side::Right, Uplo::Lower, N, Diag::Unit, F32(2.0), a, MatMut::strided(&mut bdata, 0, 5, 4, CM));
    assert_eq!(bdata, [F32(1.0); 3]);

    // gemv with no output rows reads nothing.
    let a = Mat::strided(&[][..], 0, 4, 3, CM);
    let x = [F32(1.0), F32(2.0), F32(3.0), F32(4.0)];
    let mut y: [F32; 0] = [];
    gemv(N, F32(1.0), a, &x, F32(0.0), &mut y);
}
