use lib::backend::subgroup::{choose_execution, Execution};
use lib::backend::{Backend, ScalarBackend};
use lib::cols::Cols;
use lib::dispatch::{dispatch, Kernel, SimdDispatch, run_scalar};
use lib::scalar::{FloatScalar, Scalar};
use lib::varying::Gang;

/// An `f32` lane element.
#[derive(Clone, Copy, Debug, PartialEq, PartialOrd)]
pub struct F32(pub f32);

/// An `f64` lane element.
#[derive(Clone, Copy, Debug, PartialEq, PartialOrd)]
pub struct F64(pub f64);

impl Scalar for F32 {
    fn zero_spec() -> Self {
        F32(0.0)
    }
    fn one_spec() -> Self {
        F32(1.0)
    }
    fn add_spec(self, o: Self) -> Self {
        F32(self.0 + o.0)
    }
    fn sub_spec(self, o: Self) -> Self {
        F32(self.0 - o.0)
    }
    fn mul_spec(self, o: Self) -> Self {
        F32(self.0 * o.0)
    }
    fn neg_spec(self) -> Self {
        F32(-self.0)
    }
    fn abs_spec(self) -> Self {
        F32(self.0.abs())
    }
    fn min_spec(self, o: Self) -> Self {
        F32(self.0.min(o.0))
    }
    fn max_spec(self, o: Self) -> Self {
        F32(self.0.max(o.0))
    }
    fn le_spec(self, o: Self) -> bool {
        self.0 <= o.0
    }
    fn lt_spec(self, o: Self) -> bool {
        self.0 < o.0
    }
    fn is_zero_spec(self) -> bool {
        self.0 == 0.0
    }
    fn is_one_spec(self) -> bool {
        self.0 == 1.0
    }
    fn to_bits_spec(self) -> u32 {
        self.0.to_bits()
    }
    fn from_bits_spec(b: u32) -> Self {
        F32(f32::from_bits(b))
    }
    fn lemma_zero_one() {}
    fn bit_width() -> u32 {
        32
    }
    fn lemma_bits_round_trip(_x: Self) {}
    fn zero() -> Self {
        Self::zero_spec()
    }
    fn one() -> Self {
        Self::one_spec()
    }
    fn wadd(self, o: Self) -> Self {
        self.add_spec(o)
    }
    fn wsub(self, o: Self) -> Self {
        self.sub_spec(o)
    }
    fn wmul(self, o: Self) -> Self {
        self.mul_spec(o)
    }
    fn neg(self) -> Self {
        self.neg_spec()
    }
    fn abs(self) -> Self {
        self.abs_spec()
    }
    fn min(self, o: Self) -> Self {
        self.min_spec(o)
    }
    fn max(self, o: Self) -> Self {
        self.max_spec(o)
    }
    fn le(self, o: Self) -> bool {
        self.le_spec(o)
    }
    fn lt(self, o: Self) -> bool {
        self.lt_spec(o)
    }
    fn is_zero(self) -> bool {
        self.is_zero_spec()
    }
    fn is_one(self) -> bool {
        self.is_one_spec()
    }
    fn to_bits32(self) -> u32 {
        self.to_bits_spec()
    }
    fn from_bits32(b: u32) -> Self {
        Self::from_bits_spec(b)
    }
}

impl FloatScalar for F32 {
    fn div_spec(self, o: Self) -> Self {
        F32(self.0 / o.0)
    }
    fn fma_spec(self, b: Self, c: Self) -> Self {
        F32(self.0.mul_add(b.0, c.0))
    }
    fn sqrt_spec(self) -> Self {
        F32(self.0.sqrt())
    }
    fn recip_spec(self) -> Self {
        F32((1.0 / self.0 as f64) as f32)
    }
    fn div(self, o: Self) -> Self {
        self.div_spec(o)
    }
    fn fma(self, b: Self, c: Self) -> Self {
        self.fma_spec(b, c)
    }
    fn sqrt(self) -> Self {
        self.sqrt_spec()
    }
    fn recip(self) -> Self {
        self.recip_spec()
    }
}

impl Scalar for F64 {
    fn zero_spec() -> Self {
        F64(0.0)
    }
    fn one_spec() -> Self {
        F64(1.0)
    }
    fn add_spec(self, o: Self) -> Self {
        F64(self.0 + o.0)
    }
    fn sub_spec(self, o: Self) -> Self {
        F64(self.0 - o.0)
    }
    fn mul_spec(self, o: Self) -> Self {
        F64(self.0 * o.0)
    }
    fn neg_spec(self) -> Self {
        F64(-self.0)
    }
    fn abs_spec(self) -> Self {
        F64(self.0.abs())
    }
    fn min_spec(self, o: Self) -> Self {
        F64(self.0.min(o.0))
    }
    fn max_spec(self, o: Self) -> Self {
        F64(self.0.max(o.0))
    }
    fn le_spec(self, o: Self) -> bool {
        self.0 <= o.0
    }
    fn lt_spec(self, o: Self) -> bool {
        self.0 < o.0
    }
    fn is_zero_spec(self) -> bool {
        self.0 == 0.0
    }
    fn is_one_spec(self) -> bool {
        self.0 == 1.0
    }
    fn to_bits_spec(self) -> u32 {
        self.0.to_bits() as u32
    }
    fn from_bits_spec(b: u32) -> Self {
        F64(f64::from_bits(b as u64))
    }
    fn lemma_zero_one() {}
    fn bit_width() -> u32 {
        64
    }
    fn lemma_bits_round_trip(_x: Self) {}
    fn zero() -> Self {
        Self::zero_spec()
    }
    fn one() -> Self {
        Self::one_spec()
    }
    fn wadd(self, o: Self) -> Self {
        self.add_spec(o)
    }
    fn wsub(self, o: Self) -> Self {
        self.sub_spec(o)
    }
    fn wmul(self, o: Self) -> Self {
        self.mul_spec(o)
    }
    fn neg(self) -> Self {
        self.neg_spec()
    }
    fn abs(self) -> Self {
        self.abs_spec()
    }
    fn min(self, o: Self) -> Self {
        self.min_spec(o)
    }
    fn max(self, o: Self) -> Self {
        self.max_spec(o)
    }
    fn le(self, o: Self) -> bool {
        self.le_spec(o)
    }
    fn lt(self, o: Self) -> bool {
        self.lt_spec(o)
    }
    fn is_zero(self) -> bool {
        self.is_zero_spec()
    }
    fn is_one(self) -> bool {
        self.is_one_spec()
    }
    fn to_bits32(self) -> u32 {
        self.to_bits_spec()
    }
    fn from_bits32(b: u32) -> Self {
        Self::from_bits_spec(b)
    }
}

impl FloatScalar for F64 {
    fn div_spec(self, o: Self) -> Self {
        F64(self.0 / o.0)
    }
    fn fma_spec(self, b: Self, c: Self) -> Self {
        F64(self.0.mul_add(b.0, c.0))
    }
    fn sqrt_spec(self) -> Self {
        F64(self.0.sqrt())
    }
    fn recip_spec(self) -> Self {
        F64((1.0 / self.0 as f64) as f64)
    }
    fn div(self, o: Self) -> Self {
        self.div_spec(o)
    }
    fn fma(self, b: Self, c: Self) -> Self {
        self.fma_spec(b, c)
    }
    fn sqrt(self) -> Self {
        self.sqrt_spec()
    }
    fn recip(self) -> Self {
        self.recip_spec()
    }
}

/// Conversions the checks compute their oracles through.
pub trait TestFloat: FloatScalar + core::fmt::Debug {
    fn from_f64(x: f64) -> Self;
    fn into_f64(self) -> f64;
}

impl TestFloat for F32 {
    fn from_f64(x: f64) -> Self {
        F32(x as f32)
    }
    fn into_f64(self) -> f64 {
        self.0 as f64
    }
}

impl TestFloat for F64 {
    fn from_f64(x: f64) -> Self {
        F64(x)
    }
    fn into_f64(self) -> f64 {
        self.0
    }
}

impl SimdDispatch for F32 {
    fn dispatch<K: Kernel<Self>>(kernel: K) -> K::Output {
        run_scalar(kernel)
    }
}

#[test]
fn choose_policy() {
    // unknown / scalar size -> always sequential
    assert_eq!(choose_execution(1000, 0, 4), Execution::Sequential);
    assert_eq!(choose_execution(1000, 1, 4), Execution::Sequential);
    // below threshold (size*factor = 32*4 = 128) -> sequential
    assert_eq!(choose_execution(100, 32, 4), Execution::Sequential);
    // at/above threshold -> subgroup
    assert_eq!(choose_execution(128, 32, 4), Execution::Subgroup);
    assert_eq!(choose_execution(10_000, 32, 4), Execution::Subgroup);
    // factor 0 is treated as 1
    assert_eq!(choose_execution(32, 32, 0), Execution::Subgroup);
}

#[test]
fn views_and_ranges() {
    let mut c: Cols<F32, 3> = Cols::filled(5, |p| F32(p as f32));
    assert_eq!(c.len(), 5);
    assert_eq!(c.refs()[2], &[F32(2.0); 5][..]);
    assert_eq!(c.refs_range(1..3)[1].len(), 2);
    c.muts()[0][4] = F32(9.0);
    c.muts_range(0..2)[2][0] = F32(-1.0);
    assert_eq!(c.0[0][4], F32(9.0));
    assert_eq!(c.0[2][0], F32(-1.0));
    assert!(Cols::<F32, 2>::zeros(0).is_empty());
}

fn any_within<T: Scalar + PartialOrd, S: Backend<T>>(s: S, xs: &[T], r: T) -> bool {
    let lanes = s.lanes();
    let rv = s.splat(r);
    let mut i = 0;
    while i + lanes <= xs.len() {
        let x = s.load(&xs[i..i + lanes]);
        let ax = s.max(x, s.neg(x)); // |x|
        if s.any(s.le(ax, rv)) {
            return true;
        }
        i += lanes;
    }
    while i < xs.len() {
        if xs[i] <= r && xs[i].neg() <= r {
            return true;
        }
        i += 1;
    }
    false
}

#[test]
fn scalar_backend_smoke() {
    let xs = [3.0f32, -2.0, 5.0, 0.5].map(F32);
    assert!(any_within(ScalarBackend, &xs, F32(1.0)));
    assert!(!any_within(ScalarBackend, &xs, F32(0.4)));

    let xd = [3.0f64, -2.0, 5.0, 0.5].map(F64);
    assert!(any_within(ScalarBackend, &xd, F64(1.0)));
    assert!(!any_within(ScalarBackend, &xd, F64(0.4)));
}

struct AnyWithin<'a, T: Scalar> {
    xs: &'a [T],
    r: T,
}

impl<T: Scalar + PartialOrd> Kernel<T> for AnyWithin<'_, T> {
    type Output = bool;
    fn run<S: Backend<T>>(self, simd: Gang<S>) -> bool {
        any_within(simd.backend(), self.xs, self.r)
    }
}

#[test]
fn dispatch_matches_scalar_oracle() {
    let xs: Vec<F32> = (0..1000).map(|i| F32((i as f32 % 13.0) - 6.0)).collect();
    for &r in &[0.1f32, 0.5, 1.0, 3.0] {
        let dispatched = dispatch(AnyWithin { xs: &xs, r: F32(r) });
        let oracle = any_within(ScalarBackend, &xs, F32(r));
        assert_eq!(dispatched, oracle, "r={r}");
    }
}
