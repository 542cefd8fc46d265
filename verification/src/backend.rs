//! The execution-context (ISA token) abstraction.
//!
//! A [`Backend<T>`] is a zero-sized token identifying an instruction set for a specific element
//! `T`. Its registers are given meaning by three views: `vview` (the `lanes()` elements of a
//! varying register), `mview` (the lanes of a mask) and `iview` (the `u32` companion register).
//! Every operation is specified lane-wise over those views, so a kernel written against
//! `S: Backend<T>` is verified once for every backend and every element type.

use vstd::prelude::*;

pub mod subgroup;

use crate::scalar::{filled, fold_add, fold_max, fold_min, signed, signed_lt, wadd32, wmul32, wsub32, FloatScalar, IntScalar, Scalar};

verus! {

/// Bit `i` of `x`.
pub open spec fn bit(x: u32, i: int) -> bool {
    (x >> (i as u32)) & 1 == 1
}

/// `bits` packs `m`: bit `i` is set iff lane `i` is, and every bit at or above `m.len()` is clear.
pub open spec fn packs(bits: u32, m: Seq<bool>) -> bool {
    &&& forall|i: int| 0 <= i < m.len() ==> #[trigger] bit(bits, i) == m[i]
    &&& forall|i: int| m.len() <= i < 32 ==> !#[trigger] bit(bits, i)
}

proof fn lemma_set_bit(bits: u32, i: u32)
    requires
        i < 32,
    ensures
        forall|j: int|
            0 <= j < 32 ==> #[trigger] bit(bits | (1u32 << i), j) == (j == i || bit(bits, j)),
{
    assert forall|j: int| 0 <= j < 32 implies #[trigger] bit(bits | (1u32 << i), j) == (j == i || bit(
        bits,
        j,
    )) by {
        let ju = j as u32;
        assert(((((bits | (1u32 << i)) >> ju) & 1) == 1) == (ju == i || ((bits >> ju) & 1) == 1))
            by (bit_vector)
            requires
                i < 32,
                ju < 32,
        ;
    }
}

proof fn lemma_test_bit(bits: u32, i: u32)
    requires
        i < 32,
    ensures
        ((bits & (1u32 << i)) == 0) == !bit(bits, i as int),
{
    assert(((bits & (1u32 << i)) == 0) == (((bits >> i) & 1) != 1)) by (bit_vector)
        requires
            i < 32,
    ;
}

proof fn lemma_zero_bits()
    ensures
        forall|j: int| 0 <= j < 32 ==> !#[trigger] bit(0u32, j),
{
    assert forall|j: int| 0 <= j < 32 implies !#[trigger] bit(0u32, j) by {
        let ju = j as u32;
        assert(((0u32 >> ju) & 1) != 1) by (bit_vector);
    }
}

/// An instruction-set execution context for element `T`.
pub trait Backend<T: Scalar>: Copy {
    /// The varying register holding `lanes()` elements of `T`.
    type Vector: Copy;

    /// The boolean mask companion to `Vector`.
    type Mask: Copy;

    /// The 32-bit integer companion register: `lanes()` lanes of `u32`.
    type IVector: Copy;

    /// Number of lanes, as a mathematical value.
    spec fn lanes_spec(self) -> nat;

    /// The lanes of a varying register.
    spec fn vview(self, v: Self::Vector) -> Seq<T>;

    /// The lanes of a mask.
    spec fn mview(self, m: Self::Mask) -> Seq<bool>;

    /// The lanes of an integer companion register.
    spec fn iview(self, v: Self::IVector) -> Seq<u32>;

    /// Every register of this backend holds exactly `lanes()` lanes, and `lanes()` is in
    /// `1..=MAX_LANES` and divides `MAX_LANES`.
    proof fn lemma_shape(self)
        ensures
            1 <= self.lanes_spec() <= 32,
            crate::MAX_LANES as nat % self.lanes_spec() == 0,
            forall|v: Self::Vector| #[trigger] self.vview(v).len() == self.lanes_spec(),
            forall|m: Self::Mask| #[trigger] self.mview(m).len() == self.lanes_spec(),
            forall|v: Self::IVector| #[trigger] self.iview(v).len() == self.lanes_spec(),
    ;

    /// The unroll factor this backend is stamped with, as a mathematical value.
    spec fn unroll_spec(self) -> nat;

    /// Independent accumulator chains the multi-accumulator reductions run to saturate this
    /// backend's pipes (the ILP unroll factor).
    fn unroll(self) -> (r: usize)
        ensures
            r == self.unroll_spec(),
    ;

    /// Number of `T` lanes in one register under this backend.
    fn lanes(self) -> (r: usize)
        ensures
            r == self.lanes_spec(),
    ;

    fn splat(self, v: T) -> (r: Self::Vector)
        ensures
            self.vview(r) == Seq::new(self.lanes_spec(), |i: int| v),
    ;

    /// Load exactly one register. `s.len()` must equal `lanes()`.
    fn load(self, s: &[T]) -> (r: Self::Vector)
        requires
            s@.len() == self.lanes_spec(),
        ensures
            self.vview(r) == s@,
    ;

    /// Store exactly one register. `s.len()` must equal `lanes()`.
    fn store(self, v: Self::Vector, s: &mut [T])
        requires
            old(s)@.len() == self.lanes_spec(),
        ensures
            final(s)@ == self.vview(v),
    ;

    fn add(self, a: Self::Vector, b: Self::Vector) -> (r: Self::Vector)
        ensures
            self.vview(r) == Seq::new(
                self.lanes_spec(),
                |i: int| self.vview(a)[i].add_spec(self.vview(b)[i]),
            ),
    ;

    fn sub(self, a: Self::Vector, b: Self::Vector) -> (r: Self::Vector)
        ensures
            self.vview(r) == Seq::new(
                self.lanes_spec(),
                |i: int| self.vview(a)[i].sub_spec(self.vview(b)[i]),
            ),
    ;

    fn mul(self, a: Self::Vector, b: Self::Vector) -> (r: Self::Vector)
        ensures
            self.vview(r) == Seq::new(
                self.lanes_spec(),
                |i: int| self.vview(a)[i].mul_spec(self.vview(b)[i]),
            ),
    ;

    /// Negation: IEEE sign flip for floats, wrapping for integers.
    fn neg(self, a: Self::Vector) -> (r: Self::Vector)
        ensures
            self.vview(r) == Seq::new(self.lanes_spec(), |i: int| self.vview(a)[i].neg_spec()),
    ;

    fn div(self, a: Self::Vector, b: Self::Vector) -> (r: Self::Vector) where T: FloatScalar
        ensures
            self.vview(r) == Seq::new(
                self.lanes_spec(),
                |i: int| self.vview(a)[i].div_spec(self.vview(b)[i]),
            ),
    ;

    /// `a*b + c`, fused.
    fn fma(self, a: Self::Vector, b: Self::Vector, c: Self::Vector) -> (r: Self::Vector) where
        T: FloatScalar,
        ensures
            self.vview(r) == Seq::new(
                self.lanes_spec(),
                |i: int| self.vview(a)[i].fma_spec(self.vview(b)[i], self.vview(c)[i]),
            ),
    ;

    fn sqrt(self, a: Self::Vector) -> (r: Self::Vector) where T: FloatScalar
        ensures
            self.vview(r) == Seq::new(self.lanes_spec(), |i: int| self.vview(a)[i].sqrt_spec()),
    ;

    /// `a*b + acc` with the two-op multiply-add (wrapping for integers).
    fn madd(self, a: Self::Vector, b: Self::Vector, acc: Self::Vector) -> (r: Self::Vector)
        ensures
            self.vview(r) == Seq::new(
                self.lanes_spec(),
                |i: int| self.vview(a)[i].mul_spec(self.vview(b)[i]).add_spec(self.vview(acc)[i]),
            ),
    {
        self.add(self.mul(a, b), acc)
    }

    /// Lane-wise shift left by a uniform count `k < 32`.
    fn shl(self, a: Self::Vector, k: u32) -> (r: Self::Vector) where T: IntScalar
        requires
            k < 32,
        ensures
            self.vview(r) == Seq::new(self.lanes_spec(), |i: int| self.vview(a)[i].shl_spec(k)),
    ;

    /// Lane-wise shift right by `k < 32`: logical for `u32`, arithmetic for `i32`.
    fn shr(self, a: Self::Vector, k: u32) -> (r: Self::Vector) where T: IntScalar
        requires
            k < 32,
        ensures
            self.vview(r) == Seq::new(self.lanes_spec(), |i: int| self.vview(a)[i].shr_spec(k)),
    ;

    fn bit_and(self, a: Self::Vector, b: Self::Vector) -> (r: Self::Vector) where T: IntScalar
        ensures
            self.vview(r) == Seq::new(
                self.lanes_spec(),
                |i: int| self.vview(a)[i].and_spec(self.vview(b)[i]),
            ),
    ;

    fn bit_or(self, a: Self::Vector, b: Self::Vector) -> (r: Self::Vector) where T: IntScalar
        ensures
            self.vview(r) == Seq::new(
                self.lanes_spec(),
                |i: int| self.vview(a)[i].or_spec(self.vview(b)[i]),
            ),
    ;

    fn bit_xor(self, a: Self::Vector, b: Self::Vector) -> (r: Self::Vector) where T: IntScalar
        ensures
            self.vview(r) == Seq::new(
                self.lanes_spec(),
                |i: int| self.vview(a)[i].xor_spec(self.vview(b)[i]),
            ),
    ;

    fn bit_not(self, a: Self::Vector) -> (r: Self::Vector) where T: IntScalar
        ensures
            self.vview(r) == Seq::new(self.lanes_spec(), |i: int| self.vview(a)[i].not_spec()),
    ;

    /// Absolute value. The portable default goes lane by lane through memory.
    #[verifier::loop_isolation(false)]
    fn abs(self, a: Self::Vector) -> (r: Self::Vector)
        ensures
            self.vview(r) == Seq::new(self.lanes_spec(), |i: int| self.vview(a)[i].abs_spec()),
    {
        proof {
            self.lemma_shape();
        }
        let n = self.lanes();
        let mut buf: Vec<T> = filled(T::zero(), n);
        self.store(a, buf.as_mut_slice());
        let mut i: usize = 0;
        while i < n
            invariant
                n == self.lanes_spec(),
                buf@.len() == n,
                0 <= i <= n,
                forall|j: int| 0 <= j < i ==> buf@[j] == self.vview(a)[j].abs_spec(),
                forall|j: int| i <= j < n ==> buf@[j] == self.vview(a)[j],
            decreases n - i,
        {
            let x = buf[i].abs();
            buf.set(i, x);
            i += 1;
        }
        let r = self.load(buf.as_slice());
        proof {
            assert(self.vview(r) =~= Seq::new(self.lanes_spec(), |i: int| self.vview(a)[i].abs_spec()));
        }
        r
    }

    /// Lane-wise minimumNumber (floats) / `Ord` minimum (integers).
    fn min(self, a: Self::Vector, b: Self::Vector) -> (r: Self::Vector)
        ensures
            self.vview(r) == Seq::new(
                self.lanes_spec(),
                |i: int| self.vview(a)[i].min_spec(self.vview(b)[i]),
            ),
    ;

    /// Lane-wise maximumNumber (floats) / `Ord` maximum (integers).
    fn max(self, a: Self::Vector, b: Self::Vector) -> (r: Self::Vector)
        ensures
            self.vview(r) == Seq::new(
                self.lanes_spec(),
                |i: int| self.vview(a)[i].max_spec(self.vview(b)[i]),
            ),
    ;

    fn le(self, a: Self::Vector, b: Self::Vector) -> (r: Self::Mask)
        ensures
            self.mview(r) == Seq::new(
                self.lanes_spec(),
                |i: int| self.vview(a)[i].le_spec(self.vview(b)[i]),
            ),
    ;

    fn lt(self, a: Self::Vector, b: Self::Vector) -> (r: Self::Mask)
        ensures
            self.mview(r) == Seq::new(
                self.lanes_spec(),
                |i: int| self.vview(a)[i].lt_spec(self.vview(b)[i]),
            ),
    ;

    fn ge(self, a: Self::Vector, b: Self::Vector) -> (r: Self::Mask)
        ensures
            self.mview(r) == Seq::new(
                self.lanes_spec(),
                |i: int| self.vview(b)[i].le_spec(self.vview(a)[i]),
            ),
    ;

    fn gt(self, a: Self::Vector, b: Self::Vector) -> (r: Self::Mask)
        ensures
            self.mview(r) == Seq::new(
                self.lanes_spec(),
                |i: int| self.vview(b)[i].lt_spec(self.vview(a)[i]),
            ),
    ;

    fn mask_and(self, a: Self::Mask, b: Self::Mask) -> (r: Self::Mask)
        ensures
            self.mview(r) == Seq::new(
                self.lanes_spec(),
                |i: int| self.mview(a)[i] && self.mview(b)[i],
            ),
    ;

    fn mask_or(self, a: Self::Mask, b: Self::Mask) -> (r: Self::Mask)
        ensures
            self.mview(r) == Seq::new(
                self.lanes_spec(),
                |i: int| self.mview(a)[i] || self.mview(b)[i],
            ),
    ;

    fn mask_not(self, a: Self::Mask) -> (r: Self::Mask)
        ensures
            self.mview(r) == Seq::new(self.lanes_spec(), |i: int| !self.mview(a)[i]),
    ;

    /// `m ? a : b`, lane-wise.
    fn select(self, m: Self::Mask, a: Self::Vector, b: Self::Vector) -> (r: Self::Vector)
        ensures
            self.vview(r) == Seq::new(
                self.lanes_spec(),
                |i: int|
                    if self.mview(m)[i] {
                        self.vview(a)[i]
                    } else {
                        self.vview(b)[i]
                    },
            ),
    ;

    /// Cross-lane: true if any lane of the mask is set.
    fn any(self, m: Self::Mask) -> (r: bool)
        ensures
            r == exists|i: int| 0 <= i < self.lanes_spec() && #[trigger] self.mview(m)[i],
    ;

    /// Cross-lane: true if every lane of the mask is set.
    fn all(self, m: Self::Mask) -> (r: bool)
        ensures
            r == forall|i: int| 0 <= i < self.lanes_spec() ==> #[trigger] self.mview(m)[i],
    ;

    /// Pack the mask into the low `lanes()` bits of a `u32`: bit `i` set iff lane `i` is set;
    /// bits at and above `lanes()` are zero. The default materializes the mask through
    /// `select` + `store` and packs lane by lane.
    #[verifier::loop_isolation(false)]
    fn mask_bitmask(self, m: Self::Mask) -> (r: u32)
        ensures
            packs(r, self.mview(m)),
    {
        proof {
            self.lemma_shape();
            T::lemma_zero_one();
            lemma_zero_bits();
        }
        let n = self.lanes();
        let ones = self.select(m, self.splat(T::one()), self.splat(T::zero()));
        let mut buf: Vec<T> = filled(T::zero(), n);
        self.store(ones, buf.as_mut_slice());
        let mut bits = 0u32;
        let mut i: usize = 0;
        while i < n
            invariant
                n == self.lanes_spec(),
                1 <= n <= 32,
                buf@ == self.vview(ones),
                self.vview(ones) == Seq::new(
                    n as nat,
                    |k: int| if self.mview(m)[k] { T::one_spec() } else { T::zero_spec() },
                ),
                self.mview(m).len() == n,
                0 <= i <= n,
                forall|j: int| 0 <= j < i ==> #[trigger] bit(bits, j) == self.mview(m)[j],
                forall|j: int| i <= j < 32 ==> !#[trigger] bit(bits, j),
                T::zero_spec().is_zero_spec(),
                !T::one_spec().is_zero_spec(),
            decreases n - i,
        {
            if !buf[i].is_zero() {
                proof {
                    lemma_set_bit(bits, i as u32);
                }
                bits = bits | (1u32 << (i as u32));
            }
            i += 1;
        }
        bits
    }

    /// Horizontal sum: the left fold of `add` over the lanes.
    fn reduce_sum(self, v: Self::Vector) -> (r: T)
        ensures
            r == fold_add(self.vview(v)),
    ;

    /// Horizontal minimum with `min`'s semantics folded over the lanes.
    fn reduce_min(self, v: Self::Vector) -> (r: T)
        ensures
            r == fold_min(self.vview(v)),
    ;

    /// Horizontal maximum with `max`'s semantics folded over the lanes.
    fn reduce_max(self, v: Self::Vector) -> (r: T)
        ensures
            r == fold_max(self.vview(v)),
    ;

    /// Load exactly `lanes()` integers.
    fn iload(self, s: &[u32]) -> (r: Self::IVector)
        requires
            s@.len() == self.lanes_spec(),
        ensures
            self.iview(r) == s@,
    ;

    /// Store exactly `lanes()` integers.
    fn istore(self, v: Self::IVector, out: &mut [u32])
        requires
            old(out)@.len() == self.lanes_spec(),
        ensures
            final(out)@ == self.iview(v),
    ;

    /// Apply `f` to every integer lane.
    #[verifier::loop_isolation(false)]
    fn i_map(self, a: Self::IVector, f: impl Fn(u32) -> u32) -> (r: Self::IVector)
        requires
            forall|x: u32| #[trigger] f.requires((x,)),
        ensures
            self.iview(r).len() == self.lanes_spec(),
            forall|i: int|
                0 <= i < self.lanes_spec() ==> f.ensures((self.iview(a)[i],), #[trigger] self.iview(r)[i]),
    {
        proof {
            self.lemma_shape();
        }
        let n = self.lanes();
        let mut x: Vec<u32> = vec![0u32; n];
        self.istore(a, x.as_mut_slice());
        let mut i: usize = 0;
        while i < n
            invariant
                n == self.lanes_spec(),
                x@.len() == n,
                0 <= i <= n,
                forall|y: u32| #[trigger] f.requires((y,)),
                forall|j: int| 0 <= j < i ==> f.ensures((self.iview(a)[j],), #[trigger] x@[j]),
                forall|j: int| i <= j < n ==> x@[j] == self.iview(a)[j],
            decreases n - i,
        {
            let y = f(x[i]);
            x.set(i, y);
            i += 1;
        }
        self.iload(x.as_slice())
    }

    /// Combine two integer registers lane by lane with `f`.
    #[verifier::loop_isolation(false)]
    fn i_zip(self, a: Self::IVector, b: Self::IVector, f: impl Fn(u32, u32) -> u32) -> (r:
        Self::IVector)
        requires
            forall|x: u32, y: u32| #[trigger] f.requires((x, y)),
        ensures
            self.iview(r).len() == self.lanes_spec(),
            forall|i: int|
                0 <= i < self.lanes_spec() ==> f.ensures(
                    (self.iview(a)[i], self.iview(b)[i]),
                    #[trigger] self.iview(r)[i],
                ),
    {
        proof {
            self.lemma_shape();
        }
        let n = self.lanes();
        let mut x: Vec<u32> = vec![0u32; n];
        let mut y: Vec<u32> = vec![0u32; n];
        self.istore(a, x.as_mut_slice());
        self.istore(b, y.as_mut_slice());
        let mut i: usize = 0;
        while i < n
            invariant
                n == self.lanes_spec(),
                x@.len() == n,
                y@ == self.iview(b),
                0 <= i <= n,
                forall|p: u32, q: u32| #[trigger] f.requires((p, q)),
                forall|j: int|
                    0 <= j < i ==> f.ensures((self.iview(a)[j], self.iview(b)[j]), #[trigger] x@[j]),
                forall|j: int| i <= j < n ==> x@[j] == self.iview(a)[j],
            decreases n - i,
        {
            let z = f(x[i], y[i]);
            x.set(i, z);
            i += 1;
        }
        self.iload(x.as_slice())
    }

    /// Build a mask from a per-lane integer predicate, through a `1`/`0` element image and a
    /// `gt` compare.
    #[verifier::loop_isolation(false)]
    fn i_cmp(self, a: Self::IVector, b: Self::IVector, f: impl Fn(u32, u32) -> bool) -> (r:
        Self::Mask)
        requires
            forall|x: u32, y: u32| #[trigger] f.requires((x, y)),
        ensures
            self.mview(r).len() == self.lanes_spec(),
            forall|i: int|
                0 <= i < self.lanes_spec() ==> f.ensures(
                    (self.iview(a)[i], self.iview(b)[i]),
                    #[trigger] self.mview(r)[i],
                ),
    {
        proof {
            self.lemma_shape();
            T::lemma_zero_one();
        }
        let n = self.lanes();
        let mut x: Vec<u32> = vec![0u32; n];
        let mut y: Vec<u32> = vec![0u32; n];
        self.istore(a, x.as_mut_slice());
        self.istore(b, y.as_mut_slice());
        let mut sel: Vec<T> = filled(T::zero(), n);
        let mut i: usize = 0;
        while i < n
            invariant
                n == self.lanes_spec(),
                x@ == self.iview(a),
                y@ == self.iview(b),
                sel@.len() == n,
                0 <= i <= n,
                forall|p: u32, q: u32| #[trigger] f.requires((p, q)),
                forall|j: int|
                    0 <= j < i ==> (#[trigger] sel@[j] == T::one_spec() && f.ensures(
                        (x@[j], y@[j]),
                        true,
                    )) || (sel@[j] == T::zero_spec() && f.ensures((x@[j], y@[j]), false)),
                forall|j: int| i <= j < n ==> sel@[j] == T::zero_spec(),
            decreases n - i,
        {
            let xi = x[i];
            let yi = y[i];
            let hit = f(xi, yi);
            if hit {
                sel.set(i, T::one());
            }
            proof {
                assert forall|j: int| 0 <= j < i + 1 implies (#[trigger] sel@[j] == T::one_spec()
                    && f.ensures((x@[j], y@[j]), true)) || (sel@[j] == T::zero_spec() && f.ensures(
                    (x@[j], y@[j]),
                    false,
                )) by {
                    if j == i {
                        assert(x@[j] == xi && y@[j] == yi);
                    }
                }
            }
            i += 1;
        }
        let r = self.gt(self.load(sel.as_slice()), self.splat(T::zero()));
        proof {
            assert forall|i: int| 0 <= i < self.lanes_spec() implies f.ensures(
                (self.iview(a)[i], self.iview(b)[i]),
                #[trigger] self.mview(r)[i],
            ) by {
                assert(self.mview(r)[i] == T::zero_spec().lt_spec(sel@[i]));
            }
        }
        r
    }

    fn isplat(self, v: u32) -> (r: Self::IVector)
        ensures
            self.iview(r) == Seq::new(self.lanes_spec(), |i: int| v),
    {
        proof {
            self.lemma_shape();
        }
        let buf: Vec<u32> = vec![v; self.lanes()];
        let r = self.iload(buf.as_slice());
        proof {
            assert(self.iview(r) =~= Seq::new(self.lanes_spec(), |i: int| v));
        }
        r
    }

    /// Lane indices `0, 1, …, lanes()-1`.
    #[verifier::loop_isolation(false)]
    fn iramp(self) -> (r: Self::IVector)
        ensures
            self.iview(r) == Seq::new(self.lanes_spec(), |i: int| i as u32),
    {
        proof {
            self.lemma_shape();
        }
        let n = self.lanes();
        let mut buf: Vec<u32> = vec![0u32; n];
        let mut i: usize = 0;
        while i < n
            invariant
                n == self.lanes_spec(),
                n <= 32,
                buf@.len() == n,
                0 <= i <= n,
                forall|j: int| 0 <= j < i ==> buf@[j] == j as u32,
            decreases n - i,
        {
            buf.set(i, i as u32);
            i += 1;
        }
        let r = self.iload(buf.as_slice());
        proof {
            assert(self.iview(r) =~= Seq::new(self.lanes_spec(), |i: int| i as u32));
        }
        r
    }

    /// Wrapping lane-wise addition.
    fn iadd(self, a: Self::IVector, b: Self::IVector) -> (r: Self::IVector)
        ensures
            self.iview(r) == Seq::new(
                self.lanes_spec(),
                |i: int| wadd32(self.iview(a)[i], self.iview(b)[i]),
            ),
    {
        let r = self.i_zip(
            a,
            b,
            |x: u32, y: u32| -> (z: u32) ensures z == wadd32(x, y) { x.wrapping_add(y) },
        );
        proof {
            assert(self.iview(r) =~= Seq::new(
                self.lanes_spec(),
                |i: int| wadd32(self.iview(a)[i], self.iview(b)[i]),
            ));
        }
        r
    }

    /// Wrapping lane-wise subtraction.
    fn isub(self, a: Self::IVector, b: Self::IVector) -> (r: Self::IVector)
        ensures
            self.iview(r) == Seq::new(
                self.lanes_spec(),
                |i: int| wsub32(self.iview(a)[i], self.iview(b)[i]),
            ),
    {
        let r = self.i_zip(
            a,
            b,
            |x: u32, y: u32| -> (z: u32) ensures z == wsub32(x, y) { x.wrapping_sub(y) },
        );
        proof {
            assert(self.iview(r) =~= Seq::new(
                self.lanes_spec(),
                |i: int| wsub32(self.iview(a)[i], self.iview(b)[i]),
            ));
        }
        r
    }

    /// Low 32 bits of the lane-wise product (identical for `u32` and `i32`).
    fn imul(self, a: Self::IVector, b: Self::IVector) -> (r: Self::IVector)
        ensures
            self.iview(r) == Seq::new(
                self.lanes_spec(),
                |i: int| wmul32(self.iview(a)[i], self.iview(b)[i]),
            ),
    {
        let r = self.i_zip(
            a,
            b,
            |x: u32, y: u32| -> (z: u32) ensures z == wmul32(x, y) { x.wrapping_mul(y) },
        );
        proof {
            assert(self.iview(r) =~= Seq::new(
                self.lanes_spec(),
                |i: int| wmul32(self.iview(a)[i], self.iview(b)[i]),
            ));
        }
        r
    }

    fn iand(self, a: Self::IVector, b: Self::IVector) -> (r: Self::IVector)
        ensures
            self.iview(r) == Seq::new(
                self.lanes_spec(),
                |i: int| self.iview(a)[i] & self.iview(b)[i],
            ),
    {
        let r = self.i_zip(a, b, |x: u32, y: u32| -> (z: u32) ensures z == x & y { x & y });
        proof {
            assert(self.iview(r) =~= Seq::new(
                self.lanes_spec(),
                |i: int| self.iview(a)[i] & self.iview(b)[i],
            ));
        }
        r
    }

    fn ior(self, a: Self::IVector, b: Self::IVector) -> (r: Self::IVector)
        ensures
            self.iview(r) == Seq::new(
                self.lanes_spec(),
                |i: int| self.iview(a)[i] | self.iview(b)[i],
            ),
    {
        let r = self.i_zip(a, b, |x: u32, y: u32| -> (z: u32) ensures z == x | y { x | y });
        proof {
            assert(self.iview(r) =~= Seq::new(
                self.lanes_spec(),
                |i: int| self.iview(a)[i] | self.iview(b)[i],
            ));
        }
        r
    }

    fn ixor(self, a: Self::IVector, b: Self::IVector) -> (r: Self::IVector)
        ensures
            self.iview(r) == Seq::new(
                self.lanes_spec(),
                |i: int| self.iview(a)[i] ^ self.iview(b)[i],
            ),
    {
        let r = self.i_zip(a, b, |x: u32, y: u32| -> (z: u32) ensures z == x ^ y { x ^ y });
        proof {
            assert(self.iview(r) =~= Seq::new(
                self.lanes_spec(),
                |i: int| self.iview(a)[i] ^ self.iview(b)[i],
            ));
        }
        r
    }

    fn inot(self, a: Self::IVector) -> (r: Self::IVector)
        ensures
            self.iview(r) == Seq::new(self.lanes_spec(), |i: int| !self.iview(a)[i]),
    {
        let r = self.i_map(a, |x: u32| -> (z: u32) ensures z == !x { !x });
        proof {
            assert(self.iview(r) =~= Seq::new(self.lanes_spec(), |i: int| !self.iview(a)[i]));
        }
        r
    }

    /// Lane-wise shift left by a uniform count `k < 32`.
    fn ishl(self, a: Self::IVector, k: u32) -> (r: Self::IVector)
        requires
            k < 32,
        ensures
            self.iview(r) == Seq::new(self.lanes_spec(), |i: int| self.iview(a)[i] << k),
    {
        let r = self.i_map(a, |x: u32| -> (z: u32) ensures z == x << k { x << k });
        proof {
            assert(self.iview(r) =~= Seq::new(self.lanes_spec(), |i: int| self.iview(a)[i] << k));
        }
        r
    }

    /// Logical (zero-filling) right shift by `k < 32`.
    fn ishr(self, a: Self::IVector, k: u32) -> (r: Self::IVector)
        requires
            k < 32,
        ensures
            self.iview(r) == Seq::new(self.lanes_spec(), |i: int| self.iview(a)[i] >> k),
    {
        let r = self.i_map(a, |x: u32| -> (z: u32) ensures z == x >> k { x >> k });
        proof {
            assert(self.iview(r) =~= Seq::new(self.lanes_spec(), |i: int| self.iview(a)[i] >> k));
        }
        r
    }

    /// Arithmetic (sign-filling) right shift by `k < 32`, for the `i32` view.
    fn ishr_arith(self, a: Self::IVector, k: u32) -> (r: Self::IVector)
        requires
            k < 32,
        ensures
            self.iview(r) == Seq::new(
                self.lanes_spec(),
                |i: int| ((self.iview(a)[i] as i32) >> k) as u32,
            ),
    {
        let r = self.i_map(
            a,
            |x: u32| -> (z: u32) ensures z == ((x as i32) >> k) as u32 { ((x as i32) >> k) as u32 },
        );
        proof {
            assert(self.iview(r) =~= Seq::new(
                self.lanes_spec(),
                |i: int| ((self.iview(a)[i] as i32) >> k) as u32,
            ));
        }
        r
    }

    fn ieq(self, a: Self::IVector, b: Self::IVector) -> (r: Self::Mask)
        ensures
            self.mview(r) == Seq::new(
                self.lanes_spec(),
                |i: int| self.iview(a)[i] == self.iview(b)[i],
            ),
    {
        let r = self.i_cmp(a, b, |x: u32, y: u32| -> (z: bool) ensures z == (x == y) { x == y });
        proof {
            assert(self.mview(r) =~= Seq::new(
                self.lanes_spec(),
                |i: int| self.iview(a)[i] == self.iview(b)[i],
            ));
        }
        r
    }

    /// Unsigned lane-wise `<`.
    fn ilt_u(self, a: Self::IVector, b: Self::IVector) -> (r: Self::Mask)
        ensures
            self.mview(r) == Seq::new(
                self.lanes_spec(),
                |i: int| self.iview(a)[i] < self.iview(b)[i],
            ),
    {
        let r = self.i_cmp(a, b, |x: u32, y: u32| -> (z: bool) ensures z == (x < y) { x < y });
        proof {
            assert(self.mview(r) =~= Seq::new(
                self.lanes_spec(),
                |i: int| self.iview(a)[i] < self.iview(b)[i],
            ));
        }
        r
    }

    /// Signed lane-wise `<` (the `i32` view).
    fn ilt_s(self, a: Self::IVector, b: Self::IVector) -> (r: Self::Mask)
        ensures
            self.mview(r) == Seq::new(
                self.lanes_spec(),
                |i: int| signed(self.iview(a)[i]) < signed(self.iview(b)[i]),
            ),
    {
        let r = self.i_cmp(
            a,
            b,
            |x: u32, y: u32| -> (z: bool) ensures z == (signed(x) < signed(y)) { signed_lt(x, y) },
        );
        proof {
            assert(self.mview(r) =~= Seq::new(
                self.lanes_spec(),
                |i: int| signed(self.iview(a)[i]) < signed(self.iview(b)[i]),
            ));
        }
        r
    }

    /// `m ? a : b` on integer lanes, with the mask the float compares produce.
    #[verifier::loop_isolation(false)]
    fn iselect(self, m: Self::Mask, a: Self::IVector, b: Self::IVector) -> (r: Self::IVector)
        ensures
            self.iview(r) == Seq::new(
                self.lanes_spec(),
                |i: int|
                    if self.mview(m)[i] {
                        self.iview(a)[i]
                    } else {
                        self.iview(b)[i]
                    },
            ),
    {
        proof {
            self.lemma_shape();
        }
        let n = self.lanes();
        let mut x: Vec<u32> = vec![0u32; n];
        let mut y: Vec<u32> = vec![0u32; n];
        self.istore(a, x.as_mut_slice());
        self.istore(b, y.as_mut_slice());
        let bits = self.mask_bitmask(m);
        let mut i: usize = 0;
        while i < n
            invariant
                n == self.lanes_spec(),
                n <= 32,
                x@.len() == n,
                y@ == self.iview(b),
                packs(bits, self.mview(m)),
                self.mview(m).len() == n,
                0 <= i <= n,
                forall|j: int|
                    0 <= j < i ==> x@[j] == (if self.mview(m)[j] {
                        self.iview(a)[j]
                    } else {
                        self.iview(b)[j]
                    }),
                forall|j: int| i <= j < n ==> x@[j] == self.iview(a)[j],
            decreases n - i,
        {
            proof {
                lemma_test_bit(bits, i as u32);
            }
            if bits & (1u32 << (i as u32)) == 0 {
                let v = y[i];
                x.set(i, v);
            }
            i += 1;
        }
        let r = self.iload(x.as_slice());
        proof {
            assert(self.iview(r) =~= Seq::new(
                self.lanes_spec(),
                |i: int|
                    if self.mview(m)[i] {
                        self.iview(a)[i]
                    } else {
                        self.iview(b)[i]
                    },
            ));
        }
        r
    }

    /// Reinterpret each lane's bit pattern as a `u32` lane.
    #[verifier::loop_isolation(false)]
    fn to_bits(self, v: Self::Vector) -> (r: Self::IVector)
        ensures
            self.iview(r) == Seq::new(self.lanes_spec(), |i: int| self.vview(v)[i].to_bits_spec()),
    {
        proof {
            self.lemma_shape();
        }
        let n = self.lanes();
        let mut f: Vec<T> = filled(T::zero(), n);
        self.store(v, f.as_mut_slice());
        let mut u: Vec<u32> = vec![0u32; n];
        let mut i: usize = 0;
        while i < n
            invariant
                n == self.lanes_spec(),
                f@ == self.vview(v),
                u@.len() == n,
                0 <= i <= n,
                forall|j: int| 0 <= j < i ==> u@[j] == f@[j].to_bits_spec(),
            decreases n - i,
        {
            let b = f[i].to_bits32();
            u.set(i, b);
            i += 1;
        }
        let r = self.iload(u.as_slice());
        proof {
            assert(self.iview(r) =~= Seq::new(
                self.lanes_spec(),
                |i: int| self.vview(v)[i].to_bits_spec(),
            ));
        }
        r
    }

    /// Inverse of `to_bits`.
    #[verifier::loop_isolation(false)]
    fn from_bits(self, v: Self::IVector) -> (r: Self::Vector)
        ensures
            self.vview(r) == Seq::new(
                self.lanes_spec(),
                |i: int| T::from_bits_spec(self.iview(v)[i]),
            ),
    {
        proof {
            self.lemma_shape();
        }
        let n = self.lanes();
        let mut u: Vec<u32> = vec![0u32; n];
        self.istore(v, u.as_mut_slice());
        let mut f: Vec<T> = filled(T::zero(), n);
        let mut i: usize = 0;
        while i < n
            invariant
                n == self.lanes_spec(),
                u@ == self.iview(v),
                f@.len() == n,
                0 <= i <= n,
                forall|j: int| 0 <= j < i ==> f@[j] == T::from_bits_spec(u@[j]),
            decreases n - i,
        {
            let x = T::from_bits32(u[i]);
            f.set(i, x);
            i += 1;
        }
        let r = self.load(f.as_slice());
        proof {
            assert(self.vview(r) =~= Seq::new(
                self.lanes_spec(),
                |i: int| T::from_bits_spec(self.iview(v)[i]),
            ));
        }
        r
    }
}

proof fn lemma_bool_bits(m: bool)
    ensures
        packs(m as u32, seq![m]),
{
    lemma_zero_bits();
    let one = 1u32;
    assert forall|j: int| 0 <= j < 32 implies #[trigger] bit(one, j) == (j == 0) by {
        let ju = j as u32;
        assert((((one >> ju) & 1) == 1) == (ju == 0)) by (bit_vector)
            requires
                one == 1,
        ;
    }
    if m {
        assert((m as u32) == one);
    } else {
        assert((m as u32) == 0u32);
    }
}

/// The always-available 1-lane backend: `Vector = T`, `Mask = bool`, `IVector = u32`, for every
/// element `T`. It is the correctness oracle the wider backends are held to.
#[derive(Clone, Copy, Debug, Default)]
pub struct ScalarBackend;

impl<T: Scalar> Backend<T> for ScalarBackend {
    type Vector = T;

    type Mask = bool;

    type IVector = u32;

    open spec fn lanes_spec(self) -> nat {
        1
    }

    open spec fn vview(self, v: T) -> Seq<T> {
        seq![v]
    }

    open spec fn mview(self, m: bool) -> Seq<bool> {
        seq![m]
    }

    open spec fn iview(self, v: u32) -> Seq<u32> {
        seq![v]
    }

    open spec fn unroll_spec(self) -> nat {
        1
    }

    proof fn lemma_shape(self) {
        assert forall|m: bool| #[trigger] <ScalarBackend as Backend<T>>::mview(self, m).len() == 1 by {
            assert(<ScalarBackend as Backend<T>>::mview(self, m) == seq![m]);
        }
    }

    /// One lane, one chain: a scalar add chain has nothing to interleave.
    fn unroll(self) -> usize {
        1
    }

    fn lanes(self) -> usize {
        1
    }

    fn splat(self, v: T) -> T {
        proof {
            assert(seq![v] =~= Seq::new(1, |i: int| v));
        }
        v
    }

    fn load(self, s: &[T]) -> T {
        proof {
            assert(seq![s@[0]] =~= s@);
        }
        s[0]
    }

    fn store(self, v: T, s: &mut [T]) {
        s[0] = v;
        proof {
            assert(s@ =~= seq![v]);
        }
    }

    fn add(self, a: T, b: T) -> T {
        let r = a.wadd(b);
        proof {
            assert(seq![r] =~= Seq::new(1, |i: int| seq![a][i].add_spec(seq![b][i])));
        }
        r
    }

    fn sub(self, a: T, b: T) -> T {
        let r = a.wsub(b);
        proof {
            assert(seq![r] =~= Seq::new(1, |i: int| seq![a][i].sub_spec(seq![b][i])));
        }
        r
    }

    fn mul(self, a: T, b: T) -> T {
        let r = a.wmul(b);
        proof {
            assert(seq![r] =~= Seq::new(1, |i: int| seq![a][i].mul_spec(seq![b][i])));
        }
        r
    }

    fn div(self, a: T, b: T) -> T where T: FloatScalar {
        let r = a.div(b);
        proof {
            assert(seq![r] =~= Seq::new(1, |i: int| seq![a][i].div_spec(seq![b][i])));
        }
        r
    }

    fn neg(self, a: T) -> T {
        let r = a.neg();
        proof {
            assert(seq![r] =~= Seq::new(1, |i: int| seq![a][i].neg_spec()));
        }
        r
    }

    fn abs(self, a: T) -> T {
        let r = a.abs();
        proof {
            assert(seq![r] =~= Seq::new(1, |i: int| seq![a][i].abs_spec()));
        }
        r
    }

    fn fma(self, a: T, b: T, c: T) -> T where T: FloatScalar {
        let r = a.fma(b, c);
        proof {
            assert(seq![r] =~= Seq::new(1, |i: int| seq![a][i].fma_spec(seq![b][i], seq![c][i])));
        }
        r
    }

    fn sqrt(self, a: T) -> T where T: FloatScalar {
        let r = a.sqrt();
        proof {
            assert(seq![r] =~= Seq::new(1, |i: int| seq![a][i].sqrt_spec()));
        }
        r
    }

    fn shl(self, a: T, k: u32) -> T where T: IntScalar {
        let r = a.unsigned_shl(k);
        proof {
            assert(seq![r] =~= Seq::new(1, |i: int| seq![a][i].shl_spec(k)));
        }
        r
    }

    fn shr(self, a: T, k: u32) -> T where T: IntScalar {
        let r = a.shr(k);
        proof {
            assert(seq![r] =~= Seq::new(1, |i: int| seq![a][i].shr_spec(k)));
        }
        r
    }

    fn bit_and(self, a: T, b: T) -> T where T: IntScalar {
        let r = a.bit_and(b);
        proof {
            assert(seq![r] =~= Seq::new(1, |i: int| seq![a][i].and_spec(seq![b][i])));
        }
        r
    }

    fn bit_or(self, a: T, b: T) -> T where T: IntScalar {
        let r = a.bit_or(b);
        proof {
            assert(seq![r] =~= Seq::new(1, |i: int| seq![a][i].or_spec(seq![b][i])));
        }
        r
    }

    fn bit_xor(self, a: T, b: T) -> T where T: IntScalar {
        let r = a.bit_xor(b);
        proof {
            assert(seq![r] =~= Seq::new(1, |i: int| seq![a][i].xor_spec(seq![b][i])));
        }
        r
    }

    fn bit_not(self, a: T) -> T where T: IntScalar {
        let r = a.bit_not();
        proof {
            assert(seq![r] =~= Seq::new(1, |i: int| seq![a][i].not_spec()));
        }
        r
    }

    /// The element's own `min` is the family-correct oracle: minimumNumber for floats, `Ord` for
    /// integers.
    fn min(self, a: T, b: T) -> T {
        let r = a.min(b);
        proof {
            assert(seq![r] =~= Seq::new(1, |i: int| seq![a][i].min_spec(seq![b][i])));
        }
        r
    }

    fn max(self, a: T, b: T) -> T {
        let r = a.max(b);
        proof {
            assert(seq![r] =~= Seq::new(1, |i: int| seq![a][i].max_spec(seq![b][i])));
        }
        r
    }

    fn le(self, a: T, b: T) -> bool {
        let r = a.le(b);
        proof {
            assert(seq![r] =~= Seq::new(1, |i: int| seq![a][i].le_spec(seq![b][i])));
        }
        r
    }

    fn lt(self, a: T, b: T) -> bool {
        let r = a.lt(b);
        proof {
            assert(seq![r] =~= Seq::new(1, |i: int| seq![a][i].lt_spec(seq![b][i])));
        }
        r
    }

    fn ge(self, a: T, b: T) -> bool {
        let r = b.le(a);
        proof {
            assert(seq![r] =~= Seq::new(1, |i: int| seq![b][i].le_spec(seq![a][i])));
        }
        r
    }

    fn gt(self, a: T, b: T) -> bool {
        let r = b.lt(a);
        proof {
            assert(seq![r] =~= Seq::new(1, |i: int| seq![b][i].lt_spec(seq![a][i])));
        }
        r
    }

    fn mask_and(self, a: bool, b: bool) -> bool {
        let r = a && b;
        proof {
            assert(seq![r] =~= Seq::new(1, |i: int| seq![a][i] && seq![b][i]));
        }
        r
    }

    fn mask_or(self, a: bool, b: bool) -> bool {
        let r = a || b;
        proof {
            assert(seq![r] =~= Seq::new(1, |i: int| seq![a][i] || seq![b][i]));
        }
        r
    }

    fn mask_not(self, a: bool) -> bool {
        let r = !a;
        proof {
            assert(seq![r] =~= Seq::new(1, |i: int| !seq![a][i]));
        }
        r
    }

    fn select(self, m: bool, a: T, b: T) -> T {
        let r = if m {
            a
        } else {
            b
        };
        proof {
            assert(seq![r] =~= Seq::new(
                1,
                |i: int|
                    if seq![m][i] {
                        seq![a][i]
                    } else {
                        seq![b][i]
                    },
            ));
        }
        r
    }

    fn any(self, m: bool) -> bool {
        proof {
            let v = <ScalarBackend as Backend<T>>::mview(self, m);
            assert(v == seq![m]);
            assert(v[0] == m);
        }
        m
    }

    fn all(self, m: bool) -> bool {
        proof {
            let v = <ScalarBackend as Backend<T>>::mview(self, m);
            assert(v == seq![m]);
            assert(v[0] == m);
        }
        m
    }

    fn mask_bitmask(self, m: bool) -> u32 {
        proof {
            lemma_bool_bits(m);
        }
        m as u32
    }

    fn reduce_sum(self, v: T) -> T {
        v
    }

    fn reduce_min(self, v: T) -> T {
        v
    }

    fn reduce_max(self, v: T) -> T {
        v
    }

    fn iload(self, s: &[u32]) -> u32 {
        proof {
            assert(seq![s@[0]] =~= s@);
        }
        s[0]
    }

    fn istore(self, v: u32, out: &mut [u32]) {
        out[0] = v;
        proof {
            assert(out@ =~= seq![v]);
        }
    }
}

/// `from_bits` undoes `to_bits` for elements of at most 32 bits: lane for lane, the vector read
/// back from a vector's bit images (`bits` as [`Backend::to_bits`] gives it, `back` as
/// [`Backend::from_bits`] gives it) is that vector.
pub proof fn lemma_from_bits_undoes_to_bits<T: Scalar, B: Backend<T>>(
    b: B,
    v: B::Vector,
    bits: B::IVector,
    back: B::Vector,
)
    requires
        T::bit_width() <= 32,
        b.iview(bits) == Seq::new(b.lanes_spec(), |i: int| b.vview(v)[i].to_bits_spec()),
        b.vview(back) == Seq::new(b.lanes_spec(), |i: int| T::from_bits_spec(b.iview(bits)[i])),
    ensures
        b.vview(back) == b.vview(v),
{
    b.lemma_shape();
    assert forall|i: int| 0 <= i < b.lanes_spec() implies #[trigger] b.vview(back)[i] == b.vview(v)[i] by {
        T::lemma_bits_round_trip(b.vview(v)[i]);
    }
}

/// A backend `B` re-stamped with a compile-time unroll factor `K`. Every operation delegates to
/// `B`, so the lane views and every lane-wise contract are `B`'s; the only thing it changes is the
/// unroll factor, which becomes the const generic `K`.
#[derive(Clone, Copy, Debug)]
pub struct Unroll<B, const K: usize>(pub B);

impl<B, const K: usize> Unroll<B, K> {
    /// The re-stamped backend's views are the inner backend's.
    pub proof fn lemma_views<T: Scalar>(self) where B: Backend<T>
        ensures
            <Unroll<B, K> as Backend<T>>::lanes_spec(self) == self.0.lanes_spec(),
            forall|v: B::Vector| #[trigger] <Unroll<B, K> as Backend<T>>::vview(self, v) == self.0.vview(v),
            forall|m: B::Mask| #[trigger] <Unroll<B, K> as Backend<T>>::mview(self, m) == self.0.mview(m),
            forall|v: B::IVector| #[trigger] <Unroll<B, K> as Backend<T>>::iview(self, v) == self.0.iview(v),
    {
    }
}

impl<T: Scalar, B: Backend<T>, const K: usize> Backend<T> for Unroll<B, K> {
    type Vector = B::Vector;

    type Mask = B::Mask;

    type IVector = B::IVector;

    open spec fn lanes_spec(self) -> nat {
        self.0.lanes_spec()
    }

    open spec fn vview(self, v: B::Vector) -> Seq<T> {
        self.0.vview(v)
    }

    open spec fn mview(self, m: B::Mask) -> Seq<bool> {
        self.0.mview(m)
    }

    open spec fn iview(self, v: B::IVector) -> Seq<u32> {
        self.0.iview(v)
    }

    open spec fn unroll_spec(self) -> nat {
        K as nat
    }

    proof fn lemma_shape(self) {
        self.0.lemma_shape();
        Unroll::<B, K>::lemma_views::<T>(self);
        assert forall|v: B::Vector| #[trigger] <Unroll<B, K> as Backend<T>>::vview(self, v).len()
            == self.0.lanes_spec() by {
            assert(<Unroll<B, K> as Backend<T>>::vview(self, v) == self.0.vview(v));
        }
        assert forall|m: B::Mask| #[trigger] <Unroll<B, K> as Backend<T>>::mview(self, m).len()
            == self.0.lanes_spec() by {
            assert(<Unroll<B, K> as Backend<T>>::mview(self, m) == self.0.mview(m));
        }
        assert forall|v: B::IVector| #[trigger] <Unroll<B, K> as Backend<T>>::iview(self, v).len()
            == self.0.lanes_spec() by {
            assert(<Unroll<B, K> as Backend<T>>::iview(self, v) == self.0.iview(v));
        }
    }

    fn unroll(self) -> usize {
        K
    }

    fn lanes(self) -> usize {
        proof {
            Unroll::<B, K>::lemma_views::<T>(self);
        }
        self.0.lanes()
    }

    fn splat(self, v: T) -> Self::Vector {
        proof {
            Unroll::<B, K>::lemma_views::<T>(self);
        }
        self.0.splat(v)
    }

    fn load(self, s: &[T]) -> Self::Vector {
        proof {
            Unroll::<B, K>::lemma_views::<T>(self);
        }
        self.0.load(s)
    }

    fn store(self, v: Self::Vector, s: &mut [T]) {
        proof {
            Unroll::<B, K>::lemma_views::<T>(self);
        }
        self.0.store(v, s)
    }

    fn add(self, a: Self::Vector, b: Self::Vector) -> Self::Vector {
        proof {
            Unroll::<B, K>::lemma_views::<T>(self);
        }
        self.0.add(a, b)
    }

    fn sub(self, a: Self::Vector, b: Self::Vector) -> Self::Vector {
        proof {
            Unroll::<B, K>::lemma_views::<T>(self);
        }
        self.0.sub(a, b)
    }

    fn mul(self, a: Self::Vector, b: Self::Vector) -> Self::Vector {
        proof {
            Unroll::<B, K>::lemma_views::<T>(self);
        }
        self.0.mul(a, b)
    }

    fn div(self, a: Self::Vector, b: Self::Vector) -> Self::Vector where T: FloatScalar {
        proof {
            Unroll::<B, K>::lemma_views::<T>(self);
        }
        self.0.div(a, b)
    }

    fn neg(self, a: Self::Vector) -> Self::Vector {
        proof {
            Unroll::<B, K>::lemma_views::<T>(self);
        }
        self.0.neg(a)
    }

    fn fma(self, a: Self::Vector, b: Self::Vector, c: Self::Vector) -> Self::Vector where T: FloatScalar {
        proof {
            Unroll::<B, K>::lemma_views::<T>(self);
        }
        self.0.fma(a, b, c)
    }

    fn sqrt(self, a: Self::Vector) -> Self::Vector where T: FloatScalar {
        proof {
            Unroll::<B, K>::lemma_views::<T>(self);
        }
        self.0.sqrt(a)
    }

    fn madd(self, a: Self::Vector, b: Self::Vector, acc: Self::Vector) -> Self::Vector {
        proof {
            Unroll::<B, K>::lemma_views::<T>(self);
        }
        self.0.madd(a, b, acc)
    }

    fn shl(self, a: Self::Vector, k: u32) -> Self::Vector where T: IntScalar {
        proof {
            Unroll::<B, K>::lemma_views::<T>(self);
        }
        self.0.shl(a, k)
    }

    fn shr(self, a: Self::Vector, k: u32) -> Self::Vector where T: IntScalar {
        proof {
            Unroll::<B, K>::lemma_views::<T>(self);
        }
        self.0.shr(a, k)
    }

    fn bit_and(self, a: Self::Vector, b: Self::Vector) -> Self::Vector where T: IntScalar {
        proof {
            Unroll::<B, K>::lemma_views::<T>(self);
        }
        self.0.bit_and(a, b)
    }

    fn bit_or(self, a: Self::Vector, b: Self::Vector) -> Self::Vector where T: IntScalar {
        proof {
            Unroll::<B, K>::lemma_views::<T>(self);
        }
        self.0.bit_or(a, b)
    }

    fn bit_xor(self, a: Self::Vector, b: Self::Vector) -> Self::Vector where T: IntScalar {
        proof {
            Unroll::<B, K>::lemma_views::<T>(self);
        }
        self.0.bit_xor(a, b)
    }

    fn bit_not(self, a: Self::Vector) -> Self::Vector where T: IntScalar {
        proof {
            Unroll::<B, K>::lemma_views::<T>(self);
        }
        self.0.bit_not(a)
    }

    fn abs(self, a: Self::Vector) -> Self::Vector {
        proof {
            Unroll::<B, K>::lemma_views::<T>(self);
        }
        self.0.abs(a)
    }

    fn min(self, a: Self::Vector, b: Self::Vector) -> Self::Vector {
        proof {
            Unroll::<B, K>::lemma_views::<T>(self);
        }
        self.0.min(a, b)
    }

    fn max(self, a: Self::Vector, b: Self::Vector) -> Self::Vector {
        proof {
            Unroll::<B, K>::lemma_views::<T>(self);
        }
        self.0.max(a, b)
    }

    fn le(self, a: Self::Vector, b: Self::Vector) -> Self::Mask {
        proof {
            Unroll::<B, K>::lemma_views::<T>(self);
        }
        self.0.le(a, b)
    }

    fn lt(self, a: Self::Vector, b: Self::Vector) -> Self::Mask {
        proof {
            Unroll::<B, K>::lemma_views::<T>(self);
        }
        self.0.lt(a, b)
    }

    fn ge(self, a: Self::Vector, b: Self::Vector) -> Self::Mask {
        proof {
            Unroll::<B, K>::lemma_views::<T>(self);
        }
        self.0.ge(a, b)
    }

    fn gt(self, a: Self::Vector, b: Self::Vector) -> Self::Mask {
        proof {
            Unroll::<B, K>::lemma_views::<T>(self);
        }
        self.0.gt(a, b)
    }

    fn mask_and(self, a: Self::Mask, b: Self::Mask) -> Self::Mask {
        proof {
            Unroll::<B, K>::lemma_views::<T>(self);
        }
        self.0.mask_and(a, b)
    }

    fn mask_or(self, a: Self::Mask, b: Self::Mask) -> Self::Mask {
        proof {
            Unroll::<B, K>::lemma_views::<T>(self);
        }
        self.0.mask_or(a, b)
    }

    fn mask_not(self, a: Self::Mask) -> Self::Mask {
        proof {
            Unroll::<B, K>::lemma_views::<T>(self);
        }
        self.0.mask_not(a)
    }

    fn select(self, m: Self::Mask, a: Self::Vector, b: Self::Vector) -> Self::Vector {
        proof {
            Unroll::<B, K>::lemma_views::<T>(self);
        }
        self.0.select(m, a, b)
    }

    fn any(self, m: Self::Mask) -> bool {
        proof {
            assert(<Unroll<B, K> as Backend<T>>::mview(self, m) == self.0.mview(m));
        }
        self.0.any(m)
    }

    fn all(self, m: Self::Mask) -> bool {
        proof {
            assert(<Unroll<B, K> as Backend<T>>::mview(self, m) == self.0.mview(m));
        }
        self.0.all(m)
    }

    fn mask_bitmask(self, m: Self::Mask) -> u32 {
        proof {
            Unroll::<B, K>::lemma_views::<T>(self);
        }
        self.0.mask_bitmask(m)
    }

    fn reduce_sum(self, v: Self::Vector) -> T {
        proof {
            Unroll::<B, K>::lemma_views::<T>(self);
        }
        self.0.reduce_sum(v)
    }

    fn reduce_min(self, v: Self::Vector) -> T {
        proof {
            Unroll::<B, K>::lemma_views::<T>(self);
        }
        self.0.reduce_min(v)
    }

    fn reduce_max(self, v: Self::Vector) -> T {
        proof {
            Unroll::<B, K>::lemma_views::<T>(self);
        }
        self.0.reduce_max(v)
    }

    fn iload(self, s: &[u32]) -> Self::IVector {
        proof {
            Unroll::<B, K>::lemma_views::<T>(self);
        }
        self.0.iload(s)
    }

    fn istore(self, v: Self::IVector, out: &mut [u32]) {
        proof {
            Unroll::<B, K>::lemma_views::<T>(self);
        }
        self.0.istore(v, out)
    }

    fn isplat(self, v: u32) -> Self::IVector {
        proof {
            Unroll::<B, K>::lemma_views::<T>(self);
        }
        self.0.isplat(v)
    }

    fn iramp(self) -> Self::IVector {
        proof {
            Unroll::<B, K>::lemma_views::<T>(self);
        }
        self.0.iramp()
    }

    fn iadd(self, a: Self::IVector, b: Self::IVector) -> Self::IVector {
        proof {
            Unroll::<B, K>::lemma_views::<T>(self);
        }
        self.0.iadd(a, b)
    }

    fn isub(self, a: Self::IVector, b: Self::IVector) -> Self::IVector {
        proof {
            Unroll::<B, K>::lemma_views::<T>(self);
        }
        self.0.isub(a, b)
    }

    fn imul(self, a: Self::IVector, b: Self::IVector) -> Self::IVector {
        proof {
            Unroll::<B, K>::lemma_views::<T>(self);
        }
        self.0.imul(a, b)
    }

    fn iand(self, a: Self::IVector, b: Self::IVector) -> Self::IVector {
        proof {
            Unroll::<B, K>::lemma_views::<T>(self);
        }
        self.0.iand(a, b)
    }

    fn ior(self, a: Self::IVector, b: Self::IVector) -> Self::IVector {
        proof {
            Unroll::<B, K>::lemma_views::<T>(self);
        }
        self.0.ior(a, b)
    }

    fn ixor(self, a: Self::IVector, b: Self::IVector) -> Self::IVector {
        proof {
            Unroll::<B, K>::lemma_views::<T>(self);
        }
        self.0.ixor(a, b)
    }

    fn inot(self, a: Self::IVector) -> Self::IVector {
        proof {
            Unroll::<B, K>::lemma_views::<T>(self);
        }
        self.0.inot(a)
    }

    fn ishl(self, a: Self::IVector, k: u32) -> Self::IVector {
        proof {
            Unroll::<B, K>::lemma_views::<T>(self);
        }
        self.0.ishl(a, k)
    }

    fn ishr(self, a: Self::IVector, k: u32) -> Self::IVector {
        proof {
            Unroll::<B, K>::lemma_views::<T>(self);
        }
        self.0.ishr(a, k)
    }

    fn ishr_arith(self, a: Self::IVector, k: u32) -> Self::IVector {
        proof {
            Unroll::<B, K>::lemma_views::<T>(self);
        }
        self.0.ishr_arith(a, k)
    }

    fn ieq(self, a: Self::IVector, b: Self::IVector) -> Self::Mask {
        proof {
            Unroll::<B, K>::lemma_views::<T>(self);
        }
        self.0.ieq(a, b)
    }

    fn ilt_u(self, a: Self::IVector, b: Self::IVector) -> Self::Mask {
        proof {
            Unroll::<B, K>::lemma_views::<T>(self);
        }
        self.0.ilt_u(a, b)
    }

    fn ilt_s(self, a: Self::IVector, b: Self::IVector) -> Self::Mask {
        proof {
            Unroll::<B, K>::lemma_views::<T>(self);
        }
        self.0.ilt_s(a, b)
    }

    fn iselect(self, m: Self::Mask, a: Self::IVector, b: Self::IVector) -> Self::IVector {
        proof {
            Unroll::<B, K>::lemma_views::<T>(self);
        }
        self.0.iselect(m, a, b)
    }

    fn to_bits(self, v: Self::Vector) -> Self::IVector {
        proof {
            Unroll::<B, K>::lemma_views::<T>(self);
        }
        self.0.to_bits(v)
    }

    fn from_bits(self, v: Self::IVector) -> Self::Vector {
        proof {
            Unroll::<B, K>::lemma_views::<T>(self);
        }
        self.0.from_bits(v)
    }
}

} // verus!
