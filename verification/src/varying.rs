//! The SPMD "gang" context a kernel runs in: a backend token plus the varying-register helpers
//! the dense routines are written with (partial loads and stores, lane-parallel reductions and
//! element-wise updates). Reductions keep one accumulator register whose lanes each fold their
//! own strided slice of the input; the register is reduced across lanes at the end.

use vstd::prelude::*;

use crate::backend::Backend;
use crate::scalar::{filled, fold_add, FloatScalar, Scalar};

verus! {

/// Element `k` of `s`, or zero past its end: the zero padding a partial register load applies.
pub open spec fn pad<T: Scalar>(s: Seq<T>, k: int) -> T {
    if 0 <= k < s.len() {
        s[k]
    } else {
        T::zero_spec()
    }
}

/// Number of `l`-wide chunks covering `n` elements.
pub open spec fn nchunks(n: nat, l: nat) -> nat {
    if n == 0 || l == 0 {
        0
    } else {
        ((n - 1) as nat / l + 1) as nat
    }
}

/// Lane `t` of a multiply-accumulate register after `c` chunks of `x`/`y` (zero padded).
pub open spec fn lane_fma<T: FloatScalar>(x: Seq<T>, y: Seq<T>, l: nat, t: int, c: nat) -> T
    decreases c,
{
    if c == 0 {
        T::zero_spec()
    } else {
        let k = (c - 1) * l + t;
        pad(x, k).fma_spec(pad(y, k), lane_fma(x, y, l, t, (c - 1) as nat))
    }
}

/// Lane `t` of an add-accumulate register after `c` chunks of `x` (zero padded).
pub open spec fn lane_add<T: Scalar>(x: Seq<T>, l: nat, t: int, c: nat) -> T
    decreases c,
{
    if c == 0 {
        T::zero_spec()
    } else {
        pad(x, (c - 1) * l + t).add_spec(lane_add(x, l, t, (c - 1) as nat))
    }
}

/// The value an `l`-lane gang computes for `Σ xₖ·yₖ`: per-lane fused chains, then a horizontal
/// sum of the lanes.
pub open spec fn dot_spec<T: FloatScalar>(x: Seq<T>, y: Seq<T>, l: nat) -> T {
    fold_add(Seq::new(l, |t: int| lane_fma(x, y, l, t, nchunks(x.len(), l))))
}

/// The value an `l`-lane gang computes for `Σ xₖ`.
pub open spec fn total_spec<T: Scalar>(x: Seq<T>, l: nat) -> T {
    fold_add(Seq::new(l, |t: int| lane_add(x, l, t, nchunks(x.len(), l))))
}

proof fn lemma_chunks(n: nat, l: nat, c: nat)
    requires
        l >= 1,
        c * l >= n,
        c == 0 || (c - 1) * l < n,
    ensures
        c == nchunks(n, l),
{
    if n == 0 {
        if c > 0 {
            assert((c - 1) * l >= 0) by (nonlinear_arith)
                requires
                    c >= 1,
                    l >= 1,
            ;
        }
    } else {
        assert(c >= 1) by (nonlinear_arith)
            requires
                c * l >= n,
                n >= 1,
        ;
        let q = (c - 1) as nat;
        let m = (n - 1) as nat;
        let d = m / l;
        let r = m % l;
        vstd::arithmetic::div_mod::lemma_fundamental_div_mod(m as int, l as int);
        assert(d == q) by (nonlinear_arith)
            requires
                m == l * d + r,
                0 <= r < l,
                q * l <= m,
                m < (q + 1) * l,
                c * l >= n,
                q == c - 1,
                m == n - 1,
        ;
    }
}

/// An SPMD context over backend `S`. Kernels build varying values through it.
#[derive(Clone, Copy)]
pub struct Gang<S> {
    pub backend: S,
}

impl<S: Copy> Gang<S> {
    pub fn new(backend: S) -> (r: Gang<S>)
        ensures
            r.backend == backend,
    {
        Gang { backend }
    }

    /// The raw backend token.
    pub fn backend(self) -> (r: S)
        ensures
            r == self.backend,
    {
        self.backend
    }

    /// Lanes of element `T` under this gang's backend.
    pub fn lanes<T: Scalar>(self) -> (r: usize) where S: Backend<T>
        ensures
            r == self.backend.lanes_spec(),
            1 <= r <= 32,
    {
        proof {
            self.backend.lemma_shape();
        }
        self.backend.lanes()
    }

    /// The unroll factor the gang's backend is stamped with.
    pub fn unroll<T: Scalar>(self) -> (r: usize) where S: Backend<T>
        ensures
            r == self.backend.unroll_spec(),
    {
        self.backend.unroll()
    }

    /// Load `w <= lanes()` elements of `s` starting at `off`; the remaining lanes take `padv`.
    pub fn load_partial<T: Scalar>(self, s: &[T], off: usize, w: usize, padv: T) -> (r: S::Vector) where
        S: Backend<T>,
        requires
            w <= self.backend.lanes_spec(),
            off + w <= s@.len(),
        ensures
            self.backend.vview(r) == Seq::new(
                self.backend.lanes_spec(),
                |t: int|
                    if t < w {
                        s@[off + t]
                    } else {
                        padv
                    },
            ),
    {
        proof {
            self.backend.lemma_shape();
        }
        let l = self.backend.lanes();
        let slen = s.len();
        let mut buf: Vec<T> = filled(padv, l);
        let mut t: usize = 0;
        while t < w
            invariant
                l == self.backend.lanes_spec(),
                w <= l,
                off + w <= s@.len(),
                s@.len() == slen,
                buf@.len() == l,
                0 <= t <= w,
                forall|k: int| 0 <= k < t ==> buf@[k] == s@[off + k],
                forall|k: int| t <= k < l ==> buf@[k] == padv,
            decreases w - t,
        {
            buf.set(t, s[off + t]);
            t += 1;
        }
        let r = self.backend.load(buf.as_slice());
        proof {
            assert(self.backend.vview(r) =~= Seq::new(
                self.backend.lanes_spec(),
                |t: int|
                    if t < w {
                        s@[off + t]
                    } else {
                        padv
                    },
            ));
        }
        r
    }

    /// Store the first `w <= lanes()` lanes of `v` into `out[off..off + w]`; the rest of `out` is
    /// unchanged.
    pub fn store_partial<T: Scalar>(self, v: S::Vector, out: &mut [T], off: usize, w: usize) where
        S: Backend<T>,
        requires
            w <= self.backend.lanes_spec(),
            off + w <= old(out)@.len(),
        ensures
            final(out)@.len() == old(out)@.len(),
            forall|k: int|
                0 <= k < old(out)@.len() ==> #[trigger] final(out)@[k] == if off <= k < off + w {
                    self.backend.vview(v)[k - off]
                } else {
                    old(out)@[k]
                },
    {
        proof {
            self.backend.lemma_shape();
        }
        let l = self.backend.lanes();
        let olen = out.len();
        let mut buf: Vec<T> = filled(T::zero(), l);
        self.backend.store(v, buf.as_mut_slice());
        let mut t: usize = 0;
        while t < w
            invariant
                l == self.backend.lanes_spec(),
                w <= l,
                off + w <= old(out)@.len(),
                old(out)@.len() == olen,
                buf@ == self.backend.vview(v),
                buf@.len() == l,
                out@.len() == old(out)@.len(),
                0 <= t <= w,
                forall|k: int|
                    0 <= k < old(out)@.len() ==> #[trigger] out@[k] == if off <= k < off + t {
                        self.backend.vview(v)[k - off]
                    } else {
                        old(out)@[k]
                    },
            decreases w - t,
        {
            out[off + t] = buf[t];
            t += 1;
        }
    }

    /// `Σ a[k]·b[k]` over equal-length slices, per-lane fused chains then a horizontal sum.
    pub fn dot<T: FloatScalar>(self, a: &[T], b: &[T]) -> (r: T) where S: Backend<T>
        requires
            a@.len() == b@.len(),
        ensures
            r == dot_spec(a@, b@, self.backend.lanes_spec()),
    {
        proof {
            self.backend.lemma_shape();
        }
        let l = self.backend.lanes();
        let n = a.len();
        let mut acc = self.backend.splat(T::zero());
        let mut i: usize = 0;
        let ghost mut c: nat = 0;
        while i < n
            invariant
                l == self.backend.lanes_spec(),
                1 <= l <= 32,
                n == a@.len(),
                n == b@.len(),
                i <= n,
                c * l >= i,
                i < n ==> i == c * l,
                c == 0 || (c - 1) * l < n,
                self.backend.vview(acc) == Seq::new(l as nat, |t: int| lane_fma(a@, b@, l as nat, t, c)),
            decreases n - i,
        {
            let w = if n - i < l {
                n - i
            } else {
                l
            };
            let va = self.load_partial(a, i, w, T::zero());
            let vb = self.load_partial(b, i, w, T::zero());
            acc = self.backend.fma(va, vb, acc);
            proof {
                assert forall|t: int| 0 <= t < l implies #[trigger] self.backend.vview(acc)[t]
                    == lane_fma(a@, b@, l as nat, t, c + 1) by {
                    assert((c + 1 - 1) * l + t == i + t);
                }
                assert(self.backend.vview(acc) =~= Seq::new(
                    l as nat,
                    |t: int| lane_fma(a@, b@, l as nat, t, c + 1),
                ));
                assert((c + 1) * l == c * l + l) by (nonlinear_arith);
                c = c + 1;
            }
            i = i + w;
        }
        proof {
            lemma_chunks(n as nat, l as nat, c);
        }
        self.backend.reduce_sum(acc)
    }

    /// `Σ a[k]²` — the dot product of `a` with itself.
    pub fn sum_sq<T: FloatScalar>(self, a: &[T]) -> (r: T) where S: Backend<T>
        ensures
            r == dot_spec(a@, a@, self.backend.lanes_spec()),
    {
        self.dot(a, a)
    }

    /// `Σ a[k]`, per-lane chains then a horizontal sum.
    pub fn total<T: Scalar>(self, a: &[T]) -> (r: T) where S: Backend<T>
        ensures
            r == total_spec(a@, self.backend.lanes_spec()),
    {
        proof {
            self.backend.lemma_shape();
        }
        let l = self.backend.lanes();
        let n = a.len();
        let mut acc = self.backend.splat(T::zero());
        let mut i: usize = 0;
        let ghost mut c: nat = 0;
        while i < n
            invariant
                l == self.backend.lanes_spec(),
                1 <= l <= 32,
                n == a@.len(),
                i <= n,
                c * l >= i,
                i < n ==> i == c * l,
                c == 0 || (c - 1) * l < n,
                self.backend.vview(acc) == Seq::new(l as nat, |t: int| lane_add(a@, l as nat, t, c)),
            decreases n - i,
        {
            let w = if n - i < l {
                n - i
            } else {
                l
            };
            let va = self.load_partial(a, i, w, T::zero());
            acc = self.backend.add(va, acc);
            proof {
                assert forall|t: int| 0 <= t < l implies #[trigger] self.backend.vview(acc)[t]
                    == lane_add(a@, l as nat, t, c + 1) by {
                    assert((c + 1 - 1) * l + t == i + t);
                }
                assert(self.backend.vview(acc) =~= Seq::new(
                    l as nat,
                    |t: int| lane_add(a@, l as nat, t, c + 1),
                ));
                assert((c + 1) * l == c * l + l) by (nonlinear_arith);
                c = c + 1;
            }
            i = i + w;
        }
        proof {
            lemma_chunks(n as nat, l as nat, c);
        }
        self.backend.reduce_sum(acc)
    }

    /// `y[off + k] := fma(x[xoff + k], c, y[off + k])` for `k < n`, a register at a time.
    pub fn axpy<T: FloatScalar>(
        self,
        x: &[T],
        xoff: usize,
        cs: T,
        y: &mut [T],
        off: usize,
        n: usize,
    ) where S: Backend<T>
        requires
            xoff + n <= x@.len(),
            off + n <= old(y)@.len(),
        ensures
            final(y)@.len() == old(y)@.len(),
            forall|k: int|
                0 <= k < old(y)@.len() ==> #[trigger] final(y)@[k] == if off <= k < off + n {
                    x@[xoff + k - off].fma_spec(cs, old(y)@[k])
                } else {
                    old(y)@[k]
                },
    {
        proof {
            self.backend.lemma_shape();
        }
        let l = self.backend.lanes();
        let vc = self.backend.splat(cs);
        let ylen = y.len();
        let xlen = x.len();
        let mut i: usize = 0;
        while i < n
            invariant
                l == self.backend.lanes_spec(),
                1 <= l <= 32,
                xoff + n <= x@.len(),
                off + n <= old(y)@.len(),
                y@.len() == old(y)@.len(),
                self.backend.vview(vc) == Seq::new(l as nat, |t: int| cs),
                i <= n,
                old(y)@.len() == ylen,
                x@.len() == xlen,
                forall|k: int|
                    0 <= k < old(y)@.len() ==> #[trigger] y@[k] == if off <= k < off + i {
                        x@[xoff + k - off].fma_spec(cs, old(y)@[k])
                    } else {
                        old(y)@[k]
                    },
            decreases n - i,
        {
            let w = if n - i < l {
                n - i
            } else {
                l
            };
            let vx = self.load_partial(x, xoff + i, w, T::zero());
            let vy = self.load_partial(y, off + i, w, T::zero());
            let vr = self.backend.fma(vx, vc, vy);
            self.store_partial(vr, y, off + i, w);
            i = i + w;
        }
    }

    /// `y[off + k] := fma(y[xoff + k], c, y[off + k])` for `k < n`, both ranges in one buffer
    /// and disjoint: the row-elimination step of a triangular solve.
    pub fn axpy_within<T: FloatScalar>(self, y: &mut [T], xoff: usize, cs: T, off: usize, n: usize) where
        S: Backend<T>,
        requires
            xoff + n <= old(y)@.len(),
            off + n <= old(y)@.len(),
            xoff + n <= off || off + n <= xoff,
        ensures
            final(y)@.len() == old(y)@.len(),
            forall|k: int|
                0 <= k < old(y)@.len() ==> #[trigger] final(y)@[k] == if off <= k < off + n {
                    old(y)@[xoff + k - off].fma_spec(cs, old(y)@[k])
                } else {
                    old(y)@[k]
                },
    {
        proof {
            self.backend.lemma_shape();
        }
        let l = self.backend.lanes();
        let vc = self.backend.splat(cs);
        let ylen = y.len();
        let mut i: usize = 0;
        while i < n
            invariant
                l == self.backend.lanes_spec(),
                1 <= l <= 32,
                xoff + n <= old(y)@.len(),
                off + n <= old(y)@.len(),
                xoff + n <= off || off + n <= xoff,
                y@.len() == old(y)@.len(),
                self.backend.vview(vc) == Seq::new(l as nat, |t: int| cs),
                i <= n,
                old(y)@.len() == ylen,
                forall|k: int|
                    0 <= k < old(y)@.len() ==> #[trigger] y@[k] == if off <= k < off + i {
                        old(y)@[xoff + k - off].fma_spec(cs, old(y)@[k])
                    } else {
                        old(y)@[k]
                    },
            decreases n - i,
        {
            let w = if n - i < l {
                n - i
            } else {
                l
            };
            let vx = self.load_partial(y, xoff + i, w, T::zero());
            let vy = self.load_partial(y, off + i, w, T::zero());
            proof {
                assert forall|t: int| 0 <= t < w implies #[trigger] self.backend.vview(vx)[t]
                    == old(y)@[xoff + i + t] by {
                    assert(y@[xoff + i + t] == old(y)@[xoff + i + t]);
                }
            }
            let vr = self.backend.fma(vx, vc, vy);
            self.store_partial(vr, y, off + i, w);
            i = i + w;
        }
    }

    /// `y[off + k] := x[xoff + k] + y[off + k]` for `k < n`, a register at a time.
    pub fn add_into<T: Scalar>(
        self,
        x: &[T],
        xoff: usize,
        y: &mut [T],
        off: usize,
        n: usize,
    ) where S: Backend<T>
        requires
            xoff + n <= x@.len(),
            off + n <= old(y)@.len(),
        ensures
            final(y)@.len() == old(y)@.len(),
            forall|k: int|
                0 <= k < old(y)@.len() ==> #[trigger] final(y)@[k] == if off <= k < off + n {
                    x@[xoff + k - off].add_spec(old(y)@[k])
                } else {
                    old(y)@[k]
                },
    {
        proof {
            self.backend.lemma_shape();
        }
        let l = self.backend.lanes();
        let ylen = y.len();
        let xlen = x.len();
        let mut i: usize = 0;
        while i < n
            invariant
                l == self.backend.lanes_spec(),
                1 <= l <= 32,
                xoff + n <= x@.len(),
                off + n <= old(y)@.len(),
                y@.len() == old(y)@.len(),
                i <= n,
                old(y)@.len() == ylen,
                x@.len() == xlen,
                forall|k: int|
                    0 <= k < old(y)@.len() ==> #[trigger] y@[k] == if off <= k < off + i {
                        x@[xoff + k - off].add_spec(old(y)@[k])
                    } else {
                        old(y)@[k]
                    },
            decreases n - i,
        {
            let w = if n - i < l {
                n - i
            } else {
                l
            };
            let vx = self.load_partial(x, xoff + i, w, T::zero());
            let vy = self.load_partial(y, off + i, w, T::zero());
            let vr = self.backend.add(vx, vy);
            self.store_partial(vr, y, off + i, w);
            i = i + w;
        }
    }
}

} // verus!
