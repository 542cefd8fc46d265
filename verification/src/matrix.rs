//! Portable tile matrix-multiply: compile-time `R×C` tiles and the fused `D = A·B + C` over them.

use vstd::prelude::*;

use core::marker::PhantomData;

use crate::backend::{Backend, ScalarBackend};
use crate::scalar::{filled, FloatScalar, Scalar};
use crate::varying::Gang;
use vstd::view::View as _;

pub mod panels;

verus! {

/// In-memory layout of a matrix or tile when loading from / storing to a slice.
#[derive(Clone, Copy, PartialEq, Eq, Debug, Structural)]
pub enum Layout {
    /// Element `(r, c)` lives at `r * row_stride + c`.
    RowMajor,
    /// Element `(r, c)` lives at `c * row_stride + r`.
    ColMajor,
}

/// Where element `(r, c)` lives for a given stride and layout.
pub open spec fn offset(layout: Layout, stride: int, r: int, c: int) -> int {
    match layout {
        Layout::RowMajor => r * stride + c,
        Layout::ColMajor => c * stride + r,
    }
}

/// Slice index of tile element `(r, c)`.
pub fn tile_index(r: usize, c: usize, row_stride: usize, layout: Layout) -> (i: usize)
    requires
        offset(layout, row_stride as int, r as int, c as int) <= usize::MAX,
        0 <= offset(layout, row_stride as int, r as int, c as int),
    ensures
        i == offset(layout, row_stride as int, r as int, c as int),
{
    match layout {
        Layout::RowMajor => {
            assert(r * row_stride <= r * row_stride + c);
            r * row_stride + c
        },
        Layout::ColMajor => {
            assert(c * row_stride <= c * row_stride + r);
            c * row_stride + r
        },
    }
}

/// Entry `(i, j)` of `A·B + C` after folding `p` terms of the contraction into `c0`, in
/// increasing `k`: `a[i][k]·b[k][j] + acc`, fused. `A` is row-major with rows of `kk`, `B` with
/// rows of `n`.
pub open spec fn mma_chain<T: FloatScalar>(a: Seq<T>, b: Seq<T>, c0: T, n: nat, kk: nat, i: int, j: int, p: nat) -> T
    decreases p,
{
    if p == 0 {
        c0
    } else {
        a[offset(Layout::RowMajor, kk as int, i, p - 1)].fma_spec(
            b[offset(Layout::RowMajor, n as int, p - 1, j)],
            mma_chain(a, b, c0, n, kk, i, j, (p - 1) as nat),
        )
    }
}

/// `d` is `A·B + C` for the row-major `m×k` `a`, `k×n` `b` and `m×n` `c`, entry by entry.
pub open spec fn is_mma<T: FloatScalar>(d: Seq<T>, a: Seq<T>, b: Seq<T>, c: Seq<T>, m: nat, n: nat, k: nat) -> bool {
    &&& d.len() == m * n
    &&& forall|i: int, j: int|
        0 <= i < m && 0 <= j < n ==> #[trigger] d[offset(Layout::RowMajor, n as int, i, j)]
            == mma_chain(a, b, c[offset(Layout::RowMajor, n as int, i, j)], n, k, i, j, k)
}

/// Slot facts for a row-major `m×n` array.
pub proof fn lemma_rm_slots(m: nat, n: nat)
    ensures
        forall|i: int, j: int|
            0 <= i < m && 0 <= j < n ==> 0 <= #[trigger] offset(Layout::RowMajor, n as int, i, j) < m
                * n,
        forall|i1: int, j1: int, i2: int, j2: int|
            0 <= i1 < m && 0 <= j1 < n && 0 <= i2 < m && 0 <= j2 < n && #[trigger] offset(
                Layout::RowMajor,
                n as int,
                i1,
                j1,
            ) == #[trigger] offset(Layout::RowMajor, n as int, i2, j2) ==> i1 == i2 && j1 == j2,
{
    assert forall|i: int, j: int| 0 <= i < m && 0 <= j < n implies 0 <= #[trigger] offset(
        Layout::RowMajor,
        n as int,
        i,
        j,
    ) < m * n by {
        assert(0 <= i * n + j < m * n) by (nonlinear_arith)
            requires
                0 <= i < m,
                0 <= j < n,
        ;
    }
    assert forall|i1: int, j1: int, i2: int, j2: int|
        0 <= i1 < m && 0 <= j1 < n && 0 <= i2 < m && 0 <= j2 < n && #[trigger] offset(
            Layout::RowMajor,
            n as int,
            i1,
            j1,
        ) == #[trigger] offset(Layout::RowMajor, n as int, i2, j2) implies i1 == i2 && j1 == j2 by {
        assert(i1 == i2 && j1 == j2) by (nonlinear_arith)
            requires
                0 <= j1 < n,
                0 <= j2 < n,
                0 <= i1,
                0 <= i2,
                i1 * n + j1 == i2 * n + j2,
        ;
    }
}

/// Register-blocked GEMM, all operands in the compute precision: blocks the `N` dimension into
/// `lanes()`-wide accumulators kept in a register across the `K` reduction, folding with the
/// backend's `fma`; a scalar tail handles `N % lanes`.
#[verifier::loop_isolation(false)]
#[verifier::rlimit(40)]
pub fn simd_gemm<T: FloatScalar, B: Backend<T>, const M: usize, const N: usize, const K: usize>(
    backend: B,
    a: &[T],
    b: &[T],
    c: Vec<T>,
) -> (d: Vec<T>)
    requires
        a@.len() == M * K,
        b@.len() == K * N,
        c@.len() == M * N,
    ensures
        is_mma(d@, a@, b@, c@, M as nat, N as nat, K as nat),
{
    proof {
        backend.lemma_shape();
        lemma_rm_slots(M as nat, N as nat);
        lemma_rm_slots(M as nat, K as nat);
        lemma_rm_slots(K as nat, N as nat);
    }
    let g = Gang::new(backend);
    let lanes = backend.lanes();
    let ghost c0 = c@;
    let clen = c.len();
    let alen = a.len();
    let blen = b.len();
    let mut c = c;
    let mut i: usize = 0;
    while i < M
        invariant
            c@.len() == M * N,
            0 <= i <= M,
            forall|r: int, q: int|
                0 <= r < M && 0 <= q < N ==> #[trigger] c@[offset(Layout::RowMajor, N as int, r, q)] == if r < i {
                    mma_chain(a@, b@, c0[offset(Layout::RowMajor, N as int, r, q)], N as nat, K as nat, r, q, K as nat)
                } else {
                    c0[offset(Layout::RowMajor, N as int, r, q)]
                },
        decreases M - i,
    {
        let mut j: usize = 0;
        while lanes <= N - j
            invariant
                c@.len() == M * N,
                0 <= i < M,
                j <= N,
                forall|r: int, q: int|
                    0 <= r < M && 0 <= q < N ==> #[trigger] c@[offset(Layout::RowMajor, N as int, r, q)] == if r < i || (
                    r == i && q < j) {
                        mma_chain(a@, b@, c0[offset(Layout::RowMajor, N as int, r, q)], N as nat, K as nat, r, q, K as nat)
                    } else {
                        c0[offset(Layout::RowMajor, N as int, r, q)]
                    },
            decreases N - j,
        {
            assert(offset(Layout::RowMajor, N as int, i as int, (j + lanes - 1) as int) < M * N);
            let base = i * N + j;
            let mut acc = g.load_partial(c.as_slice(), base, lanes, T::zero());
            let mut k: usize = 0;
            while k < K
                invariant
                    c@.len() == M * N,
                    0 <= i < M,
                    j + lanes <= N,
                    base == i * N + j,
                    0 <= k <= K,
                    forall|t: int|
                        0 <= t < lanes ==> #[trigger] backend.vview(acc)[t] == mma_chain(
                            a@,
                            b@,
                            c0[offset(Layout::RowMajor, N as int, i as int, j + t)],
                            N as nat,
                            K as nat,
                            i as int,
                            j + t,
                            k as nat,
                        ),
                decreases K - k,
            {
                assert(offset(Layout::RowMajor, K as int, i as int, k as int) < M * K);
                assert(offset(Layout::RowMajor, N as int, k as int, (j + lanes - 1) as int) < K * N);
                let aik = backend.splat(a[i * K + k]);
                let br = g.load_partial(b, k * N + j, lanes, T::zero());
                acc = backend.fma(aik, br, acc);
                proof {
                    assert forall|t: int| 0 <= t < lanes implies #[trigger] backend.vview(acc)[t]
                        == mma_chain(
                        a@,
                        b@,
                        c0[offset(Layout::RowMajor, N as int, i as int, j + t)],
                        N as nat,
                        K as nat,
                        i as int,
                        j + t,
                        (k + 1) as nat,
                    ) by {
                        assert(offset(Layout::RowMajor, N as int, k as int, j + t) == k * N + j + t);
                    }
                }
                k += 1;
            }
            let ghost before = c@;
            g.store_partial(acc, c.as_mut_slice(), base, lanes);
            proof {
                assert forall|r: int, q: int| 0 <= r < M && 0 <= q < N implies #[trigger] c@[offset(
                    Layout::RowMajor,
                    N as int,
                    r,
                    q,
                )] == if r < i || (r == i && q < j + lanes) {
                    mma_chain(a@, b@, c0[offset(Layout::RowMajor, N as int, r, q)], N as nat, K as nat, r, q, K as nat)
                } else {
                    c0[offset(Layout::RowMajor, N as int, r, q)]
                } by {
                    let o = offset(Layout::RowMajor, N as int, r, q);
                    if base <= o < base + lanes {
                        let t = o - base;
                        assert(offset(Layout::RowMajor, N as int, i as int, j + t) == o);
                    } else {
                        assert(c@[o] == before[o]);
                        if r == i && j <= q < j + lanes {
                            assert(o == base + (q - j));
                        }
                    }
                }
            }
            j += lanes;
        }
        while j < N
            invariant
                c@.len() == M * N,
                0 <= i < M,
                j <= N,
                forall|r: int, q: int|
                    0 <= r < M && 0 <= q < N ==> #[trigger] c@[offset(Layout::RowMajor, N as int, r, q)] == if r < i || (
                    r == i && q < j) {
                        mma_chain(a@, b@, c0[offset(Layout::RowMajor, N as int, r, q)], N as nat, K as nat, r, q, K as nat)
                    } else {
                        c0[offset(Layout::RowMajor, N as int, r, q)]
                    },
            decreases N - j,
        {
            assert(offset(Layout::RowMajor, N as int, i as int, j as int) < M * N);
            let mut sacc = c[i * N + j];
            let mut k: usize = 0;
            while k < K
                invariant
                    c@.len() == M * N,
                    0 <= i < M,
                    j < N,
                    0 <= k <= K,
                    sacc == mma_chain(
                        a@,
                        b@,
                        c0[offset(Layout::RowMajor, N as int, i as int, j as int)],
                        N as nat,
                        K as nat,
                        i as int,
                        j as int,
                        k as nat,
                    ),
                decreases K - k,
            {
                assert(offset(Layout::RowMajor, K as int, i as int, k as int) < M * K);
                assert(offset(Layout::RowMajor, N as int, k as int, j as int) < K * N);
                sacc = a[i * K + k].fma(b[k * N + j], sacc);
                k += 1;
            }
            let ghost before = c@;
            c.set(i * N + j, sacc);
            proof {
                assert forall|r: int, q: int| 0 <= r < M && 0 <= q < N implies #[trigger] c@[offset(
                    Layout::RowMajor,
                    N as int,
                    r,
                    q,
                )] == if r < i || (r == i && q < j + 1) {
                    mma_chain(a@, b@, c0[offset(Layout::RowMajor, N as int, r, q)], N as nat, K as nat, r, q, K as nat)
                } else {
                    c0[offset(Layout::RowMajor, N as int, r, q)]
                } by {
                    if offset(Layout::RowMajor, N as int, r, q) != offset(Layout::RowMajor, N as int, i as int, j as int) {
                        assert(c@[offset(Layout::RowMajor, N as int, r, q)] == before[offset(Layout::RowMajor, N as int, r, q)]);
                    }
                }
            }
            j += 1;
        }
        i += 1;
    }
    c
}

/// Entry `(r, q)` of `A·B + C` when `C` held `c0`: the full contraction chain.
pub open spec fn mma_final<T: FloatScalar>(a: Seq<T>, b: Seq<T>, c0: Seq<T>, n: nat, k: nat, r: int, q: int) -> T {
    mma_chain(a, b, c0[offset(Layout::RowMajor, n as int, r, q)], n, k, r, q, k)
}

/// `bp` holds `B`'s `lanes`-wide column panels: panel `jb`, row `kk`, lane `t` at
/// `(jb·k + kk)·lanes + t`.
pub open spec fn packs_panels<T>(bp: Seq<T>, b: Seq<T>, n: nat, k: nat, lanes: nat, nb: nat) -> bool {
    &&& bp.len() == nb * k * lanes
    &&& forall|jb: int, kk: int, t: int|
        0 <= jb < nb && 0 <= kk < k && 0 <= t < lanes ==> #[trigger] bp[offset(
            Layout::RowMajor,
            lanes as int,
            jb * k + kk,
            t,
        )] == b[offset(Layout::RowMajor, n as int, kk, jb * lanes + t)]
}

proof fn lemma_panel_slot(nb: nat, k: nat, lanes: nat, jb: int, kk: int)
    requires
        0 <= jb < nb,
        0 <= kk < k,
        lanes >= 1,
    ensures
        0 <= jb * k + kk < nb * k,
        0 <= offset(Layout::RowMajor, lanes as int, jb * k + kk, 0),
        offset(Layout::RowMajor, lanes as int, jb * k + kk, 0) + lanes <= nb * k * lanes,
{
    assert(0 <= jb * k + kk < nb * k) by (nonlinear_arith)
        requires
            0 <= jb < nb,
            0 <= kk < k,
    ;
    assert(0 <= (jb * k + kk) * lanes && (jb * k + kk) * lanes + lanes <= nb * k * lanes)
        by (nonlinear_arith)
        requires
            0 <= jb * k + kk < nb * k,
            lanes >= 1,
    ;
}

/// Pack `B` (`k×n`, row-major) into `nb = n / lanes` contiguous `k×lanes` column panels, a
/// register-wide copy at a time.
#[verifier::loop_isolation(false)]
fn pack_panels<T: FloatScalar, B: Backend<T>>(g: Gang<B>, b: &[T], n: usize, k: usize, nb: usize) -> (bp: Vec<T>)
    requires
        b@.len() == k * n,
        nb * g.backend.lanes_spec() <= n,
    ensures
        packs_panels(bp@, b@, n as nat, k as nat, g.backend.lanes_spec(), nb as nat),
{
    proof {
        g.backend.lemma_shape();
    }
    let lanes = g.lanes::<T>();
    let blen = b.len();
    proof {
        if nb > 0 && k > 0 {
            assert(nb * k * lanes <= k * n) by (nonlinear_arith)
                requires
                    nb * lanes <= n,
            ;
        } else {
            assert(nb * k * lanes == 0) by (nonlinear_arith)
                requires
                    nb == 0 || k == 0,
            ;
        }
        lemma_rm_slots(k as nat, n as nat);
        lemma_rm_slots((nb * k) as nat, lanes as nat);
        assert(nb * k <= nb * k * lanes) by (nonlinear_arith)
            requires
                lanes >= 1,
        ;
    }
    let mut bp = filled(T::zero(), nb * k * lanes);
    let mut jb: usize = 0;
    while jb < nb
        invariant
            bp@.len() == nb * k * lanes,
            0 <= jb <= nb,
            forall|jj: int, kk: int, t: int|
                0 <= jj < jb && 0 <= kk < k && 0 <= t < lanes ==> #[trigger] bp@[offset(
                    Layout::RowMajor,
                    lanes as int,
                    jj * k + kk,
                    t,
                )] == b@[offset(Layout::RowMajor, n as int, kk, jj * lanes + t)],
        decreases nb - jb,
    {
        let mut kk: usize = 0;
        while kk < k
            invariant
                bp@.len() == nb * k * lanes,
                0 <= jb < nb,
                0 <= kk <= k,
                forall|jj: int, k2: int, t: int|
                    0 <= jj < nb && 0 <= k2 < k && 0 <= t < lanes && (jj < jb || (jj == jb && k2 < kk))
                        ==> #[trigger] bp@[offset(Layout::RowMajor, lanes as int, jj * k + k2, t)]
                        == b@[offset(Layout::RowMajor, n as int, k2, jj * lanes + t)],
            decreases k - kk,
        {
            proof {
                lemma_panel_slot(nb as nat, k as nat, lanes as nat, jb as int, kk as int);
                assert(jb * lanes + lanes <= n) by (nonlinear_arith)
                    requires
                        jb < nb,
                        nb * lanes <= n,
                ;
                assert(offset(Layout::RowMajor, n as int, kk as int, (jb * lanes + lanes - 1) as int) < k * n);
            }
            let src = kk * n + jb * lanes;
            let dst = (jb * k + kk) * lanes;
            let v = g.load_partial(b, src, lanes, T::zero());
            let ghost before = bp@;
            g.store_partial(v, bp.as_mut_slice(), dst, lanes);
            proof {
                assert forall|jj: int, k2: int, t: int|
                    0 <= jj < nb && 0 <= k2 < k && 0 <= t < lanes && (jj < jb || (jj == jb && k2 < kk
                        + 1)) implies #[trigger] bp@[offset(Layout::RowMajor, lanes as int, jj * k + k2, t)]
                    == b@[offset(Layout::RowMajor, n as int, k2, jj * lanes + t)] by {
                    lemma_panel_slot(nb as nat, k as nat, lanes as nat, jj, k2);
                    let q = offset(Layout::RowMajor, lanes as int, jj * k + k2, t);
                    if jj == jb && k2 == kk {
                        assert(q == dst + t);
                    } else {
                        if dst <= q < dst + lanes {
                            lemma_rm_slots((nb * k) as nat, lanes as nat);
                            assert(q == offset(Layout::RowMajor, lanes as int, jb * k + kk, q - dst));
                            assert(jj * k + k2 == jb * k + kk);
                            assert(false) by (nonlinear_arith)
                                requires
                                    jj * k + k2 == jb * k + kk,
                                    0 <= k2 < k,
                                    0 <= kk < k,
                                    (jj < jb || (jj == jb && k2 < kk)),
                                    0 <= jj,
                            ;
                        }
                        assert(bp@[q] == before[q]);
                    }
                }
            }
            kk += 1;
        }
        jb += 1;
    }
    bp
}

/// Reduce one `lanes`-wide block of `C` (row `i`, panel `jb`) over the whole contraction from
/// the packed panels: the tail path of the blocked GEMM.
#[verifier::loop_isolation(false)]
fn edge<T: FloatScalar, B: Backend<T>, const M: usize, const N: usize, const K: usize>(
    g: Gang<B>,
    a: &[T],
    b: &[T],
    bp: &[T],
    c: &mut Vec<T>,
    i: usize,
    jb: usize,
    nb: usize,
)
    requires
        a@.len() == M * K,
        b@.len() == K * N,
        old(c)@.len() == M * N,
        packs_panels(bp@, b@, N as nat, K as nat, g.backend.lanes_spec(), nb as nat),
        nb * g.backend.lanes_spec() <= N,
        i < M,
        jb < nb,
    ensures
        final(c)@.len() == M * N,
        forall|r: int, q: int|
            0 <= r < M && 0 <= q < N ==> #[trigger] final(c)@[offset(Layout::RowMajor, N as int, r, q)] == if r
                == i && jb * g.backend.lanes_spec() <= q < jb * g.backend.lanes_spec() + g.backend.lanes_spec() {
                mma_final(a@, b@, old(c)@, N as nat, K as nat, r, q)
            } else {
                old(c)@[offset(Layout::RowMajor, N as int, r, q)]
            },
{
    proof {
        g.backend.lemma_shape();
        lemma_rm_slots(M as nat, N as nat);
        lemma_rm_slots(M as nat, K as nat);
    }
    let ghost c0 = c@;
    let backend = g.backend();
    let lanes = g.lanes::<T>();
    let bplen = bp.len();
    let alen = a.len();
    proof {
        assert(jb * lanes + lanes <= N) by (nonlinear_arith)
            requires
                jb < nb,
                nb * lanes <= N,
        ;
        assert(offset(Layout::RowMajor, N as int, i as int, (jb * lanes + lanes - 1) as int) < M * N);
    }
    let clen = c.len();
    assert(i * N <= i * N + jb * lanes) by (nonlinear_arith);
    let cj = i * N + jb * lanes;
    let mut acc = g.load_partial(c.as_slice(), cj, lanes, T::zero());
    let mut kk: usize = 0;
    while kk < K
        invariant
            0 <= kk <= K,
            c@ == c0,
            forall|t: int|
                0 <= t < lanes ==> #[trigger] backend.vview(acc)[t] == mma_chain(
                    a@,
                    b@,
                    c0[offset(Layout::RowMajor, N as int, i as int, jb * lanes + t)],
                    N as nat,
                    K as nat,
                    i as int,
                    jb * lanes + t,
                    kk as nat,
                ),
        decreases K - kk,
    {
        proof {
            lemma_panel_slot(nb as nat, K as nat, lanes as nat, jb as int, kk as int);
            assert(offset(Layout::RowMajor, K as int, i as int, kk as int) < M * K);
        }
        proof {
            assert(offset(Layout::RowMajor, lanes as int, jb * K + kk, 0) == (jb * K + kk) * lanes);
            assert(jb * K + kk <= (jb * K + kk) * lanes) by (nonlinear_arith)
                requires
                    lanes >= 1,
                    jb * K + kk >= 0,
            ;
        }
        let av = backend.splat(a[i * K + kk]);
        let bv = g.load_partial(bp, (jb * K + kk) * lanes, lanes, T::zero());
        acc = backend.fma(av, bv, acc);
        proof {
            assert forall|t: int| 0 <= t < lanes implies #[trigger] backend.vview(acc)[t] == mma_chain(
                a@,
                b@,
                c0[offset(Layout::RowMajor, N as int, i as int, jb * lanes + t)],
                N as nat,
                K as nat,
                i as int,
                jb * lanes + t,
                (kk + 1) as nat,
            ) by {
                assert(bp@[offset(Layout::RowMajor, lanes as int, jb * K + kk, t)] == b@[offset(
                    Layout::RowMajor,
                    N as int,
                    kk as int,
                    jb * lanes + t,
                )]);
            }
        }
        kk += 1;
    }
    let ghost before = c@;
    g.store_partial(acc, c.as_mut_slice(), cj, lanes);
    proof {
        assert forall|r: int, q: int| 0 <= r < M && 0 <= q < N implies #[trigger] c@[offset(
            Layout::RowMajor,
            N as int,
            r,
            q,
        )] == if r == i && jb * lanes <= q < jb * lanes + lanes {
            mma_final(a@, b@, c0, N as nat, K as nat, r, q)
        } else {
            c0[offset(Layout::RowMajor, N as int, r, q)]
        } by {
            let o = offset(Layout::RowMajor, N as int, r, q);
            if cj <= o < cj + lanes {
                let t = o - cj;
                assert(offset(Layout::RowMajor, N as int, i as int, jb * lanes + t) == o);
            } else {
                assert(c@[o] == before[o]);
                if r == i && jb * lanes <= q < jb * lanes + lanes {
                    assert(o == cj + (q - jb * lanes));
                }
            }
        }
    }
}

/// The `MR×NR`-register micro-tile of the blocked GEMM: rows `i..i+MR`, panels `jb..jb+NR` of
/// `C`, held in `MR·NR` independent accumulators across the whole contraction. Each loaded `B`
/// vector feeds `MR` rows and each broadcast `A` element feeds `NR` panels.
#[verifier::loop_isolation(false)]
#[verifier::rlimit(60)]
fn micro_tile<T: FloatScalar, B: Backend<T>, const M: usize, const N: usize, const K: usize, const MR: usize, const NR: usize>(
    g: Gang<B>,
    a: &[T],
    b: &[T],
    bp: &[T],
    c: &mut Vec<T>,
    i: usize,
    jb: usize,
    nb: usize,
)
    requires
        a@.len() == M * K,
        b@.len() == K * N,
        old(c)@.len() == M * N,
        packs_panels(bp@, b@, N as nat, K as nat, g.backend.lanes_spec(), nb as nat),
        nb * g.backend.lanes_spec() <= N,
        i + MR <= M,
        jb + NR <= nb,
    ensures
        final(c)@.len() == M * N,
        forall|r: int, q: int|
            0 <= r < M && 0 <= q < N ==> #[trigger] final(c)@[offset(Layout::RowMajor, N as int, r, q)] == if i
                <= r < i + MR && jb * g.backend.lanes_spec() <= q < (jb + NR) * g.backend.lanes_spec() {
                mma_final(a@, b@, old(c)@, N as nat, K as nat, r, q)
            } else {
                old(c)@[offset(Layout::RowMajor, N as int, r, q)]
            },
{
    proof {
        g.backend.lemma_shape();
        lemma_rm_slots(M as nat, N as nat);
        lemma_rm_slots(M as nat, K as nat);
        lemma_rm_slots(MR as nat, NR as nat);
    }
    let ghost c0 = c@;
    let backend = g.backend();
    let lanes = g.lanes::<T>();
    let clen = c.len();
    let alen = a.len();
    let bplen = bp.len();
    proof {
        assert((jb + NR) * lanes <= N) by (nonlinear_arith)
            requires
                jb + NR <= nb,
                nb * lanes <= N,
        ;
        assert(MR * NR <= (M * N)) by (nonlinear_arith)
            requires
                MR <= M,
                NR <= nb,
                nb * lanes <= N,
                lanes >= 1,
        ;
    }
    // Slot of lane `t` of accumulator `(mr, nv)` in `C`.
    let ghost slot = |mr: int, nv: int, t: int| offset(Layout::RowMajor, N as int, i + mr, (jb + nv) * lanes + t);
    let ghost chain = |mr: int, nv: int, t: int, kk: nat|
        mma_chain(a@, b@, c0[slot(mr, nv, t)], N as nat, K as nat, i + mr, (jb + nv) * lanes + t, kk);
    let mut acc: Vec<B::Vector> = Vec::new();
    let mut mr: usize = 0;
    while mr < MR
        invariant
            c@ == c0,
            0 <= mr <= MR,
            acc@.len() == mr * NR,
            forall|m2: int, n2: int, t: int|
                0 <= m2 < mr && 0 <= n2 < NR && 0 <= t < lanes ==> #[trigger] backend.vview(
                    acc@[offset(Layout::RowMajor, NR as int, m2, n2)],
                )[t] == chain(m2, n2, t, 0),
        decreases MR - mr,
    {
        let mut nv: usize = 0;
        while nv < NR
            invariant
                c@ == c0,
                0 <= mr < MR,
                0 <= nv <= NR,
                acc@.len() == mr * NR + nv,
                forall|m2: int, n2: int, t: int|
                    0 <= m2 < MR && 0 <= n2 < NR && 0 <= t < lanes && (m2 < mr || (m2 == mr && n2 < nv))
                        ==> #[trigger] backend.vview(acc@[offset(Layout::RowMajor, NR as int, m2, n2)])[t]
                        == chain(m2, n2, t, 0),
            decreases NR - nv,
        {
            proof {
                assert((jb + nv) * lanes + lanes <= N) by (nonlinear_arith)
                    requires
                        jb + nv < nb,
                        nb * lanes <= N,
                ;
                assert(offset(Layout::RowMajor, N as int, (i + mr) as int, ((jb + nv) * lanes + lanes - 1) as int) < M * N);
                assert(offset(Layout::RowMajor, N as int, (i + mr) as int, 0) <= offset(
                    Layout::RowMajor,
                    N as int,
                    (i + mr) as int,
                    ((jb + nv) * lanes) as int,
                ));
            }
            let src = (i + mr) * N + (jb + nv) * lanes;
            let v = g.load_partial(c.as_slice(), src, lanes, T::zero());
            let ghost prev = acc@;
            acc.push(v);
            proof {
                assert(offset(Layout::RowMajor, NR as int, mr as int, nv as int) == mr * NR + nv);
                assert forall|m2: int, n2: int, t: int|
                    0 <= m2 < MR && 0 <= n2 < NR && 0 <= t < lanes && (m2 < mr || (m2 == mr && n2 < nv + 1))
                        implies #[trigger] backend.vview(acc@[offset(Layout::RowMajor, NR as int, m2, n2)])[t]
                    == chain(m2, n2, t, 0) by {
                    if m2 == mr && n2 == nv {
                        assert(slot(m2, n2, t) == src + t);
                    } else {
                        assert(offset(Layout::RowMajor, NR as int, m2, n2) < mr * NR + nv) by (nonlinear_arith)
                            requires
                                0 <= n2 < NR,
                                (m2 < mr || (m2 == mr && n2 < nv)),
                                0 <= m2,
                        ;
                        assert(acc@[offset(Layout::RowMajor, NR as int, m2, n2)] == prev[offset(
                            Layout::RowMajor,
                            NR as int,
                            m2,
                            n2,
                        )]);
                    }
                }
            }
            nv += 1;
        }
        proof {
            assert(mr * NR + NR == (mr + 1) * NR) by (nonlinear_arith);
        }
        mr += 1;
    }
    let mut bv: Vec<B::Vector> = Vec::new();
    let mut nv: usize = 0;
    while nv < NR
        invariant
            bv@.len() == nv,
            nv <= NR,
        decreases NR - nv,
    {
        bv.push(backend.splat(T::zero()));
        nv += 1;
    }
    let mut kk: usize = 0;
    while kk < K
        invariant
            c@ == c0,
            0 <= kk <= K,
            acc@.len() == MR * NR,
            bv@.len() == NR,
            forall|m2: int, n2: int, t: int|
                0 <= m2 < MR && 0 <= n2 < NR && 0 <= t < lanes ==> #[trigger] backend.vview(
                    acc@[offset(Layout::RowMajor, NR as int, m2, n2)],
                )[t] == chain(m2, n2, t, kk as nat),
        decreases K - kk,
    {
        let mut nv: usize = 0;
        while nv < NR
            invariant
                0 <= kk < K,
                0 <= nv <= NR,
                bv@.len() == NR,
                forall|n2: int, t: int|
                    0 <= n2 < nv && 0 <= t < lanes ==> #[trigger] backend.vview(bv@[n2])[t] == b@[offset(
                        Layout::RowMajor,
                        N as int,
                        kk as int,
                        (jb + n2) * lanes + t,
                    )],
            decreases NR - nv,
        {
            proof {
                lemma_panel_slot(nb as nat, K as nat, lanes as nat, (jb + nv) as int, kk as int);
                assert(offset(Layout::RowMajor, lanes as int, (jb + nv) * K + kk, 0) == ((jb + nv) * K + kk) * lanes);
                assert((jb + nv) * K + kk <= ((jb + nv) * K + kk) * lanes) by (nonlinear_arith)
                    requires
                        lanes >= 1,
                        (jb + nv) * K + kk >= 0,
                ;
            }
            let v = g.load_partial(bp, ((jb + nv) * K + kk) * lanes, lanes, T::zero());
            let ghost prev = bv@;
            bv.set(nv, v);
            proof {
                assert forall|n2: int, t: int| 0 <= n2 < nv + 1 && 0 <= t < lanes implies #[trigger] backend.vview(
                    bv@[n2],
                )[t] == b@[offset(Layout::RowMajor, N as int, kk as int, (jb + n2) * lanes + t)] by {
                    if n2 == nv {
                        assert(bp@[offset(Layout::RowMajor, lanes as int, (jb + nv) * K + kk, t)] == b@[offset(
                            Layout::RowMajor,
                            N as int,
                            kk as int,
                            (jb + nv) * lanes + t,
                        )]);
                    } else {
                        assert(bv@[n2] == prev[n2]);
                    }
                }
            }
            nv += 1;
        }
        let mut mr: usize = 0;
        while mr < MR
            invariant
                c@ == c0,
                0 <= kk < K,
                0 <= mr <= MR,
                acc@.len() == MR * NR,
                bv@.len() == NR,
                forall|n2: int, t: int|
                    0 <= n2 < NR && 0 <= t < lanes ==> #[trigger] backend.vview(bv@[n2])[t] == b@[offset(
                        Layout::RowMajor,
                        N as int,
                        kk as int,
                        (jb + n2) * lanes + t,
                    )],
                forall|m2: int, n2: int, t: int|
                    0 <= m2 < MR && 0 <= n2 < NR && 0 <= t < lanes ==> #[trigger] backend.vview(
                        acc@[offset(Layout::RowMajor, NR as int, m2, n2)],
                    )[t] == chain(m2, n2, t, if m2 < mr { (kk + 1) as nat } else { kk as nat }),
            decreases MR - mr,
        {
            proof {
                assert(offset(Layout::RowMajor, K as int, (i + mr) as int, kk as int) < M * K);
            }
            let av = backend.splat(a[(i + mr) * K + kk]);
            let mut nv: usize = 0;
            while nv < NR
                invariant
                    c@ == c0,
                    0 <= kk < K,
                    0 <= mr < MR,
                    0 <= nv <= NR,
                    acc@.len() == MR * NR,
                    bv@.len() == NR,
                    forall|t: int| 0 <= t < lanes ==> #[trigger] backend.vview(av)[t] == a@[offset(
                        Layout::RowMajor,
                        K as int,
                        (i + mr) as int,
                        kk as int,
                    )],
                    forall|n2: int, t: int|
                        0 <= n2 < NR && 0 <= t < lanes ==> #[trigger] backend.vview(bv@[n2])[t] == b@[offset(
                            Layout::RowMajor,
                            N as int,
                            kk as int,
                            (jb + n2) * lanes + t,
                        )],
                    forall|m2: int, n2: int, t: int|
                        0 <= m2 < MR && 0 <= n2 < NR && 0 <= t < lanes ==> #[trigger] backend.vview(
                            acc@[offset(Layout::RowMajor, NR as int, m2, n2)],
                        )[t] == chain(
                            m2,
                            n2,
                            t,
                            if m2 < mr || (m2 == mr && n2 < nv) {
                                (kk + 1) as nat
                            } else {
                                kk as nat
                            },
                        ),
                decreases NR - nv,
            {
                proof {
                    assert(mr * NR + nv < MR * NR) by (nonlinear_arith)
                        requires
                            mr < MR,
                            nv < NR,
                    ;
                }
                let ix = mr * NR + nv;
                proof {
                    assert(offset(Layout::RowMajor, NR as int, mr as int, nv as int) == ix);
                    assert(ix < MR * NR);
                }
                let x = backend.fma(av, bv[nv], acc[ix]);
                let ghost prev = acc@;
                acc.set(ix, x);
                proof {
                    assert forall|m2: int, n2: int, t: int|
                        0 <= m2 < MR && 0 <= n2 < NR && 0 <= t < lanes implies #[trigger] backend.vview(
                        acc@[offset(Layout::RowMajor, NR as int, m2, n2)],
                    )[t] == chain(
                        m2,
                        n2,
                        t,
                        if m2 < mr || (m2 == mr && n2 < nv + 1) {
                            (kk + 1) as nat
                        } else {
                            kk as nat
                        },
                    ) by {
                        if m2 == mr && n2 == nv {
                            assert(backend.vview(prev[ix as int])[t] == chain(m2, n2, t, kk as nat));
                        } else {
                            if offset(Layout::RowMajor, NR as int, m2, n2) == ix {
                                crate::dense::lemma_offset_injective(
                                    Layout::RowMajor,
                                    NR as nat,
                                    MR as nat,
                                    NR as nat,
                                    m2,
                                    n2,
                                    mr as int,
                                    nv as int,
                                );
                            }
                            assert(acc@[offset(Layout::RowMajor, NR as int, m2, n2)] == prev[offset(
                                Layout::RowMajor,
                                NR as int,
                                m2,
                                n2,
                            )]);
                        }
                    }
                }
                nv += 1;
            }
            mr += 1;
        }
        kk += 1;
    }
    let mut mr: usize = 0;
    while mr < MR
        invariant
            0 <= mr <= MR,
            acc@.len() == MR * NR,
            c@.len() == M * N,
            forall|m2: int, n2: int, t: int|
                0 <= m2 < MR && 0 <= n2 < NR && 0 <= t < lanes ==> #[trigger] backend.vview(
                    acc@[offset(Layout::RowMajor, NR as int, m2, n2)],
                )[t] == chain(m2, n2, t, K as nat),
            forall|r: int, q: int|
                0 <= r < M && 0 <= q < N ==> #[trigger] c@[offset(Layout::RowMajor, N as int, r, q)] == if i <= r
                    < i + mr && jb * lanes <= q < (jb + NR) * lanes {
                    mma_final(a@, b@, c0, N as nat, K as nat, r, q)
                } else {
                    c0[offset(Layout::RowMajor, N as int, r, q)]
                },
        decreases MR - mr,
    {
        let mut nv: usize = 0;
        while nv < NR
            invariant
                0 <= mr < MR,
                0 <= nv <= NR,
                acc@.len() == MR * NR,
                c@.len() == M * N,
                forall|m2: int, n2: int, t: int|
                    0 <= m2 < MR && 0 <= n2 < NR && 0 <= t < lanes ==> #[trigger] backend.vview(
                        acc@[offset(Layout::RowMajor, NR as int, m2, n2)],
                    )[t] == chain(m2, n2, t, K as nat),
                forall|r: int, q: int|
                    0 <= r < M && 0 <= q < N ==> #[trigger] c@[offset(Layout::RowMajor, N as int, r, q)] == if (i
                        <= r < i + mr && jb * lanes <= q < (jb + NR) * lanes) || (r == i + mr && jb * lanes <= q
                        < (jb + nv) * lanes) {
                        mma_final(a@, b@, c0, N as nat, K as nat, r, q)
                    } else {
                        c0[offset(Layout::RowMajor, N as int, r, q)]
                    },
            decreases NR - nv,
        {
            proof {
                assert((jb + nv) * lanes + lanes <= N) by (nonlinear_arith)
                    requires
                        jb + nv < nb,
                        nb * lanes <= N,
                ;
                assert(offset(Layout::RowMajor, N as int, (i + mr) as int, ((jb + nv) * lanes + lanes - 1) as int) < M * N);
                assert(offset(Layout::RowMajor, N as int, (i + mr) as int, 0) <= offset(
                    Layout::RowMajor,
                    N as int,
                    (i + mr) as int,
                    ((jb + nv) * lanes) as int,
                ));
                assert(offset(Layout::RowMajor, NR as int, mr as int, nv as int) == mr * NR + nv);
            }
            let dst = (i + mr) * N + (jb + nv) * lanes;
            let v = acc[mr * NR + nv];
            let ghost before = c@;
            g.store_partial(v, c.as_mut_slice(), dst, lanes);
            proof {
                assert forall|r: int, q: int| 0 <= r < M && 0 <= q < N implies #[trigger] c@[offset(
                    Layout::RowMajor,
                    N as int,
                    r,
                    q,
                )] == if (i <= r < i + mr && jb * lanes <= q < (jb + NR) * lanes) || (r == i + mr && jb * lanes
                    <= q < (jb + nv + 1) * lanes) {
                    mma_final(a@, b@, c0, N as nat, K as nat, r, q)
                } else {
                    c0[offset(Layout::RowMajor, N as int, r, q)]
                } by {
                    let o = offset(Layout::RowMajor, N as int, r, q);
                    assert((jb + nv + 1) * lanes == (jb + nv) * lanes + lanes) by (nonlinear_arith);
                    if dst <= o < dst + lanes {
                        let t = o - dst;
                        assert(slot(mr as int, nv as int, t) == o);
                        assert(offset(Layout::RowMajor, N as int, (i + mr) as int, (jb + nv) * lanes + t) == o);
                        assert(r == i + mr && q == (jb + nv) * lanes + t) by {
                            lemma_rm_slots(M as nat, N as nat);
                        }
                        assert(c@[o] == backend.vview(v)[t]);
                        assert(backend.vview(acc@[offset(Layout::RowMajor, NR as int, mr as int, nv as int)])[t]
                            == chain(mr as int, nv as int, t, K as nat));
                        assert(c@[o] == mma_final(a@, b@, c0, N as nat, K as nat, r, q));
                        assert((i <= r < i + mr && jb * lanes <= q < (jb + NR) * lanes) || (r == i + mr && jb
                            * lanes <= q < (jb + nv + 1) * lanes)) by (nonlinear_arith)
                            requires
                                r == i + mr,
                                q == (jb + nv) * lanes + t,
                                0 <= t < lanes,
                                (jb + nv + 1) * lanes == (jb + nv) * lanes + lanes,
                                jb <= jb + nv,
                                lanes >= 1,
                        ;
                    } else {
                        assert(c@[o] == before[o]);
                        if r == i + mr && (jb + nv) * lanes <= q < (jb + nv) * lanes + lanes {
                            assert(o == dst + (q - (jb + nv) * lanes));
                        }
                    }
                }
            }
            nv += 1;
        }
        proof {
            assert forall|r: int, q: int| 0 <= r < M && 0 <= q < N implies #[trigger] c@[offset(
                Layout::RowMajor,
                N as int,
                r,
                q,
            )] == if i <= r < i + mr + 1 && jb * lanes <= q < (jb + NR) * lanes {
                mma_final(a@, b@, c0, N as nat, K as nat, r, q)
            } else {
                c0[offset(Layout::RowMajor, N as int, r, q)]
            } by {
            }
        }
        mr += 1;
    }
}

/// Register-blocked, `B`-packed GEMM: `B` is packed once into contiguous `lanes`-wide column
/// panels, and an `MR`-row × `NR`-panel micro-tile of `C` is held in `MR·NR` independent
/// accumulators across the `K` reduction, so the `fma` latency is hidden and each load feeds
/// several chains. Edge blocks and the `N % lanes` columns take single-accumulator and scalar
/// paths. Every entry folds the same `fma` chain in the same order as [`simd_gemm`].
#[verifier::loop_isolation(false)]
#[verifier::rlimit(40)]
pub fn packed_gemm<T: FloatScalar, B: Backend<T>, const M: usize, const N: usize, const K: usize, const MR: usize, const NR: usize>(
    backend: B,
    a: &[T],
    b: &[T],
    c: Vec<T>,
) -> (d: Vec<T>)
    requires
        a@.len() == M * K,
        b@.len() == K * N,
        c@.len() == M * N,
        MR >= 1,
        NR >= 1,
    ensures
        is_mma(d@, a@, b@, c@, M as nat, N as nat, K as nat),
{
    proof {
        backend.lemma_shape();
        lemma_rm_slots(M as nat, N as nat);
        lemma_rm_slots(M as nat, K as nat);
        lemma_rm_slots(K as nat, N as nat);
    }
    let g = Gang::new(backend);
    let lanes = backend.lanes();
    let alen = a.len();
    let blen = b.len();
    assert(g.backend.lanes_spec() == lanes);
    let nb = N / lanes;
    proof {
        vstd::arithmetic::div_mod::lemma_fundamental_div_mod(N as int, lanes as int);
        assert(nb * lanes <= N) by (nonlinear_arith)
            requires
                N == lanes * (N / lanes) + N % lanes,
                0 <= N % lanes,
                nb == N / lanes,
        ;
    }
    let full = nb * lanes;
    let bp = pack_panels(g, b, N, K, nb);
    let ghost c0 = c@;
    let clen = c.len();
    let mut c = c;
    let mut i: usize = 0;
    while MR <= M - i
        invariant
            c@.len() == M * N,
            i <= M,
            forall|r: int, q: int|
                0 <= r < M && 0 <= q < N ==> #[trigger] c@[offset(Layout::RowMajor, N as int, r, q)] == if q < full
                    && r < i {
                    mma_final(a@, b@, c0, N as nat, K as nat, r, q)
                } else {
                    c0[offset(Layout::RowMajor, N as int, r, q)]
                },
        decreases M - i,
    {
        let mut jb: usize = 0;
        while NR <= nb - jb
            invariant
                c@.len() == M * N,
                i + MR <= M,
                jb <= nb,
                forall|r: int, q: int|
                    0 <= r < M && 0 <= q < N ==> #[trigger] c@[offset(Layout::RowMajor, N as int, r, q)] == if q
                        < full && (r < i || (i <= r < i + MR && q < jb * lanes)) {
                        mma_final(a@, b@, c0, N as nat, K as nat, r, q)
                    } else {
                        c0[offset(Layout::RowMajor, N as int, r, q)]
                    },
            decreases nb - jb,
        {
            let ghost before = c@;
            micro_tile::<T, B, M, N, K, MR, NR>(g, a, b, bp.as_slice(), &mut c, i, jb, nb);
            proof {
                assert((jb + NR) * lanes <= full) by (nonlinear_arith)
                    requires
                        jb + NR <= nb,
                        full == nb * lanes,
                ;
                assert(jb * lanes <= (jb + NR) * lanes) by (nonlinear_arith);
                assert forall|r: int, q: int| 0 <= r < M && 0 <= q < N implies #[trigger] c@[offset(
                    Layout::RowMajor,
                    N as int,
                    r,
                    q,
                )] == if q < full && (r < i || (i <= r < i + MR && q < (jb + NR) * lanes)) {
                    mma_final(a@, b@, c0, N as nat, K as nat, r, q)
                } else {
                    c0[offset(Layout::RowMajor, N as int, r, q)]
                } by {
                    if i <= r < i + MR && jb * lanes <= q < (jb + NR) * lanes {
                        assert(before[offset(Layout::RowMajor, N as int, r, q)] == c0[offset(
                            Layout::RowMajor,
                            N as int,
                            r,
                            q,
                        )]);
                        assert(c@[offset(Layout::RowMajor, N as int, r, q)] == mma_final(
                            a@,
                            b@,
                            before,
                            N as nat,
                            K as nat,
                            r,
                            q,
                        ));
                        assert(mma_final(a@, b@, before, N as nat, K as nat, r, q) == mma_final(
                            a@,
                            b@,
                            c0,
                            N as nat,
                            K as nat,
                            r,
                            q,
                        ));
                        assert(q < full);
                    } else {
                        assert(c@[offset(Layout::RowMajor, N as int, r, q)] == before[offset(
                            Layout::RowMajor,
                            N as int,
                            r,
                            q,
                        )]);
                    }
                }
            }
            jb += NR;
        }
        while jb < nb
            invariant
                c@.len() == M * N,
                i + MR <= M,
                jb <= nb,
                forall|r: int, q: int|
                    0 <= r < M && 0 <= q < N ==> #[trigger] c@[offset(Layout::RowMajor, N as int, r, q)] == if q
                        < full && (r < i || (i <= r < i + MR && q < jb * lanes)) {
                        mma_final(a@, b@, c0, N as nat, K as nat, r, q)
                    } else {
                        c0[offset(Layout::RowMajor, N as int, r, q)]
                    },
            decreases nb - jb,
        {
            proof {
                assert(jb * lanes + lanes <= full) by (nonlinear_arith)
                    requires
                        jb < nb,
                        full == nb * lanes,
                ;
            }
            let mut mr: usize = 0;
            while mr < MR
                invariant
                    c@.len() == M * N,
                    i + MR <= M,
                    jb < nb,
                    mr <= MR,
                    forall|r: int, q: int|
                        0 <= r < M && 0 <= q < N ==> #[trigger] c@[offset(Layout::RowMajor, N as int, r, q)]
                            == if q < full && (r < i || (i <= r < i + MR && q < jb * lanes) || (i <= r < i + mr
                            && jb * lanes <= q < jb * lanes + lanes)) {
                            mma_final(a@, b@, c0, N as nat, K as nat, r, q)
                        } else {
                            c0[offset(Layout::RowMajor, N as int, r, q)]
                        },
                decreases MR - mr,
            {
                let ghost before = c@;
                edge::<T, B, M, N, K>(g, a, b, bp.as_slice(), &mut c, i + mr, jb, nb);
                proof {
                    assert forall|r: int, q: int| 0 <= r < M && 0 <= q < N implies #[trigger] c@[offset(
                        Layout::RowMajor,
                        N as int,
                        r,
                        q,
                    )] == if q < full && (r < i || (i <= r < i + MR && q < jb * lanes) || (i <= r < i + mr + 1
                        && jb * lanes <= q < jb * lanes + lanes)) {
                        mma_final(a@, b@, c0, N as nat, K as nat, r, q)
                    } else {
                        c0[offset(Layout::RowMajor, N as int, r, q)]
                    } by {
                        if r == i + mr && jb * lanes <= q < jb * lanes + lanes {
                            assert(before[offset(Layout::RowMajor, N as int, r, q)] == c0[offset(
                                Layout::RowMajor,
                                N as int,
                                r,
                                q,
                            )]);
                        }
                    }
                }
                mr += 1;
            }
            proof {
                assert((jb + 1) * lanes == jb * lanes + lanes) by (nonlinear_arith);
            }
            jb += 1;
        }
        proof {
            assert(nb * lanes == full);
        }
        i += MR;
    }
    while i < M
        invariant
            c@.len() == M * N,
            i <= M,
            forall|r: int, q: int|
                0 <= r < M && 0 <= q < N ==> #[trigger] c@[offset(Layout::RowMajor, N as int, r, q)] == if q < full
                    && r < i {
                    mma_final(a@, b@, c0, N as nat, K as nat, r, q)
                } else {
                    c0[offset(Layout::RowMajor, N as int, r, q)]
                },
        decreases M - i,
    {
        let mut jb: usize = 0;
        while jb < nb
            invariant
                c@.len() == M * N,
                i < M,
                jb <= nb,
                forall|r: int, q: int|
                    0 <= r < M && 0 <= q < N ==> #[trigger] c@[offset(Layout::RowMajor, N as int, r, q)] == if q
                        < full && (r < i || (r == i && q < jb * lanes)) {
                        mma_final(a@, b@, c0, N as nat, K as nat, r, q)
                    } else {
                        c0[offset(Layout::RowMajor, N as int, r, q)]
                    },
            decreases nb - jb,
        {
            let ghost before = c@;
            edge::<T, B, M, N, K>(g, a, b, bp.as_slice(), &mut c, i, jb, nb);
            proof {
                assert((jb + 1) * lanes == jb * lanes + lanes) by (nonlinear_arith);
                assert(jb * lanes + lanes <= full) by (nonlinear_arith)
                    requires
                        jb < nb,
                        full == nb * lanes,
                ;
                assert forall|r: int, q: int| 0 <= r < M && 0 <= q < N implies #[trigger] c@[offset(
                    Layout::RowMajor,
                    N as int,
                    r,
                    q,
                )] == if q < full && (r < i || (r == i && q < (jb + 1) * lanes)) {
                    mma_final(a@, b@, c0, N as nat, K as nat, r, q)
                } else {
                    c0[offset(Layout::RowMajor, N as int, r, q)]
                } by {
                    if r == i && jb * lanes <= q < jb * lanes + lanes {
                        assert(before[offset(Layout::RowMajor, N as int, r, q)] == c0[offset(
                            Layout::RowMajor,
                            N as int,
                            r,
                            q,
                        )]);
                    }
                }
            }
            jb += 1;
        }
        i += 1;
    }
    let mut i: usize = 0;
    while i < M
        invariant
            c@.len() == M * N,
            i <= M,
            forall|r: int, q: int|
                0 <= r < M && 0 <= q < N ==> #[trigger] c@[offset(Layout::RowMajor, N as int, r, q)] == if q < full
                    || r < i {
                    mma_final(a@, b@, c0, N as nat, K as nat, r, q)
                } else {
                    c0[offset(Layout::RowMajor, N as int, r, q)]
                },
        decreases M - i,
    {
        let mut j: usize = full;
        while j < N
            invariant
                c@.len() == M * N,
                i < M,
                full <= j <= N,
                forall|r: int, q: int|
                    0 <= r < M && 0 <= q < N ==> #[trigger] c@[offset(Layout::RowMajor, N as int, r, q)] == if q
                        < full || r < i || (r == i && q < j) {
                        mma_final(a@, b@, c0, N as nat, K as nat, r, q)
                    } else {
                        c0[offset(Layout::RowMajor, N as int, r, q)]
                    },
            decreases N - j,
        {
            assert(offset(Layout::RowMajor, N as int, i as int, j as int) < M * N);
            let mut sacc = c[i * N + j];
            let mut kk: usize = 0;
            while kk < K
                invariant
                    c@.len() == M * N,
                    i < M,
                    j < N,
                    0 <= kk <= K,
                    sacc == mma_chain(
                        a@,
                        b@,
                        c0[offset(Layout::RowMajor, N as int, i as int, j as int)],
                        N as nat,
                        K as nat,
                        i as int,
                        j as int,
                        kk as nat,
                    ),
                decreases K - kk,
            {
                assert(offset(Layout::RowMajor, K as int, i as int, kk as int) < M * K);
                assert(offset(Layout::RowMajor, N as int, kk as int, j as int) < K * N);
                sacc = a[i * K + kk].fma(b[kk * N + j], sacc);
                kk += 1;
            }
            let ghost before = c@;
            c.set(i * N + j, sacc);
            proof {
                assert forall|r: int, q: int| 0 <= r < M && 0 <= q < N implies #[trigger] c@[offset(
                    Layout::RowMajor,
                    N as int,
                    r,
                    q,
                )] == if q < full || r < i || (r == i && q < j + 1) {
                    mma_final(a@, b@, c0, N as nat, K as nat, r, q)
                } else {
                    c0[offset(Layout::RowMajor, N as int, r, q)]
                } by {
                    if offset(Layout::RowMajor, N as int, r, q) != offset(Layout::RowMajor, N as int, i as int, j as int) {
                        assert(c@[offset(Layout::RowMajor, N as int, r, q)] == before[offset(Layout::RowMajor, N as int, r, q)]);
                    }
                }
            }
            j += 1;
        }
        i += 1;
    }
    c
}

/// Seal for [`Role`]: the three roles below are exhaustive.
pub trait Sealed {}

/// Which operand of `D = A·B + C` a tile is: a compile-time marker (SPIR-V's cooperative-matrix
/// `Use`); on the CPU it is phantom, so one kernel source serves every backend.
pub trait Role: Sealed + Copy {
    /// The SPIR-V `CooperativeMatrixUse` value (`MatrixA`/`MatrixB`/`MatrixAccumulator`).
    const USE: u32;
}

/// The left operand `A` (`M×K`).
#[derive(Clone, Copy)]
pub struct MatrixA;

/// The right operand `B` (`K×N`).
#[derive(Clone, Copy)]
pub struct MatrixB;

/// The accumulator `C`/`D` (`M×N`).
#[derive(Clone, Copy)]
pub struct Accumulator;

impl Sealed for MatrixA {}

impl Sealed for MatrixB {}

impl Sealed for Accumulator {}

impl Role for MatrixA {
    const USE: u32 = 0;
}

impl Role for MatrixB {
    const USE: u32 = 1;
}

impl Role for Accumulator {
    const USE: u32 = 2;
}

/// Every element of an `r×c` tile at this stride and layout lies inside `len` slots.
pub open spec fn tile_fits(layout: Layout, stride: nat, r: nat, c: nat, len: nat) -> bool {
    r == 0 || c == 0 || offset(layout, stride as int, r - 1, c - 1) < len
}

proof fn lemma_tile_fits(layout: Layout, stride: nat, rr: nat, cc: nat, len: nat, r: int, c: int)
    requires
        tile_fits(layout, stride, rr, cc, len),
        0 <= r < rr,
        0 <= c < cc,
    ensures
        0 <= offset(layout, stride as int, r, c) < len,
{
    match layout {
        Layout::RowMajor => {
            assert(0 <= r * stride + c <= (rr - 1) * stride + (cc - 1)) by (nonlinear_arith)
                requires
                    0 <= r < rr,
                    0 <= c < cc,
            ;
        },
        Layout::ColMajor => {
            assert(0 <= c * stride + r <= (cc - 1) * stride + (rr - 1)) by (nonlinear_arith)
                requires
                    0 <= r < rr,
                    0 <= c < cc,
            ;
        },
    }
}

/// A borrowing view of a read-only `R×C` input tile: the caller's slice plus stride and layout.
/// Element access honors the layout; the dense row-major case hands back the slice itself.
#[derive(Clone, Copy)]
pub struct View<'a, E, const R: usize, const C: usize> {
    pub mem: &'a [E],
    pub row_stride: usize,
    pub layout: Layout,
}

impl<'a, E: Scalar, const R: usize, const C: usize> View<'a, E, R, C> {
    /// Element `(r, c)`, honoring the view's stride and layout.
    pub fn get(self, r: usize, c: usize) -> (e: E)
        requires
            r < R,
            c < C,
            tile_fits(self.layout, self.row_stride as nat, R as nat, C as nat, self.mem@.len()),
        ensures
            e == self.mem@[offset(self.layout, self.row_stride as int, r as int, c as int)],
    {
        proof {
            lemma_tile_fits(self.layout, self.row_stride as nat, R as nat, C as nat, self.mem@.len(), r as int, c as int);
        }
        let len = self.mem.len();
        self.mem[tile_index(r, c, self.row_stride, self.layout)]
    }

    /// The backing slice iff the tile is dense row-major (`row_stride == C`): the zero-copy case
    /// a GEMM can pack straight from; `None` when a gather is needed.
    pub fn dense_ptr(self) -> (p: Option<&'a [E]>)
        ensures
            p is Some <==> (self.layout == Layout::RowMajor && self.row_stride == C),
            p matches Some(s) ==> s@ == self.mem@,
    {
        if self.layout == Layout::RowMajor && self.row_stride == C {
            Some(self.mem)
        } else {
            None
        }
    }
}

/// A backend that can hold matrix tiles and fuse-multiply-add them.
pub trait MatrixBackend<T: FloatScalar>: Backend<T> {
    /// `D = A·B + C` over row-major `M×K`, `K×N` and `M×N` operands.
    fn mma<const M: usize, const N: usize, const K: usize>(self, a: &[T], b: &[T], c: Vec<T>) -> (d:
        Vec<T>)
        requires
            a@.len() == M * K,
            b@.len() == K * N,
            c@.len() == M * N,
        ensures
            is_mma(d@, a@, b@, c@, M as nat, N as nat, K as nat),
    ;
}

impl<T: FloatScalar> MatrixBackend<T> for ScalarBackend {
    fn mma<const M: usize, const N: usize, const K: usize>(self, a: &[T], b: &[T], c: Vec<T>) -> (d:
        Vec<T>) {
        array_mma::<T, ScalarBackend, M, N, K>(self, a, b, c)
    }
}

/// Vector registers the blocked GEMM budgets for: the baseline 16-register file.
pub const REGS: usize = 16;

/// `mma` on an element-wise backend: large tiles (every dimension at least 32, so `B` overflows
/// L1) take [`packed_gemm`] with an `MR = 4` × `NR` register block sized from the backend's
/// unroll factor and capped to fit [`REGS`]; small tiles stay on [`simd_gemm`].
pub fn array_mma<T: FloatScalar, B: Backend<T>, const M: usize, const N: usize, const K: usize>(
    backend: B,
    a: &[T],
    b: &[T],
    c: Vec<T>,
) -> (d: Vec<T>)
    requires
        a@.len() == M * K,
        b@.len() == K * N,
        c@.len() == M * N,
    ensures
        is_mma(d@, a@, b@, c@, M as nat, N as nat, K as nat),
{
    if M >= 32 && N >= 32 && K >= 32 {
        let u = Gang::new(backend).unroll::<T>();
        let by_regs = (REGS - 3) / 5;
        let q = u / 4 + if u % 4 == 0 {
            0
        } else {
            1
        };
        let lo = if q < 2 {
            2
        } else {
            q
        };
        let clamped = if lo > by_regs {
            by_regs
        } else {
            lo
        };
        let nr = if clamped < 4 {
            clamped
        } else {
            4
        };
        return match nr {
            2 => packed_gemm::<T, B, M, N, K, 4, 2>(backend, a, b, c),
            3 => packed_gemm::<T, B, M, N, K, 4, 3>(backend, a, b, c),
            _ => packed_gemm::<T, B, M, N, K, 4, 4>(backend, a, b, c),
        };
    }
    simd_gemm::<T, B, M, N, K>(backend, a, b, c)
}

/// `A·B + C` has one value: any two results that meet [`is_mma`] for the same operands are
/// equal, so every blocking of the GEMM ([`simd_gemm`], each [`packed_gemm`] block width) agrees
/// exactly with every other.
pub proof fn lemma_mma_unique<T: FloatScalar>(
    d1: Seq<T>,
    d2: Seq<T>,
    a: Seq<T>,
    b: Seq<T>,
    c: Seq<T>,
    m: nat,
    n: nat,
    k: nat,
)
    requires
        is_mma(d1, a, b, c, m, n, k),
        is_mma(d2, a, b, c, m, n, k),
    ensures
        d1 == d2,
{
    assert forall|q: int| 0 <= q < m * n implies #[trigger] d1[q] == d2[q] by {
        let i = q / (n as int);
        let j = q % (n as int);
        vstd::arithmetic::div_mod::lemma_fundamental_div_mod(q, n as int);
        assert(0 <= i < m) by (nonlinear_arith)
            requires
                0 <= q < m * n,
                i == q / (n as int),
                n > 0,
        ;
        assert(q == offset(Layout::RowMajor, n as int, i, j)) by (nonlinear_arith)
            requires
                q == (n as int) * i + j,
        ;
    }
    assert(d1 =~= d2);
}

/// Copy an `R×C` tile out of `mem` into a dense row-major array.
#[verifier::loop_isolation(false)]
fn load_tile<E: Scalar, const R: usize, const C: usize>(mem: &[E], row_stride: usize, layout: Layout) -> (t:
    Vec<E>)
    requires
        tile_fits(layout, row_stride as nat, R as nat, C as nat, mem@.len()),
        R * C <= usize::MAX,
    ensures
        t@.len() == R * C,
        forall|r: int, c: int|
            0 <= r < R && 0 <= c < C ==> #[trigger] t@[offset(Layout::RowMajor, C as int, r, c)]
                == mem@[offset(layout, row_stride as int, r, c)],
{
    proof {
        lemma_rm_slots(R as nat, C as nat);
    }
    let view = View::<E, R, C> { mem, row_stride, layout };
    let mut t = filled(E::zero(), R * C);
    let mut r: usize = 0;
    while r < R
        invariant
            t@.len() == R * C,
            R * C <= usize::MAX,
            tile_fits(layout, row_stride as nat, R as nat, C as nat, mem@.len()),
            0 <= r <= R,
            forall|i: int, j: int|
                0 <= i < r && 0 <= j < C ==> #[trigger] t@[offset(Layout::RowMajor, C as int, i, j)]
                    == mem@[offset(layout, row_stride as int, i, j)],
        decreases R - r,
    {
        let mut c: usize = 0;
        while c < C
            invariant
                t@.len() == R * C,
                R * C <= usize::MAX,
                tile_fits(layout, row_stride as nat, R as nat, C as nat, mem@.len()),
                0 <= r < R,
                0 <= c <= C,
                forall|i: int, j: int|
                    0 <= i < R && 0 <= j < C && (i < r || (i == r && j < c)) ==> #[trigger] t@[offset(
                        Layout::RowMajor,
                        C as int,
                        i,
                        j,
                    )] == mem@[offset(layout, row_stride as int, i, j)],
            decreases C - c,
        {
            proof {
                lemma_tile_fits(layout, row_stride as nat, R as nat, C as nat, mem@.len(), r as int, c as int);
                lemma_rm_slots(R as nat, C as nat);
            }
            let v = view.get(r, c);
            assert(offset(Layout::RowMajor, C as int, r as int, c as int) < R * C);
            t.set(r * C + c, v);
            c += 1;
        }
        r += 1;
    }
    t
}

/// The slice after writing a row-major tile's first `k` elements, in row-major order, to the
/// slots this stride and layout give them.
pub open spec fn store_fold<E>(s: Seq<E>, elems: Seq<E>, layout: Layout, stride: int, cc: nat, k: nat) -> Seq<E>
    decreases k,
{
    if k == 0 || cc == 0 {
        s
    } else {
        let q = k - 1;
        store_fold(s, elems, layout, stride, cc, q as nat).update(
            offset(layout, stride, q / (cc as int), q % (cc as int)),
            elems[q],
        )
    }
}

/// A tile stored at a stride that keeps its elements apart reads back unchanged: after the
/// first `k` row-major elements are written, each written element sits at its slot, each
/// unwritten one still shows the old slice, and nothing outside the tile's footprint changed.
pub proof fn lemma_store_fold<E>(s: Seq<E>, elems: Seq<E>, layout: Layout, stride: nat, rr: nat, cc: nat, k: nat)
    requires
        tile_fits(layout, stride, rr, cc, s.len()),
        stride >= crate::dense::inner_dim(layout, rr, cc),
        k <= rr * cc,
    ensures
        store_fold(s, elems, layout, stride as int, cc, k).len() == s.len(),
        forall|r: int, c: int|
            0 <= r < rr && 0 <= c < cc ==> #[trigger] store_fold(s, elems, layout, stride as int, cc, k)[offset(
                layout,
                stride as int,
                r,
                c,
            )] == if offset(Layout::RowMajor, cc as int, r, c) < k {
                elems[offset(Layout::RowMajor, cc as int, r, c)]
            } else {
                s[offset(layout, stride as int, r, c)]
            },
        forall|q: int|
            0 <= q < s.len() && !crate::dense::in_region(layout, stride, rr, cc, q) ==> #[trigger] store_fold(
                s,
                elems,
                layout,
                stride as int,
                cc,
                k,
            )[q] == s[q],
    decreases k,
{
    if k > 0 && cc > 0 {
        lemma_store_fold(s, elems, layout, stride, rr, cc, (k - 1) as nat);
        let q = k - 1;
        let r0 = q / (cc as int);
        let c0 = q % (cc as int);
        vstd::arithmetic::div_mod::lemma_fundamental_div_mod(q, cc as int);
        assert(0 <= r0 < rr) by (nonlinear_arith)
            requires
                0 <= q < rr * cc,
                r0 == q / (cc as int),
                cc > 0,
        ;
        assert(q == offset(Layout::RowMajor, cc as int, r0, c0)) by (nonlinear_arith)
            requires
                q == (cc as int) * r0 + c0,
        ;
        lemma_tile_fits(layout, stride, rr, cc, s.len(), r0, c0);
        assert forall|r: int, c: int| 0 <= r < rr && 0 <= c < cc implies #[trigger] store_fold(
            s,
            elems,
            layout,
            stride as int,
            cc,
            k,
        )[offset(layout, stride as int, r, c)] == if offset(Layout::RowMajor, cc as int, r, c) < k {
            elems[offset(Layout::RowMajor, cc as int, r, c)]
        } else {
            s[offset(layout, stride as int, r, c)]
        } by {
            lemma_tile_fits(layout, stride, rr, cc, s.len(), r, c);
            if offset(layout, stride as int, r, c) == offset(layout, stride as int, r0, c0) {
                crate::dense::lemma_offset_injective(layout, stride, rr, cc, r, c, r0, c0);
            } else if offset(Layout::RowMajor, cc as int, r, c) == q {
                crate::dense::lemma_offset_injective(Layout::RowMajor, cc, rr, cc, r, c, r0, c0);
            }
        }
        assert forall|qq: int|
            0 <= qq < s.len() && !crate::dense::in_region(layout, stride, rr, cc, qq) implies #[trigger] store_fold(
            s,
            elems,
            layout,
            stride as int,
            cc,
            k,
        )[qq] == s[qq] by {
            if qq == offset(layout, stride as int, r0, c0) {
                assert(crate::dense::in_region(layout, stride, rr, cc, qq));
            }
        }
    }
}

/// Write a dense row-major `R×C` tile to `out` at this stride and layout, in row-major order.
#[verifier::loop_isolation(false)]
fn store_tile<E: Scalar, const R: usize, const C: usize>(elems: &[E], out: &mut [E], row_stride: usize, layout: Layout)
    requires
        elems@.len() == R * C,
        tile_fits(layout, row_stride as nat, R as nat, C as nat, old(out)@.len()),
    ensures
        final(out)@ == store_fold(old(out)@, elems@, layout, row_stride as int, C as nat, (R * C) as nat),
{
    let ghost o0 = out@;
    let len = out.len();
    let elen = elems.len();
    proof {
        lemma_rm_slots(R as nat, C as nat);
    }
    let mut r: usize = 0;
    while r < R
        invariant
            elems@.len() == R * C,
            elen == R * C,
            tile_fits(layout, row_stride as nat, R as nat, C as nat, o0.len()),
            out@.len() == o0.len(),
            o0.len() == len,
            0 <= r <= R,
            out@ == store_fold(o0, elems@, layout, row_stride as int, C as nat, (r * C) as nat),
        decreases R - r,
    {
        let mut c: usize = 0;
        while c < C
            invariant
                elems@.len() == R * C,
                elen == R * C,
                tile_fits(layout, row_stride as nat, R as nat, C as nat, o0.len()),
                out@.len() == o0.len(),
                o0.len() == len,
                0 <= r < R,
                0 <= c <= C,
                out@ == store_fold(o0, elems@, layout, row_stride as int, C as nat, (r * C + c) as nat),
            decreases C - c,
        {
            proof {
                lemma_tile_fits(layout, row_stride as nat, R as nat, C as nat, o0.len(), r as int, c as int);
                vstd::arithmetic::div_mod::lemma_fundamental_div_mod_converse(
                    (r * C + c) as int,
                    C as int,
                    r as int,
                    c as int,
                );
                assert(offset(Layout::RowMajor, C as int, r as int, c as int) < R * C);
            }
            let v = elems[r * C + c];
            let o = tile_index(r, c, row_stride, layout);
            out[o] = v;
            c += 1;
        }
        proof {
            assert((r * C + C) as nat == ((r + 1) * C) as nat) by (nonlinear_arith);
        }
        r += 1;
    }
}

/// The tile / matrix-multiply surface reached from a [`Gang`] via [`Gang::tiles`].
pub struct Tiles<T, S> {
    pub backend: S,
    pub elem: PhantomData<T>,
}

impl<T, S: Copy> Clone for Tiles<T, S> {
    fn clone(&self) -> (r: Self)
        ensures
            r.backend == self.backend,
    {
        Tiles { backend: self.backend, elem: PhantomData }
    }
}

impl<T, S: Copy> Copy for Tiles<T, S> {}

/// A tile value: a dense row-major `R×C` array of `E` in role `Ro`, carrying the backend token so a
/// kernel chains `load`/`mma`/`map`/`store` without naming the backend.
pub struct Tile<T, S, E, const R: usize, const C: usize, Ro> {
    pub backend: S,
    pub elems: Vec<E>,
    pub marker: PhantomData<(T, Ro)>,
}

impl<S: Copy> Gang<S> {
    /// Gateway to the tile / matrix-multiply surface for element `T`.
    pub fn tiles<T: FloatScalar>(self) -> (t: Tiles<T, S>) where S: MatrixBackend<T>
        ensures
            t.backend == self.backend,
    {
        Tiles { backend: self.backend(), elem: PhantomData }
    }
}

impl<T: FloatScalar, S: MatrixBackend<T>> Tiles<T, S> {
    /// Load the `M×K` left operand `A` from memory.
    pub fn load_a<const M: usize, const K: usize>(self, mem: &[T], row_stride: usize, layout: Layout) -> (t:
        Tile<T, S, T, M, K, MatrixA>)
        requires
            tile_fits(layout, row_stride as nat, M as nat, K as nat, mem@.len()),
            M * K <= usize::MAX,
        ensures
            t.backend == self.backend,
            t.elems@.len() == M * K,
            forall|r: int, c: int|
                0 <= r < M && 0 <= c < K ==> #[trigger] t.elems@[offset(Layout::RowMajor, K as int, r, c)]
                    == mem@[offset(layout, row_stride as int, r, c)],
    {
        Tile { backend: self.backend, elems: load_tile::<T, M, K>(mem, row_stride, layout), marker: PhantomData }
    }

    /// Load the `K×N` right operand `B` from memory.
    pub fn load_b<const K: usize, const N: usize>(self, mem: &[T], row_stride: usize, layout: Layout) -> (t:
        Tile<T, S, T, K, N, MatrixB>)
        requires
            tile_fits(layout, row_stride as nat, K as nat, N as nat, mem@.len()),
            K * N <= usize::MAX,
        ensures
            t.backend == self.backend,
            t.elems@.len() == K * N,
            forall|r: int, c: int|
                0 <= r < K && 0 <= c < N ==> #[trigger] t.elems@[offset(Layout::RowMajor, N as int, r, c)]
                    == mem@[offset(layout, row_stride as int, r, c)],
    {
        Tile { backend: self.backend, elems: load_tile::<T, K, N>(mem, row_stride, layout), marker: PhantomData }
    }

    /// Load the `M×N` accumulator `C` from memory.
    pub fn load_acc<const M: usize, const N: usize>(self, mem: &[T], row_stride: usize, layout: Layout) -> (t:
        Tile<T, S, T, M, N, Accumulator>)
        requires
            tile_fits(layout, row_stride as nat, M as nat, N as nat, mem@.len()),
            M * N <= usize::MAX,
        ensures
            t.backend == self.backend,
            t.elems@.len() == M * N,
            forall|r: int, c: int|
                0 <= r < M && 0 <= c < N ==> #[trigger] t.elems@[offset(Layout::RowMajor, N as int, r, c)]
                    == mem@[offset(layout, row_stride as int, r, c)],
    {
        Tile { backend: self.backend, elems: load_tile::<T, M, N>(mem, row_stride, layout), marker: PhantomData }
    }

    /// Load a contiguous row-major `M×K` `A` tile (`row_stride = K`).
    pub fn load_a_rm<const M: usize, const K: usize>(self, mem: &[T]) -> (t: Tile<T, S, T, M, K, MatrixA>)
        requires
            mem@.len() >= M * K,
        ensures
            t.backend == self.backend,
            t.elems@ == mem@.subrange(0, (M * K) as int),
    {
        let len = mem.len();
        proof {
            lemma_dense_fits(M as nat, K as nat, mem@.len());
        }
        let t = self.load_a::<M, K>(mem, K, Layout::RowMajor);
        proof {
            lemma_dense_copy(t.elems@, mem@, M as nat, K as nat);
        }
        t
    }

    /// Load a contiguous row-major `K×N` `B` tile (`row_stride = N`).
    pub fn load_b_rm<const K: usize, const N: usize>(self, mem: &[T]) -> (t: Tile<T, S, T, K, N, MatrixB>)
        requires
            mem@.len() >= K * N,
        ensures
            t.backend == self.backend,
            t.elems@ == mem@.subrange(0, (K * N) as int),
    {
        let len = mem.len();
        proof {
            lemma_dense_fits(K as nat, N as nat, mem@.len());
        }
        let t = self.load_b::<K, N>(mem, N, Layout::RowMajor);
        proof {
            lemma_dense_copy(t.elems@, mem@, K as nat, N as nat);
        }
        t
    }

    /// Load a contiguous row-major `M×N` accumulator (`row_stride = N`).
    pub fn load_acc_rm<const M: usize, const N: usize>(self, mem: &[T]) -> (t: Tile<T, S, T, M, N, Accumulator>)
        requires
            mem@.len() >= M * N,
        ensures
            t.backend == self.backend,
            t.elems@ == mem@.subrange(0, (M * N) as int),
    {
        let len = mem.len();
        proof {
            lemma_dense_fits(M as nat, N as nat, mem@.len());
        }
        let t = self.load_acc::<M, N>(mem, N, Layout::RowMajor);
        proof {
            lemma_dense_copy(t.elems@, mem@, M as nat, N as nat);
        }
        t
    }

    /// A zeroed `M×N` accumulator.
    pub fn zero_acc<const M: usize, const N: usize>(self) -> (t: Tile<T, S, T, M, N, Accumulator>)
        requires
            M * N <= usize::MAX,
        ensures
            t.backend == self.backend,
            t.elems@ == Seq::new((M * N) as nat, |q: int| T::zero_spec()),
    {
        self.splat_acc::<M, N>(T::zero())
    }

    /// An `M×N` accumulator with every element set to `v`.
    pub fn splat_acc<const M: usize, const N: usize>(self, v: T) -> (t: Tile<T, S, T, M, N, Accumulator>)
        requires
            M * N <= usize::MAX,
        ensures
            t.backend == self.backend,
            t.elems@ == Seq::new((M * N) as nat, |q: int| v),
    {
        Tile { backend: self.backend, elems: filled(v, M * N), marker: PhantomData }
    }

    /// `D = A·B + C`.
    pub fn mma<const M: usize, const N: usize, const K: usize>(
        self,
        a: Tile<T, S, T, M, K, MatrixA>,
        b: Tile<T, S, T, K, N, MatrixB>,
        c: Tile<T, S, T, M, N, Accumulator>,
    ) -> (d: Tile<T, S, T, M, N, Accumulator>)
        requires
            a.elems@.len() == M * K,
            b.elems@.len() == K * N,
            c.elems@.len() == M * N,
        ensures
            d.backend == self.backend,
            is_mma(d.elems@, a.elems@, b.elems@, c.elems@, M as nat, N as nat, K as nat),
    {
        let elems = self.backend.mma::<M, N, K>(a.elems.as_slice(), b.elems.as_slice(), c.elems);
        Tile { backend: self.backend, elems, marker: PhantomData }
    }
}

proof fn lemma_dense_fits(r: nat, c: nat, len: nat)
    requires
        len >= r * c,
    ensures
        tile_fits(Layout::RowMajor, c, r, c, len),
        r * c <= len,
{
    if r > 0 && c > 0 {
        assert((r - 1) * c + (c - 1) < r * c) by (nonlinear_arith)
            requires
                r > 0,
                c > 0,
        ;
    }
}

proof fn lemma_dense_copy<E>(t: Seq<E>, mem: Seq<E>, r: nat, c: nat)
    requires
        mem.len() >= r * c,
        t.len() == r * c,
        forall|i: int, j: int|
            0 <= i < r && 0 <= j < c ==> #[trigger] t[offset(Layout::RowMajor, c as int, i, j)]
                == mem[offset(Layout::RowMajor, c as int, i, j)],
    ensures
        t == mem.subrange(0, (r * c) as int),
{
    assert forall|q: int| 0 <= q < r * c implies #[trigger] t[q] == mem[q] by {
        let i = q / (c as int);
        let j = q % (c as int);
        vstd::arithmetic::div_mod::lemma_fundamental_div_mod(q, c as int);
        assert(0 <= i < r) by (nonlinear_arith)
            requires
                0 <= q < r * c,
                i == q / (c as int),
                c > 0,
        ;
        assert(q == offset(Layout::RowMajor, c as int, i, j)) by (nonlinear_arith)
            requires
                q == (c as int) * i + j,
        ;
    }
    assert(t =~= mem.subrange(0, (r * c) as int));
}

impl<T: FloatScalar, S: MatrixBackend<T>, E: Scalar, const R: usize, const C: usize, Ro: Role> Tile<
    T,
    S,
    E,
    R,
    C,
    Ro,
> {
    /// The raw tile storage: `R×C` elements, row-major.
    pub fn raw(self) -> (v: Vec<E>)
        ensures
            v@ == self.elems@,
    {
        self.elems
    }
}

/// Only the accumulator is ever stored or mapped: the input roles are read-only, so these
/// methods exist for `Accumulator` tiles alone.
impl<T: FloatScalar, S: MatrixBackend<T>, E: Scalar, const R: usize, const C: usize> Tile<
    T,
    S,
    E,
    R,
    C,
    Accumulator,
> {
    /// Store the tile to memory at this stride and layout, in row-major element order. Where
    /// the stride keeps distinct elements in distinct slots, element `(r, c)` lands at its slot and
    /// nothing else in `out` changes.
    pub fn store(self, out: &mut [E], row_stride: usize, layout: Layout)
        requires
            self.elems@.len() == R * C,
            tile_fits(layout, row_stride as nat, R as nat, C as nat, old(out)@.len()),
        ensures
            final(out)@ == store_fold(old(out)@, self.elems@, layout, row_stride as int, C as nat, (R * C) as nat),
            row_stride >= crate::dense::inner_dim(layout, R as nat, C as nat) ==> {
                &&& final(out)@.len() == old(out)@.len()
                &&& forall|r: int, c: int|
                    0 <= r < R && 0 <= c < C ==> #[trigger] final(out)@[offset(layout, row_stride as int, r, c)]
                        == self.elems@[offset(Layout::RowMajor, C as int, r, c)]
                &&& forall|q: int|
                    0 <= q < old(out)@.len() && !crate::dense::in_region(
                        layout,
                        row_stride as nat,
                        R as nat,
                        C as nat,
                        q,
                    ) ==> #[trigger] final(out)@[q] == old(out)@[q]
            },
    {
        store_tile::<E, R, C>(self.elems.as_slice(), out, row_stride, layout);
        proof {
            if row_stride >= crate::dense::inner_dim(layout, R as nat, C as nat) {
                lemma_store_fold(
                    old(out)@,
                    self.elems@,
                    layout,
                    row_stride as nat,
                    R as nat,
                    C as nat,
                    (R * C) as nat,
                );
                lemma_rm_slots(R as nat, C as nat);
            }
        }
    }

    /// Store the tile contiguously row-major (`row_stride = C`).
    pub fn store_rm(self, out: &mut [E])
        requires
            self.elems@.len() == R * C,
            old(out)@.len() >= R * C,
        ensures
            final(out)@ == self.elems@ + old(out)@.subrange(R * C, old(out)@.len() as int),
    {
        proof {
            lemma_dense_fits(R as nat, C as nat, old(out)@.len());
        }
        let ghost e = self.elems@;
        self.store(out, C, Layout::RowMajor);
        proof {
            lemma_rm_slots(R as nat, C as nat);
            assert forall|q: int| 0 <= q < old(out)@.len() implies #[trigger] final(out)@[q] == (e + old(
                out,
            )@.subrange(R * C, old(out)@.len() as int))[q] by {
                if q < R * C {
                    let i = q / (C as int);
                    let j = q % (C as int);
                    vstd::arithmetic::div_mod::lemma_fundamental_div_mod(q, C as int);
                    assert(0 <= i < R) by (nonlinear_arith)
                        requires
                            0 <= q < R * C,
                            i == q / (C as int),
                            C > 0,
                    ;
                    assert(q == offset(Layout::RowMajor, C as int, i, j)) by (nonlinear_arith)
                        requires
                            q == (C as int) * i + j,
                    ;
                } else {
                    if crate::dense::in_region(Layout::RowMajor, C as nat, R as nat, C as nat, q) {
                        let (i, j) = choose|i: int, j: int|
                            0 <= i < R && 0 <= j < C && #[trigger] offset(Layout::RowMajor, C as int, i, j)
                                == q;
                        assert(offset(Layout::RowMajor, C as int, i, j) < R * C);
                    }
                }
            }
            assert(final(out)@ =~= e + old(out)@.subrange(R * C, old(out)@.len() as int));
        }
    }

    /// Apply a position-independent function to every element (activation, bias, scale).
    pub fn map<F: Fn(E) -> E>(self, f: F) -> (t: Self)
        requires
            forall|e: E| #[trigger] f.requires((e,)),
        ensures
            t.backend == self.backend,
            t.elems@.len() == self.elems@.len(),
            forall|q: int| 0 <= q < self.elems@.len() ==> #[trigger] f.ensures((self.elems@[q],), t.elems@[q]),
    {
        let Tile { backend, elems, marker } = self;
        let n = elems.len();
        let mut out: Vec<E> = Vec::new();
        let mut q: usize = 0;
        while q < n
            invariant
                n == elems@.len(),
                forall|e: E| #[trigger] f.requires((e,)),
                out@.len() == q,
                q <= n,
                forall|p: int| 0 <= p < q ==> #[trigger] f.ensures((elems@[p],), out@[p]),
            decreases n - q,
        {
            let v = f(elems[q]);
            out.push(v);
            q += 1;
        }
        Tile { backend, elems: out, marker }
    }

    /// Store while applying a fused element-wise epilogue `f` (scale, bias, clamp, activation).
    pub fn store_ex<F: Fn(E) -> E>(self, out: &mut [E], row_stride: usize, layout: Layout, f: F)
        requires
            self.elems@.len() == R * C,
            tile_fits(layout, row_stride as nat, R as nat, C as nat, old(out)@.len()),
            forall|e: E| #[trigger] f.requires((e,)),
        ensures
            exists|m: Seq<E>|
                #![trigger store_fold(old(out)@, m, layout, row_stride as int, C as nat, (R * C) as nat)]
                m.len() == self.elems@.len() && (forall|q: int|
                    0 <= q < m.len() ==> #[trigger] f.ensures((self.elems@[q],), m[q])) && final(out)@
                    == store_fold(old(out)@, m, layout, row_stride as int, C as nat, (R * C) as nat),
    {
        let t = self.map(f);
        t.store(out, row_stride, layout);
    }

    /// Row-major [`store_ex`](Tile::store_ex) (`row_stride = C`).
    pub fn store_rm_ex<F: Fn(E) -> E>(self, out: &mut [E], f: F)
        requires
            self.elems@.len() == R * C,
            old(out)@.len() >= R * C,
            forall|e: E| #[trigger] f.requires((e,)),
        ensures
            final(out)@.len() == old(out)@.len(),
            forall|q: int| R * C <= q < old(out)@.len() ==> #[trigger] final(out)@[q] == old(out)@[q],
            forall|q: int| 0 <= q < R * C ==> #[trigger] f.ensures((self.elems@[q],), final(out)@[q]),
    {
        let t = self.map(f);
        t.store_rm(out);
    }
}

/// A matmul kernel: like [`Kernel`](crate::dispatch::Kernel), but its `run` receives a context
/// whose backend also supports tiles.
pub trait MatrixKernel<T: FloatScalar>: Sized {
    type Output;

    /// What the kernel needs of its own fields to run. Nothing, unless the kernel says
    /// otherwise.
    open spec fn ready(self) -> bool {
        true
    }

    /// The outputs the kernel may produce on a backend of `lanes` lanes. Any, unless the kernel
    /// says otherwise.
    open spec fn outcome(self, lanes: usize, out: Self::Output) -> bool {
        true
    }

    fn run<S: MatrixBackend<T>>(self, ctx: Gang<S>) -> (r: Self::Output)
        requires
            self.ready(),
        ensures
            self.outcome(ctx.backend.lanes_spec() as usize, r),
    ;
}

/// Run a matmul kernel on the always-available scalar backend (the correctness oracle).
pub fn run_matrix_scalar<T: FloatScalar, K: MatrixKernel<T>>(kernel: K) -> (r: K::Output)
    requires
        kernel.ready(),
    ensures
        kernel.outcome(1, r),
{
    kernel.run(Gang::new(ScalarBackend))
}

/// Per-scalar dispatch policy for matmul kernels, the [`SimdDispatch`](crate::dispatch::SimdDispatch)
/// analogue for [`MatrixKernel`]: an impl runs the kernel once, on some matrix backend of 1 to 32
/// lanes that the host supports.
pub trait MatrixDispatch: FloatScalar {
    fn dispatch_matrix<K: MatrixKernel<Self>>(kernel: K) -> (r: K::Output)
        requires
            kernel.ready(),
        ensures
            exists|l: usize| 1 <= l <= 32 && kernel.outcome(l, r),
    ;
}

/// Matrix dispatch agrees with the scalar oracle: a kernel whose outcome admits one output
/// whatever the lane count, given `dispatched` as [`dispatch_matrix`] promises and `scalar` as
/// [`run_matrix_scalar`] promises, has `dispatched == scalar`.
pub proof fn lemma_dispatch_matrix_agrees_with_scalar<T: FloatScalar, K: MatrixKernel<T>>(
    kernel: K,
    dispatched: K::Output,
    scalar: K::Output,
)
    requires
        forall|l1: usize, o1: K::Output, l2: usize, o2: K::Output|
            #[trigger] kernel.outcome(l1, o1) && #[trigger] kernel.outcome(l2, o2) ==> o1 == o2,
        exists|l: usize| 1 <= l <= 32 && kernel.outcome(l, dispatched),
        kernel.outcome(1, scalar),
    ensures
        dispatched == scalar,
{
    let l = choose|l: usize| 1 <= l <= 32 && kernel.outcome(l, dispatched);
    assert(kernel.outcome(l, dispatched));
    assert(kernel.outcome(1, scalar));
}

/// Run `kernel` on the best matrix backend available for `T`.
pub fn dispatch_matrix<T: MatrixDispatch, K: MatrixKernel<T>>(kernel: K) -> (r: K::Output)
    requires
        kernel.ready(),
    ensures
        exists|l: usize| 1 <= l <= 32 && kernel.outcome(l, r),
{
    T::dispatch_matrix(kernel)
}

} // verus!
