//! What the dense routines compute, stated from their inputs alone: each law takes a value a
//! routine's contract gives for one output entry and says what that entry is in terms of the
//! stored operands, the scalars `α`, `β` and the element operations, with every sum written as
//! the fused chain the routine folds.

use vstd::prelude::*;

use crate::dense::{
    axpy_chain, bwd_solve, elim_chain, fwd_solve, gemm_acc, gemm_entry, gemv_spec, op_lower, op_row,
    opposite, syrk_cell, tri_solve, trsm_entry, Diag, Mat, Side, Trans, Uplo,
};
use crate::matrix::Layout;
use crate::scalar::{fold_add, FloatScalar, Scalar};
use crate::varying::{dot_spec, lane_fma, nchunks, pad};

verus! {

/// Element `(r, c)` of the matrix held in `s` with this layout and stride.
pub open spec fn stored<T>(s: Seq<T>, layout: Layout, stride: int, r: int, c: int) -> T {
    match layout {
        Layout::RowMajor => s[r * stride + c],
        Layout::ColMajor => s[c * stride + r],
    }
}

/// Element `(i, p)` of `op(A)`: `A[i][p]` as stored, or `A[p][i]` under transposition.
pub open spec fn op_elem<T>(t: Trans, a: Mat<T>, i: int, p: int) -> T {
    match t {
        Trans::N => stored(a.data@, a.layout, a.stride as int, i, p),
        Trans::T => stored(a.data@, a.layout, a.stride as int, p, i),
    }
}

/// The first `n` elements of row `i` of `op(A)`.
pub open spec fn op_row_seq<T>(t: Trans, a: Mat<T>, i: int, n: nat) -> Seq<T> {
    Seq::new(n, |p: int| op_elem(t, a, i, p))
}

/// The first `n` elements of column `j` of `op(A)`.
pub open spec fn op_col_seq<T>(t: Trans, a: Mat<T>, j: int, n: nat) -> Seq<T> {
    Seq::new(n, |q: int| op_elem(t, a, q, j))
}

/// `u[n-1]·v[n-1] + (… + (u[0]·v[0] + init))` for `n = u.len()`: each product fused with the
/// running sum, in increasing index.
pub open spec fn fma_fold<T: FloatScalar>(u: Seq<T>, v: Seq<T>, init: T) -> T
    decreases u.len(),
{
    if u.len() == 0 {
        init
    } else {
        u.last().fma_spec(v[u.len() - 1], fma_fold(u.drop_last(), v, init))
    }
}

proof fn lemma_op_at<T>(t: Trans, a: Mat<T>, i: int, p: int)
    ensures
        crate::dense::op_at(t, a, i, p) == op_elem(t, a, i, p),
{
}

/// The gemm contraction is the fused chain over row `i` of `op(A)` and column `j` of `op(B)`.
proof fn lemma_gemm_acc<T: FloatScalar>(ta: Trans, a: Mat<T>, tb: Trans, b: Mat<T>, i: int, j: int, p: nat)
    ensures
        gemm_acc(ta, a, tb, b, i, j, p) == fma_fold(op_row_seq(ta, a, i, p), op_col_seq(tb, b, j, p), T::zero_spec()),
    decreases p,
{
    if p > 0 {
        lemma_gemm_acc(ta, a, tb, b, i, j, (p - 1) as nat);
        assert(op_row_seq(ta, a, i, p).drop_last() =~= op_row_seq(ta, a, i, (p - 1) as nat));
        lemma_op_at(ta, a, i, p - 1);
        lemma_op_at(tb, b, p - 1, j);
        let u = op_row_seq(ta, a, i, p);
        let v = op_col_seq(tb, b, j, p);
        let w = op_col_seq(tb, b, j, (p - 1) as nat);
        assert(fma_fold(u.drop_last(), v, T::zero_spec()) == fma_fold(u.drop_last(), w, T::zero_spec())) by {
            lemma_fold_prefix(u.drop_last(), v, w, T::zero_spec());
        }
    }
}

/// `fma_fold` reads `v` only at indices below `u.len()`.
proof fn lemma_fold_prefix<T: FloatScalar>(u: Seq<T>, v: Seq<T>, w: Seq<T>, init: T)
    requires
        u.len() <= v.len(),
        u.len() <= w.len(),
        forall|q: int| 0 <= q < u.len() ==> v[q] == w[q],
    ensures
        fma_fold(u, v, init) == fma_fold(u, w, init),
    decreases u.len(),
{
    if u.len() > 0 {
        lemma_fold_prefix(u.drop_last(), v, w, init);
    }
}

/// A one-lane dot product is the fused chain over the two sequences.
proof fn lemma_dot_one_lane<T: FloatScalar>(x: Seq<T>, y: Seq<T>)
    requires
        x.len() == y.len(),
    ensures
        dot_spec(x, y, 1) == fma_fold(x, y, T::zero_spec()),
{
    let n = x.len();
    assert(nchunks(n, 1) == n) by (nonlinear_arith)
        requires
            n == 0 || nchunks(n, 1) == ((n - 1) as nat / 1 + 1) as nat,
            n == 0 ==> nchunks(n, 1) == 0,
    ;
    lemma_lane_chain(x, y, n);
    assert(x.take(n as int) =~= x);
    let s = Seq::new(1, |t: int| lane_fma(x, y, 1, t, nchunks(x.len(), 1)));
    assert(fold_add(s) == s[0]);
}

/// One lane after `c` chunks of one element each is the fused chain over the first `c` elements.
proof fn lemma_lane_chain<T: FloatScalar>(x: Seq<T>, y: Seq<T>, c: nat)
    requires
        x.len() == y.len(),
        c <= x.len(),
    ensures
        lane_fma(x, y, 1, 0, c) == fma_fold(x.take(c as int), y, T::zero_spec()),
    decreases c,
{
    if c > 0 {
        lemma_lane_chain(x, y, (c - 1) as nat);
        assert(x.take(c as int).drop_last() =~= x.take(c - 1));
        assert(pad(x, c - 1) == x[c - 1] && pad(y, c - 1) == y[c - 1]);
    }
}

/// The axpy form of gemv folds column `p` of `op(A)` scaled by `α·x[p]` onto the running value.
proof fn lemma_axpy_chain<T: FloatScalar>(t: Trans, alpha: T, a: Mat<T>, x: Seq<T>, y0: T, i: int, kk: nat)
    requires
        kk <= x.len(),
    ensures
        axpy_chain(t, alpha, a, x, y0, i, kk) == fma_fold(
            op_row_seq(t, a, i, kk),
            Seq::new(x.len(), |p: int| alpha.mul_spec(x[p])),
            y0,
        ),
    decreases kk,
{
    if kk > 0 {
        lemma_axpy_chain(t, alpha, a, x, y0, i, (kk - 1) as nat);
        assert(op_row_seq(t, a, i, kk).drop_last() =~= op_row_seq(t, a, i, (kk - 1) as nat));
        lemma_op_at(t, a, i, kk - 1);
    }
}

/// gemm, entry `(i, j)`: the contraction `acc = Σ_q op(A)[i][q]·op(B)[q][j]` as a fused chain in
/// increasing `q` (for a column-major `C`, computed as `Cᵀ = op(B)ᵀ·op(A)ᵀ`, each product with
/// its factors the other way round); then `α·acc` fused with zero, with `α` as given; then, unless
/// `β = 0`, `β·C_old` fused in.
pub proof fn law_gemm_entry<T: FloatScalar>(
    layout: Layout,
    ta: Trans,
    a: Mat<T>,
    tb: Trans,
    b: Mat<T>,
    alpha: T,
    beta: T,
    cold: T,
    i: int,
    j: int,
    k: nat,
    r: T,
)
    requires
        r == gemm_entry(layout, ta, a, tb, b, alpha, beta, cold, i, j, k),
    ensures
        ({
            let acc = match layout {
                Layout::RowMajor => fma_fold(op_row_seq(ta, a, i, k), op_col_seq(tb, b, j, k), T::zero_spec()),
                Layout::ColMajor => fma_fold(op_col_seq(tb, b, j, k), op_row_seq(ta, a, i, k), T::zero_spec()),
            };
            let o = acc.fma_spec(alpha, T::zero_spec());
            r == if beta.is_zero_spec() {
                o
            } else {
                cold.fma_spec(beta, o)
            }
        }),
{
    match layout {
        Layout::RowMajor => {
            lemma_gemm_acc(ta, a, tb, b, i, j, k);
        },
        Layout::ColMajor => {
            lemma_gemm_acc(opposite(tb), b, opposite(ta), a, j, i, k);
            assert(op_row_seq(opposite(tb), b, j, k) =~= op_col_seq(tb, b, j, k));
            assert(op_col_seq(opposite(ta), a, i, k) =~= op_row_seq(ta, a, i, k));
        },
    }
}

/// syrk (one lane), entry `(i, j)` of the updated triangle: `d = Σ_p op(A)[i][p]·op(A)[j][p]` as
/// a fused chain in increasing `p`, then `α·d`, with `α` as given, plus `β·C_old` unless `β = 0`.
pub proof fn law_syrk_entry<T: FloatScalar>(
    trans: Trans,
    a: Mat<T>,
    alpha: T,
    beta: T,
    cold: T,
    i: int,
    j: int,
    r: T,
)
    requires
        r == syrk_cell(trans, a, alpha, beta, cold, i, j, 1),
    ensures
        ({
            let k: nat = match trans {
                Trans::N => a.cols as nat,
                Trans::T => a.rows as nat,
            };
            let d = fma_fold(op_row_seq(trans, a, i, k), op_row_seq(trans, a, j, k), T::zero_spec());
            r == if beta.is_zero_spec() {
                alpha.mul_spec(d)
            } else {
                alpha.mul_spec(d).add_spec(beta.mul_spec(cold))
            }
        }),
{
    let k: nat = match trans {
        Trans::N => a.cols as nat,
        Trans::T => a.rows as nat,
    };
    assert(op_row(trans, a, i, k) =~= op_row_seq(trans, a, i, k));
    assert(op_row(trans, a, j, k) =~= op_row_seq(trans, a, j, k));
    lemma_dot_one_lane(op_row_seq(trans, a, i, k), op_row_seq(trans, a, j, k));
}

/// gemv (one lane), `y[i]`: where the rows of `op(A)` are contiguous, `d = Σ_p op(A)[i][p]·x[p]`
/// as a fused chain, then `α·d`, with `α` as given, plus `β·y[i]` unless `β = 0`; otherwise `y[i]`
/// scaled by `β` (kept for `β = 1`, zero for `β = 0`), then column `p` of `op(A)` times `α·x[p]`
/// fused in for each `p` in increasing order.
pub proof fn law_gemv_entry<T: FloatScalar>(
    t: Trans,
    alpha: T,
    a: Mat<T>,
    x: Seq<T>,
    beta: T,
    y: Seq<T>,
    i: int,
    r: T,
)
    requires
        r == gemv_spec(t, alpha, a, x, beta, y, i, 1),
    ensures
        (t == Trans::T) == (a.layout == Layout::ColMajor) ==> ({
            let d = fma_fold(op_row_seq(t, a, i, x.len()), x, T::zero_spec());
            r == if beta.is_zero_spec() {
                alpha.mul_spec(d)
            } else {
                alpha.mul_spec(d).add_spec(beta.mul_spec(y[i]))
            }
        }),
        (t == Trans::T) != (a.layout == Layout::ColMajor) ==> ({
            let y0 = if beta.is_one_spec() {
                y[i]
            } else if beta.is_zero_spec() {
                T::zero_spec()
            } else {
                beta.mul_spec(y[i])
            };
            r == fma_fold(op_row_seq(t, a, i, x.len()), Seq::new(x.len(), |p: int| alpha.mul_spec(x[p])), y0)
        }),
{
    if (t == Trans::T) == (a.layout == Layout::ColMajor) {
        assert(op_row(t, a, i, x.len()) =~= op_row_seq(t, a, i, x.len()));
        lemma_dot_one_lane(op_row_seq(t, a, i, x.len()), x);
    } else {
        let y0 = crate::dense::scale_spec(beta, y[i]);
        lemma_axpy_chain(t, alpha, a, x, y0, i, x.len());
    }
}

/// trsm, entry `(r, c)` of the solution: for `Side::Left`, row `r` of the solution of
/// `op(A)·x = α·b` for column `c` of the old `B`; for `Side::Right`, column `c` of the solution
/// of `op(A)ᵀ·x = α·b` for row `r` of the old `B`. Each right-hand-side entry is `α·b` with `α`
/// as given (`b` itself for `α = 1`), read straight from the old `B`.
pub proof fn law_trsm_entry<T: FloatScalar>(
    side: Side,
    uplo: Uplo,
    trans: Trans,
    diag: Diag,
    alpha: T,
    a: Mat<T>,
    s: Seq<T>,
    layout: Layout,
    stride: nat,
    rows: nat,
    cols: nat,
    r: int,
    c: int,
    v: T,
)
    requires
        v == trsm_entry(side, uplo, trans, diag, alpha, a, s, layout, stride, rows, cols, r, c),
    ensures
        side == Side::Left ==> v == tri_solve(
            trans,
            a,
            diag,
            op_lower(uplo, trans),
            Seq::new(
                rows,
                |q: int|
                    if alpha.is_one_spec() {
                        stored(s, layout, stride as int, q, c)
                    } else {
                        alpha.mul_spec(stored(s, layout, stride as int, q, c))
                    },
            ),
        )[r],
        side == Side::Right ==> v == tri_solve(
            opposite(trans),
            a,
            diag,
            op_lower(uplo, opposite(trans)),
            Seq::new(
                cols,
                |q: int|
                    if alpha.is_one_spec() {
                        stored(s, layout, stride as int, r, q)
                    } else {
                        alpha.mul_spec(stored(s, layout, stride as int, r, q))
                    },
            ),
        )[c],
{
    let left = Seq::new(
        rows,
        |q: int|
            if alpha.is_one_spec() {
                stored(s, layout, stride as int, q, c)
            } else {
                alpha.mul_spec(stored(s, layout, stride as int, q, c))
            },
    );
    let right = Seq::new(
        cols,
        |q: int|
            if alpha.is_one_spec() {
                stored(s, layout, stride as int, r, q)
            } else {
                alpha.mul_spec(stored(s, layout, stride as int, r, q))
            },
    );
    assert(crate::dense::rhs_col(alpha, s, layout, stride as int, rows, c) =~= left);
    assert(crate::dense::rhs_col(alpha, s, crate::dense::flipped(layout), stride as int, cols, r) =~= right);
}

/// Row `i` of a substitution after eliminating the solved rows `lo..hi` in increasing order from
/// its right-hand side `v`: each step subtracts `op(A)[i][p]·y[p]`, fused as `y[p]·(−op(A)[i][p])
/// + v`, and a zero coefficient leaves the row as it is.
pub open spec fn subst_row<T: FloatScalar>(t: Trans, a: Mat<T>, y: Seq<T>, v: T, i: int, lo: int, hi: int) -> T
    decreases hi - lo,
{
    if hi <= lo {
        v
    } else {
        let c = op_elem(t, a, i, hi - 1);
        let prev = subst_row(t, a, y, v, i, lo, hi - 1);
        if c.is_zero_spec() {
            prev
        } else {
            y[hi - 1].fma_spec(c.neg_spec(), prev)
        }
    }
}

/// Division by the pivot `d` as a multiply by `1/d`; nothing for an implicit unit diagonal.
pub open spec fn by_pivot<T: FloatScalar>(diag: Diag, d: T, v: T) -> T {
    match diag {
        Diag::Unit => v,
        Diag::NonUnit => v.mul_spec(d.recip_spec()),
    }
}

proof fn lemma_elim_is_subst<T: FloatScalar>(
    t: Trans,
    a: Mat<T>,
    ys: Seq<T>,
    y: Seq<T>,
    i: int,
    lo: int,
    hi: int,
)
    requires
        forall|p: int| lo <= p < hi ==> ys[p] == y[p],
    ensures
        elim_chain(t, a, ys, i, lo, hi) == subst_row(t, a, y, ys[i], i, lo, hi),
    decreases hi - lo,
{
    if hi > lo {
        lemma_elim_is_subst(t, a, ys, y, i, lo, hi - 1);
        lemma_op_at(t, a, i, hi - 1);
    }
}

proof fn lemma_fwd_len<T: FloatScalar>(t: Trans, a: Mat<T>, diag: Diag, xs: Seq<T>, k: nat)
    requires
        k <= xs.len(),
    ensures
        fwd_solve(t, a, diag, xs, k).len() == xs.len(),
        forall|p: int| k <= p < xs.len() ==> #[trigger] fwd_solve(t, a, diag, xs, k)[p] == xs[p],
    decreases k,
{
    if k > 0 {
        lemma_fwd_len(t, a, diag, xs, (k - 1) as nat);
    }
}

/// Forward substitution never revisits a solved row.
proof fn lemma_fwd_stable<T: FloatScalar>(t: Trans, a: Mat<T>, diag: Diag, xs: Seq<T>, k1: nat, k2: nat, p: int)
    requires
        0 <= p < k1 <= k2 <= xs.len(),
    ensures
        fwd_solve(t, a, diag, xs, k2)[p] == fwd_solve(t, a, diag, xs, k1)[p],
    decreases k2,
{
    if k2 > k1 {
        lemma_fwd_stable(t, a, diag, xs, k1, (k2 - 1) as nat, p);
        lemma_fwd_len(t, a, diag, xs, (k2 - 1) as nat);
    }
}

proof fn lemma_bwd_len<T: FloatScalar>(t: Trans, a: Mat<T>, diag: Diag, xs: Seq<T>, k: nat)
    requires
        k <= xs.len(),
    ensures
        bwd_solve(t, a, diag, xs, k).len() == xs.len(),
        forall|p: int| 0 <= p < xs.len() - k ==> #[trigger] bwd_solve(t, a, diag, xs, k)[p] == xs[p],
    decreases k,
{
    if k > 0 {
        lemma_bwd_len(t, a, diag, xs, (k - 1) as nat);
    }
}

/// Back substitution never revisits a solved row.
proof fn lemma_bwd_stable<T: FloatScalar>(t: Trans, a: Mat<T>, diag: Diag, xs: Seq<T>, k1: nat, k2: nat, p: int)
    requires
        k1 <= k2 <= xs.len(),
        xs.len() - k1 <= p < xs.len(),
    ensures
        bwd_solve(t, a, diag, xs, k2)[p] == bwd_solve(t, a, diag, xs, k1)[p],
    decreases k2,
{
    if k2 > k1 {
        lemma_bwd_stable(t, a, diag, xs, k1, (k2 - 1) as nat, p);
        lemma_bwd_len(t, a, diag, xs, (k2 - 1) as nat);
    }
}

/// The triangular solve satisfies its substitution equations: with `y` the solution of
/// `op(A)·y = xs`, each row `i` is its right-hand side `xs[i]` with `op(A)[i][p]·y[p]` taken away
/// for every other row `p` of the triangle (`p < i` when `op(A)` is lower, `p > i` when upper),
/// in increasing `p`, then divided by the pivot `op(A)[i][i]` (not for a unit diagonal).
pub proof fn law_tri_solve<T: FloatScalar>(t: Trans, a: Mat<T>, diag: Diag, lower: bool, xs: Seq<T>, i: int)
    requires
        0 <= i < xs.len(),
    ensures
        tri_solve(t, a, diag, lower, xs).len() == xs.len(),
        lower ==> tri_solve(t, a, diag, lower, xs)[i] == by_pivot(
            diag,
            op_elem(t, a, i, i),
            subst_row(t, a, tri_solve(t, a, diag, lower, xs), xs[i], i, 0, i),
        ),
        !lower ==> tri_solve(t, a, diag, lower, xs)[i] == by_pivot(
            diag,
            op_elem(t, a, i, i),
            subst_row(t, a, tri_solve(t, a, diag, lower, xs), xs[i], i, i + 1, xs.len() as int),
        ),
{
    let n = xs.len();
    let y = tri_solve(t, a, diag, lower, xs);
    lemma_op_at(t, a, i, i);
    if lower {
        lemma_fwd_len(t, a, diag, xs, n);
        let k = (i + 1) as nat;
        let ys = fwd_solve(t, a, diag, xs, i as nat);
        lemma_fwd_len(t, a, diag, xs, i as nat);
        lemma_fwd_stable(t, a, diag, xs, k, n, i);
        assert forall|p: int| 0 <= p < i implies ys[p] == y[p] by {
            lemma_fwd_stable(t, a, diag, xs, i as nat, n, p);
        }
        lemma_elim_is_subst(t, a, ys, y, i, 0, i);
    } else {
        lemma_bwd_len(t, a, diag, xs, n);
        let k = (n - i) as nat;
        let ys = bwd_solve(t, a, diag, xs, (k - 1) as nat);
        lemma_bwd_len(t, a, diag, xs, (k - 1) as nat);
        lemma_bwd_stable(t, a, diag, xs, k, n, i);
        assert forall|p: int| i + 1 <= p < n implies ys[p] == y[p] by {
            lemma_bwd_stable(t, a, diag, xs, (k - 1) as nat, n, p);
        }
        lemma_elim_is_subst(t, a, ys, y, i, i + 1, n as int);
    }
}

} // verus!
