//! Runtime-dimensioned dense linear algebra over any float-family element: `gemv`, `gemm`,
//! `syrk`, `trsm`, `potrf`, the axis sums and the Frobenius norm. Each routine's contract states,
//! entry by entry, the value it writes in terms of the element's own operations, and that it
//! leaves every other element of the output untouched.

use vstd::prelude::*;

use crate::backend::{Backend, ScalarBackend};
use crate::matrix::{offset, Layout};
use crate::scalar::{filled, FloatScalar, Scalar};
use crate::varying::{dot_spec, total_spec, Gang};

pub mod laws;

verus! {

/// Operand transposition flag, mirroring BLAS `TRANS`.
#[derive(Clone, Copy, PartialEq, Eq, Debug, Structural)]
pub enum Trans {
    /// Use the operand as stored.
    N,
    /// Use its transpose without materializing it.
    T,
}

/// Which triangle of a symmetric/triangular matrix is referenced.
#[derive(Clone, Copy, PartialEq, Eq, Debug, Structural)]
pub enum Uplo {
    Lower,
    Upper,
}

/// Whether the triangular operand multiplies from the left or the right.
#[derive(Clone, Copy, PartialEq, Eq, Debug, Structural)]
pub enum Side {
    Left,
    Right,
}

/// Whether a triangular matrix has an implicit unit diagonal.
#[derive(Clone, Copy, PartialEq, Eq, Debug, Structural)]
pub enum Diag {
    Unit,
    NonUnit,
}

/// The contiguous ("inner") dimension of a `rows × cols` matrix stored with `layout`.
pub open spec fn inner_dim(layout: Layout, rows: nat, cols: nat) -> nat {
    match layout {
        Layout::RowMajor => cols,
        Layout::ColMajor => rows,
    }
}

/// The strided ("outer") dimension.
pub open spec fn outer_dim(layout: Layout, rows: nat, cols: nat) -> nat {
    match layout {
        Layout::RowMajor => rows,
        Layout::ColMajor => cols,
    }
}

/// A `rows × cols` matrix with this stride and layout fits in a slice of length `len`, and its
/// stride is at least its inner dimension (so distinct elements occupy distinct slots).
pub open spec fn fits(layout: Layout, stride: nat, rows: nat, cols: nat, len: nat) -> bool {
    &&& stride >= inner_dim(layout, rows, cols)
    &&& outer_dim(layout, rows, cols) > 0 ==> (outer_dim(layout, rows, cols) - 1) * stride
        + inner_dim(layout, rows, cols) <= len
}

/// Every stored line of a fitting matrix lies inside the slice.
pub proof fn lemma_line_bounds(layout: Layout, stride: nat, rows: nat, cols: nat, len: nat, i: int)
    requires
        fits(layout, stride, rows, cols, len),
        0 <= i < outer_dim(layout, rows, cols),
    ensures
        0 <= i * stride,
        i * stride + inner_dim(layout, rows, cols) <= len,
{
    let o = outer_dim(layout, rows, cols);
    let n = inner_dim(layout, rows, cols);
    assert(0 <= i * stride && i * stride + n <= len) by (nonlinear_arith)
        requires
            0 <= i < o,
            (o - 1) * stride + n <= len,
    ;
}

/// In-range elements of a fitting matrix lie inside the slice.
pub proof fn lemma_offset_in_bounds(
    layout: Layout,
    stride: nat,
    rows: nat,
    cols: nat,
    len: nat,
    r: int,
    c: int,
)
    requires
        fits(layout, stride, rows, cols, len),
        0 <= r < rows,
        0 <= c < cols,
    ensures
        0 <= offset(layout, stride as int, r, c) < len,
{
    match layout {
        Layout::RowMajor => {
            assert(0 <= r * stride + c < len) by (nonlinear_arith)
                requires
                    0 <= r < rows,
                    0 <= c < cols,
                    stride >= cols,
                    (rows - 1) * stride + cols <= len,
            ;
        },
        Layout::ColMajor => {
            assert(0 <= c * stride + r < len) by (nonlinear_arith)
                requires
                    0 <= r < rows,
                    0 <= c < cols,
                    stride >= rows,
                    (cols - 1) * stride + rows <= len,
            ;
        },
    }
}

/// Distinct in-range elements of a fitting matrix occupy distinct slots.
pub proof fn lemma_offset_injective(
    layout: Layout,
    stride: nat,
    rows: nat,
    cols: nat,
    r1: int,
    c1: int,
    r2: int,
    c2: int,
)
    requires
        stride >= inner_dim(layout, rows, cols),
        0 <= r1 < rows,
        0 <= c1 < cols,
        0 <= r2 < rows,
        0 <= c2 < cols,
        offset(layout, stride as int, r1, c1) == offset(layout, stride as int, r2, c2),
    ensures
        r1 == r2,
        c1 == c2,
{
    match layout {
        Layout::RowMajor => {
            assert(r1 == r2 && c1 == c2) by (nonlinear_arith)
                requires
                    0 <= c1 < cols,
                    0 <= c2 < cols,
                    stride >= cols,
                    r1 * stride + c1 == r2 * stride + c2,
                    0 <= r1,
                    0 <= r2,
            ;
        },
        Layout::ColMajor => {
            assert(r1 == r2 && c1 == c2) by (nonlinear_arith)
                requires
                    0 <= r1 < rows,
                    0 <= r2 < rows,
                    stride >= rows,
                    c1 * stride + r1 == c2 * stride + r2,
                    0 <= c1,
                    0 <= c2,
            ;
        },
    }
}

/// Some in-range element `(r, c)` lives at slot `k`.
pub open spec fn in_region(layout: Layout, stride: nat, rows: nat, cols: nat, k: int) -> bool {
    exists|r: int, c: int|
        0 <= r < rows && 0 <= c < cols && #[trigger] offset(layout, stride as int, r, c) == k
}

/// A borrowing runtime-dimensioned matrix view: a slice plus its shape, leading stride and
/// layout. `Mat::new` is the dense row-major case; `Mat::strided` covers sub-matrices and
/// column-major data.
#[derive(Clone, Copy)]
pub struct Mat<'a, T> {
    pub data: &'a [T],
    pub rows: usize,
    pub cols: usize,
    pub stride: usize,
    pub layout: Layout,
}

/// The mutable counterpart of [`Mat`]: the output of `gemm`/`syrk`/`trsm`/`potrf`.
pub struct MatMut<'a, T> {
    pub data: &'a mut [T],
    pub rows: usize,
    pub cols: usize,
    pub stride: usize,
    pub layout: Layout,
}

impl<'a, T> Mat<'a, T> {
    /// The view addresses only slots inside its slice.
    pub open spec fn wf(&self) -> bool {
        fits(self.layout, self.stride as nat, self.rows as nat, self.cols as nat, self.data@.len())
    }

    /// Slot of element `(r, c)`.
    pub open spec fn loc(&self, r: int, c: int) -> int {
        offset(self.layout, self.stride as int, r, c)
    }

    /// Element `(r, c)`.
    pub open spec fn at(&self, r: int, c: int) -> T {
        self.data@[self.loc(r, c)]
    }

    /// A dense row-major `rows × cols` view (`stride = cols`).
    pub fn new(data: &'a [T], rows: usize, cols: usize) -> (m: Self)
        requires
            data@.len() >= rows * cols,
        ensures
            m.data@ == data@,
            m.rows == rows,
            m.cols == cols,
            m.stride == cols,
            m.layout == Layout::RowMajor,
            m.wf(),
    {
        proof {
            if rows > 0 && cols > 0 {
                assert((rows - 1) * cols + cols == rows * cols) by (nonlinear_arith);
            }
        }
        Mat { data, rows, cols, stride: cols, layout: Layout::RowMajor }
    }

    /// A view with an explicit leading stride and layout: a sub-matrix of a larger buffer, or
    /// column-major data. The stride must cover the inner dimension.
    pub fn strided(data: &'a [T], rows: usize, cols: usize, stride: usize, layout: Layout) -> (m:
        Self)
        requires
            stride >= inner_dim(layout, rows as nat, cols as nat),
        ensures
            m.data@ == data@,
            m.rows == rows,
            m.cols == cols,
            m.stride == stride,
            m.layout == layout,
    {
        Mat { data, rows, cols, stride, layout }
    }

    /// The same view with its stride tightened to its inner dimension, for a view that holds no
    /// element: such a view addresses no slot, so any stride serves, and this one fits any slice.
    fn settled(self) -> (m: Self)
        requires
            self.rows == 0 || self.cols == 0,
        ensures
            m.data@ == self.data@,
            m.rows == self.rows,
            m.cols == self.cols,
            m.layout == self.layout,
            m.wf(),
    {
        let inner = match self.layout {
            Layout::RowMajor => self.cols,
            Layout::ColMajor => self.rows,
        };
        Mat { data: self.data, rows: self.rows, cols: self.cols, stride: inner, layout: self.layout }
    }

    pub fn rows(&self) -> (r: usize)
        ensures
            r == self.rows,
    {
        self.rows
    }

    pub fn cols(&self) -> (r: usize)
        ensures
            r == self.cols,
    {
        self.cols
    }
}

impl<'a, T: Copy> Mat<'a, T> {
    /// Slot of element `(r, c)`.
    pub fn off(&self, r: usize, c: usize) -> (o: usize)
        requires
            self.wf(),
            r < self.rows,
            c < self.cols,
        ensures
            o == self.loc(r as int, c as int),
            o < self.data@.len(),
    {
        proof {
            lemma_offset_in_bounds(
                self.layout,
                self.stride as nat,
                self.rows as nat,
                self.cols as nat,
                self.data@.len(),
                r as int,
                c as int,
            );
        }
        let len = self.data.len();
        assert(self.loc(r as int, c as int) < len);
        match self.layout {
            Layout::RowMajor => {
                assert(r * self.stride <= r * self.stride + c);
                r * self.stride + c
            },
            Layout::ColMajor => {
                assert(c * self.stride <= c * self.stride + r);
                c * self.stride + r
            },
        }
    }

    /// Element `(r, c)`.
    pub fn get(&self, r: usize, c: usize) -> (v: T)
        requires
            self.wf(),
            r < self.rows,
            c < self.cols,
        ensures
            v == self.at(r as int, c as int),
    {
        self.data[self.off(r, c)]
    }
}

impl<'a, T> MatMut<'a, T> {
    /// The view addresses only slots inside its slice.
    pub open spec fn wf(&self) -> bool {
        fits(self.layout, self.stride as nat, self.rows as nat, self.cols as nat, self.data@.len())
    }

    /// Slot of element `(r, c)`.
    pub open spec fn loc(&self, r: int, c: int) -> int {
        offset(self.layout, self.stride as int, r, c)
    }

    /// A dense row-major mutable view (`stride = cols`).
    pub fn new(data: &'a mut [T], rows: usize, cols: usize) -> (m: Self)
        requires
            old(data)@.len() >= rows * cols,
        ensures
            m.data@ == old(data)@,
            final(m.data)@ == final(data)@,
            m.rows == rows,
            m.cols == cols,
            m.stride == cols,
            m.layout == Layout::RowMajor,
            m.wf(),
    {
        proof {
            if rows > 0 && cols > 0 {
                assert((rows - 1) * cols + cols == rows * cols) by (nonlinear_arith);
            }
        }
        MatMut { data, rows, cols, stride: cols, layout: Layout::RowMajor }
    }

    /// A mutable view with an explicit leading stride and layout. The stride must cover the
    /// inner dimension.
    pub fn strided(data: &'a mut [T], rows: usize, cols: usize, stride: usize, layout: Layout) -> (m:
        Self)
        requires
            stride >= inner_dim(layout, rows as nat, cols as nat),
        ensures
            m.data@ == old(data)@,
            final(m.data)@ == final(data)@,
            m.rows == rows,
            m.cols == cols,
            m.stride == stride,
            m.layout == layout,
    {
        MatMut { data, rows, cols, stride, layout }
    }

    pub fn rows(&self) -> (r: usize)
        ensures
            r == self.rows,
    {
        self.rows
    }

    pub fn cols(&self) -> (r: usize)
        ensures
            r == self.cols,
    {
        self.cols
    }

    /// Slot of element `(r, c)`.
    pub fn off(&self, r: usize, c: usize) -> (o: usize)
        requires
            self.wf(),
            r < self.rows,
            c < self.cols,
        ensures
            o == self.loc(r as int, c as int),
            o < old(self.data)@.len(),
    {
        proof {
            lemma_offset_in_bounds(
                self.layout,
                self.stride as nat,
                self.rows as nat,
                self.cols as nat,
                self.data@.len(),
                r as int,
                c as int,
            );
        }
        let len = self.data.len();
        assert(self.loc(r as int, c as int) < len);
        match self.layout {
            Layout::RowMajor => {
                assert(r * self.stride <= r * self.stride + c);
                r * self.stride + c
            },
            Layout::ColMajor => {
                assert(c * self.stride <= c * self.stride + r);
                c * self.stride + r
            },
        }
    }
}

impl<'a, T: Copy> MatMut<'a, T> {
    /// Element `(r, c)`.
    pub fn get(&self, r: usize, c: usize) -> (v: T)
        requires
            self.wf(),
            r < self.rows,
            c < self.cols,
        ensures
            v == old(self.data)@[self.loc(r as int, c as int)],
    {
        self.data[self.off(r, c)]
    }

    /// Overwrite element `(r, c)`.
    pub fn set(&mut self, r: usize, c: usize, v: T)
        requires
            old(self).wf(),
            r < old(self).rows,
            c < old(self).cols,
        ensures
            final(self).data@ == old(self).data@.update(old(self).loc(r as int, c as int), v),
            final(self).rows == old(self).rows,
            final(self).cols == old(self).cols,
            final(self).stride == old(self).stride,
            final(self).layout == old(self).layout,
            final(final(self).data)@ == final(old(self).data)@,
    {
        let o = self.off(r, c);
        self.data[o] = v;
    }
}

/// Element `(i, p)` of `op(A)`.
pub open spec fn op_at<T>(t: Trans, a: Mat<T>, i: int, p: int) -> T {
    match t {
        Trans::N => a.at(i, p),
        Trans::T => a.at(p, i),
    }
}

/// Row `i` of `op(A)`, its first `len` elements.
pub open spec fn op_row<T>(t: Trans, a: Mat<T>, i: int, len: nat) -> Seq<T> {
    Seq::new(len, |p: int| op_at(t, a, i, p))
}

/// The `i`-th stored line (row for row-major, column for column-major) of `a`, `len` long.
pub open spec fn line<T>(a: Mat<T>, i: int, len: nat) -> Seq<T> {
    a.data@.subrange(i * a.stride, i * a.stride + len)
}

/// `op(A)`'s row `i` is stored contiguously exactly when `op` and the layout agree.
pub open spec fn rows_contiguous(t: Trans, layout: Layout) -> bool {
    (t == Trans::T) == (layout == Layout::ColMajor)
}

/// Shape of `op(A)`.
pub open spec fn op_shape<T>(t: Trans, a: Mat<T>) -> (nat, nat) {
    match t {
        Trans::N => (a.rows as nat, a.cols as nat),
        Trans::T => (a.cols as nat, a.rows as nat),
    }
}

/// `α·d + β·y`, with `β = 0` writing without reading `y`.
pub open spec fn fma_scalar_spec<T: FloatScalar>(alpha: T, d: T, beta: T, y: T) -> T {
    if beta.is_zero_spec() {
        alpha.mul_spec(d)
    } else {
        alpha.mul_spec(d).add_spec(beta.mul_spec(y))
    }
}

/// `β·y` with the `β ∈ {0, 1}` fast exits.
pub open spec fn scale_spec<T: Scalar>(beta: T, y: T) -> T {
    if beta.is_one_spec() {
        y
    } else if beta.is_zero_spec() {
        T::zero_spec()
    } else {
        beta.mul_spec(y)
    }
}

/// The stored line of `op(A)` addressed by row `i` equals that row when rows are contiguous.
proof fn lemma_line_is_op_row<T>(t: Trans, a: Mat<T>, i: int, len: nat)
    requires
        a.wf(),
        rows_contiguous(t, a.layout),
        0 <= i < op_shape(t, a).0,
        len == op_shape(t, a).1,
    ensures
        line(a, i, len) == op_row(t, a, i, len),
        0 <= i * a.stride,
        i * a.stride + len <= a.data@.len(),
{
    let (orow, ocol) = op_shape(t, a);
    lemma_line_bounds(a.layout, a.stride as nat, a.rows as nat, a.cols as nat, a.data@.len(), i);
    assert forall|p: int| 0 <= p < len implies #[trigger] line(a, i, len)[p] == op_row(t, a, i, len)[p] by {
    }
    assert(line(a, i, len) =~= op_row(t, a, i, len));
}

/// The stored line of `op(A)` addressed by column `k` equals that column when columns are
/// contiguous.
proof fn lemma_line_is_op_col<T>(t: Trans, a: Mat<T>, k: int, len: nat)
    requires
        a.wf(),
        !rows_contiguous(t, a.layout),
        0 <= k < op_shape(t, a).1,
        len == op_shape(t, a).0,
    ensures
        forall|r: int| 0 <= r < len ==> #[trigger] line(a, k, len)[r] == op_at(t, a, r, k),
        0 <= k * a.stride,
        k * a.stride + len <= a.data@.len(),
{
    lemma_line_bounds(a.layout, a.stride as nat, a.rows as nat, a.cols as nat, a.data@.len(), k);
}

/// `y[i]` after the column-accumulating (axpy) form of `gemv` has folded in columns `0..kk`.
pub open spec fn axpy_chain<T: FloatScalar>(
    t: Trans,
    alpha: T,
    a: Mat<T>,
    x: Seq<T>,
    y0: T,
    i: int,
    kk: nat,
) -> T
    decreases kk,
{
    if kk == 0 {
        y0
    } else {
        op_at(t, a, i, kk - 1).fma_spec(
            alpha.mul_spec(x[kk - 1]),
            axpy_chain(t, alpha, a, x, y0, i, (kk - 1) as nat),
        )
    }
}

/// What `gemv` leaves in `y[i]`, for a gang of `l` lanes.
pub open spec fn gemv_spec<T: FloatScalar>(
    t: Trans,
    alpha: T,
    a: Mat<T>,
    x: Seq<T>,
    beta: T,
    y: Seq<T>,
    i: int,
    l: nat,
) -> T {
    if rows_contiguous(t, a.layout) {
        fma_scalar_spec(alpha, dot_spec(op_row(t, a, i, x.len()), x, l), beta, y[i])
    } else {
        axpy_chain(t, alpha, a, x, scale_spec(beta, y[i]), i, x.len())
    }
}

/// Return the shape of `op(m)`.
pub fn op_dims<T>(t: Trans, m: &Mat<T>) -> (r: (usize, usize))
    ensures
        r.0 == op_shape(t, *m).0,
        r.1 == op_shape(t, *m).1,
{
    match t {
        Trans::N => (m.rows, m.cols),
        Trans::T => (m.cols, m.rows),
    }
}

/// The opposite transposition.
pub fn flip(t: Trans) -> (r: Trans)
    ensures
        r == opposite(t),
{
    match t {
        Trans::N => Trans::T,
        Trans::T => Trans::N,
    }
}

/// The opposite layout.
pub fn flip_layout(l: Layout) -> (r: Layout)
    ensures
        r == flipped(l),
{
    match l {
        Layout::RowMajor => Layout::ColMajor,
        Layout::ColMajor => Layout::RowMajor,
    }
}

/// `α·d + β·y`, honoring the BLAS rule that `β = 0` writes without reading `y` (a NaN in an
/// uninitialized `y` must not poison the result).
pub fn fma_scalar<T: FloatScalar>(alpha: T, d: T, beta: T, y: T) -> (r: T)
    ensures
        r == fma_scalar_spec(alpha, d, beta, y),
{
    if beta.is_zero() {
        alpha.wmul(d)
    } else {
        alpha.wmul(d).wadd(beta.wmul(y))
    }
}

/// In-place `y := β·y`, with the `β ∈ {0, 1}` fast exits.
pub fn scale<T: Scalar>(y: &mut [T], beta: T)
    ensures
        final(y)@.len() == old(y)@.len(),
        forall|i: int|
            0 <= i < old(y)@.len() ==> #[trigger] final(y)@[i] == scale_spec(beta, old(y)@[i]),
{
    if beta.is_one() {
        return ;
    }
    let z = beta.is_zero();
    let n = y.len();
    let mut i: usize = 0;
    while i < n
        invariant
            n == old(y)@.len(),
            y@.len() == n,
            z == beta.is_zero_spec(),
            !beta.is_one_spec(),
            0 <= i <= n,
            forall|j: int| 0 <= j < i ==> #[trigger] y@[j] == scale_spec(beta, old(y)@[j]),
            forall|j: int| i <= j < n ==> #[trigger] y@[j] == old(y)@[j],
        decreases n - i,
    {
        if z {
            y[i] = T::zero();
        } else {
            y[i] = beta.wmul(y[i]);
        }
        i += 1;
    }
}

/// The `gemv` kernel on an explicit gang: reduces each contiguous operated row, or accumulates
/// the contiguous columns axpy-style, whichever the storage makes unit-stride.
pub fn gemv_run<T: FloatScalar, S: Backend<T>>(
    simd: Gang<S>,
    trans: Trans,
    alpha: T,
    a: Mat<T>,
    x: &[T],
    beta: T,
    y: &mut [T],
)
    requires
        a.wf(),
        x@.len() == op_shape(trans, a).1,
        old(y)@.len() == op_shape(trans, a).0,
    ensures
        final(y)@.len() == old(y)@.len(),
        forall|i: int|
            0 <= i < old(y)@.len() ==> #[trigger] final(y)@[i] == gemv_spec(
                trans,
                alpha,
                a,
                x@,
                beta,
                old(y)@,
                i,
                simd.backend.lanes_spec(),
            ),
{
    let (op_rows, op_cols) = op_dims(trans, &a);
    let dlen = a.data.len();
    let dot_form = (trans == Trans::T) == (a.layout == Layout::ColMajor);
    if dot_form {
        let mut i: usize = 0;
        while i < op_rows
            invariant
                a.wf(),
                a.data@.len() == dlen,
                rows_contiguous(trans, a.layout),
                op_rows == op_shape(trans, a).0,
                op_cols == op_shape(trans, a).1,
                x@.len() == op_cols,
                y@.len() == op_rows,
                old(y)@.len() == op_rows,
                0 <= i <= op_rows,
                forall|j: int|
                    0 <= j < i ==> #[trigger] y@[j] == gemv_spec(
                        trans,
                        alpha,
                        a,
                        x@,
                        beta,
                        old(y)@,
                        j,
                        simd.backend.lanes_spec(),
                    ),
                forall|j: int| i <= j < op_rows ==> #[trigger] y@[j] == old(y)@[j],
            decreases op_rows - i,
        {
            proof {
                lemma_line_is_op_row(trans, a, i as int, op_cols as nat);
            }
            let base = i * a.stride;
            let d = simd.dot(&a.data[base..base + op_cols], x);
            let yi = fma_scalar(alpha, d, beta, y[i]);
            y[i] = yi;
            i += 1;
        }
    } else {
        scale(y, beta);
        let ghost ys = y@;
        let mut k: usize = 0;
        while k < op_cols
            invariant
                a.wf(),
                a.data@.len() == dlen,
                !rows_contiguous(trans, a.layout),
                op_rows == op_shape(trans, a).0,
                op_cols == op_shape(trans, a).1,
                x@.len() == op_cols,
                y@.len() == op_rows,
                old(y)@.len() == op_rows,
                ys.len() == op_rows,
                forall|j: int| 0 <= j < op_rows ==> #[trigger] ys[j] == scale_spec(beta, old(y)@[j]),
                0 <= k <= op_cols,
                forall|j: int|
                    0 <= j < op_rows ==> #[trigger] y@[j] == axpy_chain(
                        trans,
                        alpha,
                        a,
                        x@,
                        ys[j],
                        j,
                        k as nat,
                    ),
            decreases op_cols - k,
        {
            proof {
                lemma_line_is_op_col(trans, a, k as int, op_rows as nat);
            }
            let base = k * a.stride;
            let cs = alpha.wmul(x[k]);
            simd.axpy(a.data, base, cs, y, 0, op_rows);
            k += 1;
        }
    }
}

/// General matrix–vector product `y := α·op(A)·x + β·y`, where `op(A)` is `A` (`Trans::N`) or
/// `Aᵀ` (`Trans::T`). Whichever of the operated rows or columns is contiguous drives the
/// reduction, so nothing is ever gathered.
pub fn gemv<T: FloatScalar>(trans: Trans, alpha: T, a: Mat<T>, x: &[T], beta: T, y: &mut [T])
    requires
        a.wf() || op_shape(trans, a).0 == 0,
        x@.len() == op_shape(trans, a).1,
        old(y)@.len() == op_shape(trans, a).0,
    ensures
        final(y)@.len() == old(y)@.len(),
        forall|i: int|
            0 <= i < old(y)@.len() ==> #[trigger] final(y)@[i] == gemv_spec(
                trans,
                alpha,
                a,
                x@,
                beta,
                old(y)@,
                i,
                1,
            ),
{
    let (out_len, _in_len) = op_dims(trans, &a);
    if out_len == 0 {
        return ;
    }
    gemv_run(Gang::new(ScalarBackend), trans, alpha, a, x, beta, y);
}

/// Running sum of row `i` of `op(A)` over its first `kk` elements, in column order.
pub open spec fn add_chain<T: Scalar>(t: Trans, a: Mat<T>, i: int, kk: nat) -> T
    decreases kk,
{
    if kk == 0 {
        T::zero_spec()
    } else {
        op_at(t, a, i, kk - 1).add_spec(add_chain(t, a, i, (kk - 1) as nat))
    }
}

/// What an axis sum leaves for row `i` of `op(A)` (`Trans::N`: row sums, `Trans::T`: column
/// sums), on a gang of `l` lanes.
pub open spec fn axis_sum_spec<T: Scalar>(t: Trans, a: Mat<T>, i: int, l: nat) -> T {
    if rows_contiguous(t, a.layout) {
        total_spec(op_row(t, a, i, op_shape(t, a).1), l)
    } else {
        add_chain(t, a, i, op_shape(t, a).1)
    }
}

/// Sum of squares over the first `n` stored lines of `a`, line by line.
pub open spec fn sum_sq_lines<T: FloatScalar>(a: Mat<T>, n: nat, l: nat) -> T
    decreases n,
{
    if n == 0 {
        T::zero_spec()
    } else {
        let ln = line(a, n - 1, inner_dim(a.layout, a.rows as nat, a.cols as nat));
        sum_sq_lines(a, (n - 1) as nat, l).add_spec(dot_spec(ln, ln, l))
    }
}

/// The Frobenius norm an `l`-lane gang computes.
pub open spec fn fro_norm_spec<T: FloatScalar>(a: Mat<T>, l: nat) -> T {
    sum_sq_lines(a, outer_dim(a.layout, a.rows as nat, a.cols as nat), l).sqrt_spec()
}

/// Sums of the rows of `op(A)` into `out`: one gang reduction per contiguous row, or a
/// vector-wise accumulation of the contiguous columns.
pub fn axis_sum_run<T: Scalar, S: Backend<T>>(simd: Gang<S>, t: Trans, a: Mat<T>, out: &mut [T])
    requires
        a.wf(),
        old(out)@.len() == op_shape(t, a).0,
    ensures
        final(out)@.len() == old(out)@.len(),
        forall|i: int|
            0 <= i < old(out)@.len() ==> #[trigger] final(out)@[i] == axis_sum_spec(
                t,
                a,
                i,
                simd.backend.lanes_spec(),
            ),
{
    let (out_len, line_len) = op_dims(t, &a);
    let dlen = a.data.len();
    let reduce_contiguous = (t == Trans::T) == (a.layout == Layout::ColMajor);
    if reduce_contiguous {
        let mut i: usize = 0;
        while i < out_len
            invariant
                a.wf(),
                a.data@.len() == dlen,
                rows_contiguous(t, a.layout),
                out_len == op_shape(t, a).0,
                line_len == op_shape(t, a).1,
                out@.len() == out_len,
                0 <= i <= out_len,
                forall|j: int|
                    0 <= j < i ==> #[trigger] out@[j] == axis_sum_spec(
                        t,
                        a,
                        j,
                        simd.backend.lanes_spec(),
                    ),
            decreases out_len - i,
        {
            proof {
                lemma_line_is_op_row(t, a, i as int, line_len as nat);
            }
            let base = i * a.stride;
            let v = simd.total(&a.data[base..base + line_len]);
            out[i] = v;
            i += 1;
        }
    } else {
        let mut j: usize = 0;
        while j < out_len
            invariant
                out@.len() == out_len,
                0 <= j <= out_len,
                forall|q: int| 0 <= q < j ==> #[trigger] out@[q] == T::zero_spec(),
            decreases out_len - j,
        {
            out[j] = T::zero();
            j += 1;
        }
        let mut k: usize = 0;
        while k < line_len
            invariant
                a.wf(),
                a.data@.len() == dlen,
                !rows_contiguous(t, a.layout),
                out_len == op_shape(t, a).0,
                line_len == op_shape(t, a).1,
                out@.len() == out_len,
                0 <= k <= line_len,
                forall|q: int| 0 <= q < out_len ==> #[trigger] out@[q] == add_chain(t, a, q, k as nat),
            decreases line_len - k,
        {
            proof {
                lemma_line_is_op_col(t, a, k as int, out_len as nat);
            }
            let base = k * a.stride;
            simd.add_into(a.data, base, out, 0, out_len);
            k += 1;
        }
    }
}

/// Row sums `out_r = Σ_c A_rc`.
pub fn row_sums<T: FloatScalar>(a: Mat<T>, out: &mut [T])
    requires
        a.wf(),
        old(out)@.len() == a.rows,
    ensures
        final(out)@.len() == old(out)@.len(),
        forall|i: int|
            0 <= i < a.rows ==> #[trigger] final(out)@[i] == axis_sum_spec(Trans::N, a, i, 1),
{
    axis_sum_run(Gang::new(ScalarBackend), Trans::N, a, out);
}

/// Column sums `out_c = Σ_r A_rc`.
pub fn col_sums<T: FloatScalar>(a: Mat<T>, out: &mut [T])
    requires
        a.wf(),
        old(out)@.len() == a.cols,
    ensures
        final(out)@.len() == old(out)@.len(),
        forall|i: int|
            0 <= i < a.cols ==> #[trigger] final(out)@[i] == axis_sum_spec(Trans::T, a, i, 1),
{
    axis_sum_run(Gang::new(ScalarBackend), Trans::T, a, out);
}

/// Sum of squares of every element, summed along whichever axis is contiguous.
pub fn sum_sq_run<T: FloatScalar, S: Backend<T>>(simd: Gang<S>, a: Mat<T>) -> (r: T)
    requires
        a.wf(),
    ensures
        r == sum_sq_lines(
            a,
            outer_dim(a.layout, a.rows as nat, a.cols as nat),
            simd.backend.lanes_spec(),
        ),
{
    let (lines, len) = match a.layout {
        Layout::RowMajor => (a.rows, a.cols),
        Layout::ColMajor => (a.cols, a.rows),
    };
    let dlen = a.data.len();
    let mut ss = T::zero();
    let mut i: usize = 0;
    while i < lines
        invariant
            a.wf(),
            a.data@.len() == dlen,
            lines == outer_dim(a.layout, a.rows as nat, a.cols as nat),
            len == inner_dim(a.layout, a.rows as nat, a.cols as nat),
            0 <= i <= lines,
            ss == sum_sq_lines(a, i as nat, simd.backend.lanes_spec()),
        decreases lines - i,
    {
        proof {
            lemma_line_bounds(a.layout, a.stride as nat, a.rows as nat, a.cols as nat, a.data@.len(), i as int);
        }
        let base = i * a.stride;
        let q = simd.sum_sq(&a.data[base..base + len]);
        ss = ss.wadd(q);
        i += 1;
    }
    ss
}

/// Frobenius norm `√Σ Aᵢⱼ²`.
pub fn fro_norm<T: FloatScalar>(a: Mat<T>) -> (r: T)
    requires
        a.wf(),
    ensures
        r == fro_norm_spec(a, 1),
{
    let ss = sum_sq_run(Gang::new(ScalarBackend), a);
    ss.sqrt()
}

/// The value `α·acc + β·c` a GEMM-family kernel writes, both products fused: `o = acc·α + 0`,
/// then, unless `β = 0`, `c·β + o`.
pub open spec fn out_cell<T: FloatScalar>(acc: T, alpha: T, beta: T, cold: T) -> T {
    let o = acc.fma_spec(alpha, T::zero_spec());
    if beta.is_zero_spec() {
        o
    } else {
        cold.fma_spec(beta, o)
    }
}

/// The contraction `Σ_{q<p} op(A)[i][q]·op(B)[q][j]` as the fused chain the kernel folds, in
/// increasing `q`.
pub open spec fn gemm_acc<T: FloatScalar>(
    ta: Trans,
    a: Mat<T>,
    tb: Trans,
    b: Mat<T>,
    i: int,
    j: int,
    p: nat,
) -> T
    decreases p,
{
    if p == 0 {
        T::zero_spec()
    } else {
        op_at(ta, a, i, p - 1).fma_spec(
            op_at(tb, b, p - 1, j),
            gemm_acc(ta, a, tb, b, i, j, (p - 1) as nat),
        )
    }
}

/// The entry `(i, j)` of `α·op(A)·op(B) + β·C` that `gemm` writes over `cold`.
pub open spec fn gemm_cell<T: FloatScalar>(
    ta: Trans,
    a: Mat<T>,
    tb: Trans,
    b: Mat<T>,
    alpha: T,
    beta: T,
    cold: T,
    i: int,
    j: int,
    k: nat,
) -> T {
    out_cell(gemm_acc(ta, a, tb, b, i, j, k), alpha, beta, cold)
}

/// The same contraction read from the packed `k×n` row-major `op(B)` panel.
pub open spec fn packed_acc<T: FloatScalar>(
    ta: Trans,
    a: Mat<T>,
    bp: Seq<T>,
    n: nat,
    i: int,
    j: int,
    p: nat,
) -> T
    decreases p,
{
    if p == 0 {
        T::zero_spec()
    } else {
        op_at(ta, a, i, p - 1).fma_spec(
            bp[(p - 1) * n + j],
            packed_acc(ta, a, bp, n, i, j, (p - 1) as nat),
        )
    }
}

proof fn lemma_packed_acc<T: FloatScalar>(
    ta: Trans,
    a: Mat<T>,
    tb: Trans,
    b: Mat<T>,
    bp: Seq<T>,
    n: nat,
    i: int,
    j: int,
    p: nat,
)
    requires
        forall|q: int, jj: int|
            0 <= q < p && 0 <= jj < n ==> #[trigger] bp[q * n + jj] == op_at(tb, b, q, jj),
        0 <= j < n,
    ensures
        packed_acc(ta, a, bp, n, i, j, p) == gemm_acc(ta, a, tb, b, i, j, p),
    decreases p,
{
    if p > 0 {
        lemma_packed_acc(ta, a, tb, b, bp, n, i, j, (p - 1) as nat);
        assert(bp[(p - 1) * n + j] == op_at(tb, b, p - 1, j));
    }
}

/// Pack `op(B)` into a contiguous `k×n` row-major panel, so each contraction row loads as one
/// gang register whatever `B`'s storage.
pub fn pack_b<T: FloatScalar>(tb: Trans, b: &Mat<T>, k: usize, n: usize) -> (bp: Vec<T>)
    requires
        b.wf(),
        op_shape(tb, *b) == (k as nat, n as nat),
        k * n <= usize::MAX,
    ensures
        bp@.len() == k * n,
        forall|p: int, j: int|
            0 <= p < k && 0 <= j < n ==> #[trigger] bp@[p * n + j] == op_at(tb, *b, p, j),
{
    let mut bp = filled(T::zero(), k * n);
    let mut p: usize = 0;
    while p < k
        invariant
            b.wf(),
            op_shape(tb, *b) == (k as nat, n as nat),
            k * n <= usize::MAX,
            bp@.len() == k * n,
            0 <= p <= k,
            forall|q: int, j: int|
                #![trigger op_at(tb, *b, q, j)]
                0 <= q < p && 0 <= j < n ==> bp@[q * n + j] == op_at(tb, *b, q, j),
        decreases k - p,
    {
        let mut j: usize = 0;
        while j < n
            invariant
                b.wf(),
                op_shape(tb, *b) == (k as nat, n as nat),
                k * n <= usize::MAX,
                bp@.len() == k * n,
                0 <= p < k,
                0 <= j <= n,
                forall|q: int, jj: int|
                    #![trigger op_at(tb, *b, q, jj)]
                    (0 <= q < p && 0 <= jj < n) || (q == p && 0 <= jj < j) ==> bp@[q * n + jj] == op_at(tb, *b, q, jj),
            decreases n - j,
        {
            proof {
                assert(p * n + j < k * n) by (nonlinear_arith)
                    requires
                        p < k,
                        j < n,
                ;
            }
            let v = match tb {
                Trans::N => b.get(p, j),
                Trans::T => b.get(j, p),
            };
            let ghost prev = bp@;
            bp.set(p * n + j, v);
            proof {
                assert forall|q: int, jj: int|
                    (0 <= q < p && 0 <= jj < n) || (q == p && 0 <= jj < j + 1) implies bp@[q * n + jj]
                    == #[trigger] op_at(tb, *b, q, jj) by {
                    if q == p && jj == j {
                        assert(v == op_at(tb, *b, p as int, j as int));
                        assert(bp@[q * n + jj] == v);
                    } else {
                        assert(prev[q * n + jj] == op_at(tb, *b, q, jj));
                        assert(q * n + jj != p * n + j && 0 <= q * n + jj < k * n) by (nonlinear_arith)
                            requires
                                (0 <= q < p && 0 <= jj < n) || (q == p && 0 <= jj < j),
                                j < n,
                                p < k,
                        ;
                        assert(bp@[q * n + jj] == prev[q * n + jj]);
                    }
                }
            }
            j += 1;
        }
        p += 1;
    }
    proof {
        assert forall|q: int, jj: int| 0 <= q < k && 0 <= jj < n implies #[trigger] bp@[q * n + jj]
            == op_at(tb, *b, q, jj) by {
            assert(bp@[q * n + jj] == op_at(tb, *b, q, jj));
        }
    }
    bp
}

/// `(r, c)` is among the first `i` rows of column block `[j, j + w)`, or left of column `j`: the
/// cells a row-major GEMM sweep has written so far.
pub open spec fn swept(r: int, c: int, i: int, j: int, w: int) -> bool {
    c < j || (c < j + w && r < i)
}

/// Storing the `w` finished values of row `i`'s column block `[j, j + w)` of a row-major `m×n`
/// matrix extends the swept region by that row and touches nothing outside the matrix.
proof fn lemma_store_row_block<T>(
    before: Seq<T>,
    after: Seq<T>,
    c0: Seq<T>,
    vals: Seq<T>,
    tgt: spec_fn(int, int) -> T,
    stride: nat,
    m: nat,
    n: nat,
    i: int,
    j: int,
    w: int,
)
    requires
        fits(Layout::RowMajor, stride, m, n, before.len()),
        after.len() == before.len(),
        c0.len() == before.len(),
        0 <= i < m,
        0 <= j,
        1 <= w,
        j + w <= n,
        forall|q: int|
            0 <= q < before.len() ==> #[trigger] after[q] == if i * stride + j <= q < i * stride
                + j + w {
                vals[q - (i * stride + j)]
            } else {
                before[q]
            },
        forall|t: int| 0 <= t < w ==> #[trigger] vals[t] == tgt(i, j + t),
        forall|r: int, cc: int|
            0 <= r < m && 0 <= cc < n ==> #[trigger] before[offset(
                Layout::RowMajor,
                stride as int,
                r,
                cc,
            )] == if swept(r, cc, i, j, w) {
                tgt(r, cc)
            } else {
                c0[offset(Layout::RowMajor, stride as int, r, cc)]
            },
        forall|q: int|
            0 <= q < before.len() && !in_region(Layout::RowMajor, stride, m, n, q)
                ==> #[trigger] before[q] == c0[q],
    ensures
        forall|r: int, cc: int|
            0 <= r < m && 0 <= cc < n ==> #[trigger] after[offset(
                Layout::RowMajor,
                stride as int,
                r,
                cc,
            )] == if swept(r, cc, i + 1, j, w) {
                tgt(r, cc)
            } else {
                c0[offset(Layout::RowMajor, stride as int, r, cc)]
            },
        forall|q: int|
            0 <= q < before.len() && !in_region(Layout::RowMajor, stride, m, n, q)
                ==> #[trigger] after[q] == c0[q],
{
    let base = i * stride + j;
    assert(0 <= i * stride) by (nonlinear_arith)
        requires
            0 <= i,
    ;
    assert forall|r: int, cc: int| 0 <= r < m && 0 <= cc < n implies #[trigger] after[offset(
        Layout::RowMajor,
        stride as int,
        r,
        cc,
    )] == if swept(r, cc, i + 1, j, w) {
        tgt(r, cc)
    } else {
        c0[offset(Layout::RowMajor, stride as int, r, cc)]
    } by {
        lemma_offset_in_bounds(Layout::RowMajor, stride, m, n, before.len(), r, cc);
        let q = offset(Layout::RowMajor, stride as int, r, cc);
        if base <= q < base + w {
            let t = q - base;
            lemma_offset_in_bounds(Layout::RowMajor, stride, m, n, before.len(), i, j + t);
            lemma_offset_injective(Layout::RowMajor, stride, m, n, r, cc, i, j + t);
            assert(after[q] == vals[t]);
            assert(vals[t] == tgt(i, j + t));
        } else {
            assert(after[q] == before[q]);
            if r == i && j <= cc < j + w {
                assert(q == base + (cc - j));
            }
        }
    }
    assert forall|q: int|
        0 <= q < before.len() && !in_region(Layout::RowMajor, stride, m, n, q) implies #[trigger] after[q]
        == c0[q] by {
        if base <= q < base + w {
            let t = q - base;
            assert(offset(Layout::RowMajor, stride as int, i, j + t) == q);
        } else {
            assert(after[q] == before[q]);
        }
    }
}

/// Register-blocking factor of the GEMM kernel: independent accumulator chains (rows of `C`)
/// held across the contraction.
pub const MR: usize = 4;

/// The register-blocked GEMM kernel for a row-major `C`: each `lanes()`-wide column block of
/// each row accumulates its fused chain over the packed `op(B)` panel, then is written back as
/// `α·acc + β·C`.
#[verifier::rlimit(50)]
#[verifier::loop_isolation(false)]
pub fn gemm_run<T: FloatScalar, S: Backend<T>>(
    simd: Gang<S>,
    ta: Trans,
    a: Mat<T>,
    alpha: T,
    beta: T,
    bp: &[T],
    mut c: MatMut<T>,
    m: usize,
    n: usize,
    k: usize,
)
    requires
        a.wf(),
        op_shape(ta, a) == (m as nat, k as nat),
        bp@.len() == k * n,
        c.wf(),
        c.layout == Layout::RowMajor,
        c.rows == m,
        c.cols == n,
    ensures
        final(c.data)@.len() == old(c.data)@.len(),
        forall|i: int, j: int|
            0 <= i < m && 0 <= j < n ==> #[trigger] final(c.data)@[c.loc(i, j)] == out_cell(
                packed_acc(ta, a, bp@, n as nat, i, j, k as nat),
                alpha,
                beta,
                old(c.data)@[c.loc(i, j)],
            ),
        forall|q: int|
            0 <= q < old(c.data)@.len() && !in_region(
                Layout::RowMajor,
                c.stride as nat,
                m as nat,
                n as nat,
                q,
            ) ==> #[trigger] final(c.data)@[q] == old(c.data)@[q],
{
    proof {
        simd.backend.lemma_shape();
    }
    let ghost c0 = c.data@;
    let ghost fin = final(c.data)@;
    let bplen = bp.len();
    let stride = c.stride;
    let clen = c.data.len();
    let ghost tgt = |r: int, cc: int|
        out_cell(
            packed_acc(ta, a, bp@, n as nat, r, cc, k as nat),
            alpha,
            beta,
            c0[offset(Layout::RowMajor, stride as int, r, cc)],
        );
    let l = simd.lanes::<T>();
    let zero = simd.backend.splat(T::zero());
    let a_alpha = simd.backend.splat(alpha);
    let a_beta = simd.backend.splat(beta);
    let beta_nz = !beta.is_zero();
    let mut accs: Vec<S::Vector> = Vec::new();
    let mut z: usize = 0;
    while z < MR
        invariant
            accs@.len() == z,
            z <= MR,
        decreases MR - z,
    {
        accs.push(zero);
        z += 1;
    }
    let mut j: usize = 0;
    while j < n
        invariant
            a.wf(),
            op_shape(ta, a) == (m as nat, k as nat),
            bp@.len() == k * n,
            bp@.len() == bplen,
            c.wf(),
            c.layout == Layout::RowMajor,
            c.rows == m,
            c.cols == n,
            c.stride == stride,
            c.data@.len() == clen,
            c0.len() == clen,
            final(c.data)@ == fin,
            l == simd.backend.lanes_spec(),
            1 <= l <= 32,
            self_views(simd.backend, zero, a_alpha, a_beta, alpha, beta),
            beta_nz == !beta.is_zero_spec(),
            accs@.len() == MR,
            0 <= j <= n,
            forall|r: int, cc: int|
                0 <= r < m && 0 <= cc < n ==> #[trigger] c.data@[offset(
                    Layout::RowMajor,
                    stride as int,
                    r,
                    cc,
                )] == if cc < j {
                    tgt(r, cc)
                } else {
                    c0[offset(Layout::RowMajor, stride as int, r, cc)]
                },
            forall|q: int|
                0 <= q < clen && !in_region(Layout::RowMajor, stride as nat, m as nat, n as nat, q)
                    ==> #[trigger] c.data@[q] == c0[q],
        decreases n - j,
    {
        let w = if n - j < l {
            n - j
        } else {
            l
        };
        let mut i: usize = 0;
        while i < m
            invariant
                a.wf(),
                op_shape(ta, a) == (m as nat, k as nat),
                bp@.len() == k * n,
                bp@.len() == bplen,
                c.wf(),
                c.layout == Layout::RowMajor,
                c.rows == m,
                c.cols == n,
                c.stride == stride,
                c.data@.len() == clen,
                c0.len() == clen,
                final(c.data)@ == fin,
                l == simd.backend.lanes_spec(),
                1 <= l <= 32,
                self_views(simd.backend, zero, a_alpha, a_beta, alpha, beta),
                beta_nz == !beta.is_zero_spec(),
                0 <= j < n,
                1 <= w <= l,
                j + w <= n,
                0 <= i <= m,
                accs@.len() == MR,
                forall|r: int, cc: int|
                    0 <= r < m && 0 <= cc < n ==> #[trigger] c.data@[offset(
                        Layout::RowMajor,
                        stride as int,
                        r,
                        cc,
                    )] == if swept(r, cc, i as int, j as int, w as int) {
                        tgt(r, cc)
                    } else {
                        c0[offset(Layout::RowMajor, stride as int, r, cc)]
                    },
                forall|q: int|
                    0 <= q < clen && !in_region(Layout::RowMajor, stride as nat, m as nat, n as nat, q)
                        ==> #[trigger] c.data@[q] == c0[q],
            decreases m - i,
        {
            let mr = if m - i < MR {
                m - i
            } else {
                MR
            };
            let mut z: usize = 0;
            while z < MR
                invariant
                    accs@.len() == MR,
                    0 <= z <= MR,
                    forall|q: int| 0 <= q < z ==> #[trigger] accs@[q] == zero,
                decreases MR - z,
            {
                accs.set(z, zero);
                z += 1;
            }
            let mut p: usize = 0;
            while p < k
                invariant
                    a.wf(),
                    op_shape(ta, a) == (m as nat, k as nat),
                    bp@.len() == k * n,
                    bp@.len() == bplen,
                    l == simd.backend.lanes_spec(),
                    0 <= j < n,
                    1 <= w <= l,
                    j + w <= n,
                    0 <= i < m,
                    1 <= mr <= MR,
                    i + mr <= m,
                    0 <= p <= k,
                    accs@.len() == MR,
                    forall|ii: int, t: int|
                        0 <= ii < mr && 0 <= t < w ==> #[trigger] simd.backend.vview(accs@[ii])[t]
                            == packed_acc(ta, a, bp@, n as nat, i + ii, j + t, p as nat),
                decreases k - p,
            {
                proof {
                    assert(p * n + j + w <= k * n) by (nonlinear_arith)
                        requires
                            p < k,
                            j + w <= n,
                    ;
                }
                let bv = simd.load_partial(bp, p * n + j, w, T::zero());
                let mut ii: usize = 0;
                while ii < mr
                    invariant
                        a.wf(),
                        op_shape(ta, a) == (m as nat, k as nat),
                        bp@.len() == k * n,
                        l == simd.backend.lanes_spec(),
                        0 <= j < n,
                        1 <= w <= l,
                        j + w <= n,
                        0 <= i < m,
                        1 <= mr <= MR,
                        i + mr <= m,
                        0 <= p < k,
                        0 <= ii <= mr,
                        accs@.len() == MR,
                        forall|t: int| 0 <= t < w ==> #[trigger] simd.backend.vview(bv)[t] == bp@[p * n + j + t],
                        forall|i2: int, t: int|
                            0 <= i2 < mr && 0 <= t < w ==> #[trigger] simd.backend.vview(accs@[i2])[t]
                                == packed_acc(
                                ta,
                                a,
                                bp@,
                                n as nat,
                                i + i2,
                                j + t,
                                if i2 < ii {
                                    (p + 1) as nat
                                } else {
                                    p as nat
                                },
                            ),
                    decreases mr - ii,
                {
                    let aip = match ta {
                        Trans::N => a.get(i + ii, p),
                        Trans::T => a.get(p, i + ii),
                    };
                    let av = simd.backend.splat(aip);
                    let x = simd.backend.fma(av, bv, accs[ii]);
                    let ghost prev = accs@;
                    accs.set(ii, x);
                    proof {
                        assert forall|i2: int, t: int| 0 <= i2 < mr && 0 <= t < w implies #[trigger] simd.backend.vview(
                            accs@[i2],
                        )[t] == packed_acc(
                            ta,
                            a,
                            bp@,
                            n as nat,
                            i + i2,
                            j + t,
                            if i2 < ii + 1 {
                                (p + 1) as nat
                            } else {
                                p as nat
                            },
                        ) by {
                            if i2 == ii {
                                assert(p * n + j + t == (p + 1 - 1) * n + (j + t));
                                assert(simd.backend.vview(prev[i2])[t] == packed_acc(
                                    ta,
                                    a,
                                    bp@,
                                    n as nat,
                                    i + i2,
                                    j + t,
                                    p as nat,
                                ));
                            } else {
                                assert(accs@[i2] == prev[i2]);
                            }
                        }
                    }
                    ii += 1;
                }
                p += 1;
            }
            let mut ii: usize = 0;
            while ii < mr
                invariant
                    a.wf(),
                    op_shape(ta, a) == (m as nat, k as nat),
                    bp@.len() == k * n,
                    bp@.len() == bplen,
                    c.wf(),
                    c.layout == Layout::RowMajor,
                    c.rows == m,
                    c.cols == n,
                    c.stride == stride,
                    c.data@.len() == clen,
                    c0.len() == clen,
                    final(c.data)@ == fin,
                    l == simd.backend.lanes_spec(),
                    1 <= l <= 32,
                    self_views(simd.backend, zero, a_alpha, a_beta, alpha, beta),
                    beta_nz == !beta.is_zero_spec(),
                    0 <= j < n,
                    1 <= w <= l,
                    j + w <= n,
                    0 <= i < m,
                    1 <= mr <= MR,
                    i + mr <= m,
                    0 <= ii <= mr,
                    accs@.len() == MR,
                    forall|i2: int, t: int|
                        0 <= i2 < mr && 0 <= t < w ==> #[trigger] simd.backend.vview(accs@[i2])[t]
                            == packed_acc(ta, a, bp@, n as nat, i + i2, j + t, k as nat),
                    forall|r: int, cc: int|
                        0 <= r < m && 0 <= cc < n ==> #[trigger] c.data@[offset(
                            Layout::RowMajor,
                            stride as int,
                            r,
                            cc,
                        )] == if swept(r, cc, i + ii, j as int, w as int) {
                            tgt(r, cc)
                        } else {
                            c0[offset(Layout::RowMajor, stride as int, r, cc)]
                        },
                    forall|q: int|
                        0 <= q < clen && !in_region(Layout::RowMajor, stride as nat, m as nat, n as nat, q)
                            ==> #[trigger] c.data@[q] == c0[q],
                decreases mr - ii,
            {
                let row = i + ii;
                proof {
                    assert(forall|t: int| 0 <= t < w ==> #[trigger] simd.backend.vview(accs@[ii as int])[t]
                        == packed_acc(ta, a, bp@, n as nat, row as int, j + t, k as nat));
                }
                proof {
                    lemma_offset_in_bounds(
                        Layout::RowMajor,
                        stride as nat,
                        m as nat,
                        n as nat,
                        clen as nat,
                        row as int,
                        (j + w - 1) as int,
                    );
                    assert(row * stride <= row * stride + j) by (nonlinear_arith);
                }
                let base = row * stride + j;
                proof {
                    assert forall|t: int| 0 <= t < w implies #[trigger] c.data@[base + t] == c0[base
                        + t] by {
                        lemma_offset_in_bounds(
                            Layout::RowMajor,
                            stride as nat,
                            m as nat,
                            n as nat,
                            clen as nat,
                            row as int,
                            j + t,
                        );
                        assert(offset(Layout::RowMajor, stride as int, row as int, j + t) == base + t);
                        assert(!swept(row as int, j + t, row as int, j as int, w as int));
                    }
                }
                let mut out = simd.backend.fma(accs[ii], a_alpha, zero);
                let ghost out1 = simd.backend.vview(out);
                proof {
                    assert forall|t: int| 0 <= t < w implies #[trigger] out1[t] == packed_acc(
                        ta,
                        a,
                        bp@,
                        n as nat,
                        row as int,
                        j + t,
                        k as nat,
                    ).fma_spec(alpha, T::zero_spec()) by {
                        assert(simd.backend.vview(a_alpha)[t] == alpha);
                        assert(simd.backend.vview(zero)[t] == T::zero_spec());
                    }
                }
                if beta_nz {
                    let cv = simd.load_partial(c.data, base, w, T::zero());
                    out = simd.backend.fma(cv, a_beta, out);
                    proof {
                        assert forall|t: int| 0 <= t < w implies #[trigger] simd.backend.vview(out)[t]
                            == c0[base + t].fma_spec(beta, out1[t]) by {
                            assert(simd.backend.vview(a_beta)[t] == beta);
                            assert(simd.backend.vview(cv)[t] == c.data@[base + t]);
                        }
                    }
                }
                proof {
                    assert forall|t: int| 0 <= t < w implies #[trigger] simd.backend.vview(out)[t]
                        == tgt(row as int, j + t) by {
                        assert(offset(Layout::RowMajor, stride as int, row as int, j + t) == base + t);
                        assert(tgt(row as int, j + t) == out_cell(
                            packed_acc(ta, a, bp@, n as nat, row as int, j + t, k as nat),
                            alpha,
                            beta,
                            c0[base + t],
                        ));
                        if !beta_nz {
                            assert(simd.backend.vview(out) == out1);
                        }
                        assert(out1[t] == packed_acc(
                            ta,
                            a,
                            bp@,
                            n as nat,
                            row as int,
                            j + t,
                            k as nat,
                        ).fma_spec(alpha, T::zero_spec()));
                    }
                }
                let ghost before = c.data@;
                simd.store_partial(out, c.data, base, w);
                proof {
                    lemma_store_row_block(
                        before,
                        c.data@,
                        c0,
                        simd.backend.vview(out),
                        tgt,
                        stride as nat,
                        m as nat,
                        n as nat,
                        row as int,
                        j as int,
                        w as int,
                    );
                }
                ii += 1;
            }
            i += mr;
        }
        proof {
            assert forall|r: int, cc: int| 0 <= r < m && 0 <= cc < n implies #[trigger] c.data@[offset(
                Layout::RowMajor,
                stride as int,
                r,
                cc,
            )] == if cc < j + w {
                tgt(r, cc)
            } else {
                c0[offset(Layout::RowMajor, stride as int, r, cc)]
            } by {
                assert(swept(r, cc, m as int, j as int, w as int) == (cc < j + w));
            }
        }
        j += w;
    }
    proof {
        assert forall|i: int, j: int| 0 <= i < m && 0 <= j < n implies #[trigger] final(c.data)@[c.loc(
            i,
            j,
        )] == out_cell(
            packed_acc(ta, a, bp@, n as nat, i, j, k as nat),
            alpha,
            beta,
            old(c.data)@[c.loc(i, j)],
        ) by {
            assert(c.data@[offset(Layout::RowMajor, stride as int, i, j)] == tgt(i, j));
        }
    }
}

/// A fitting matrix with both dimensions positive holds at least `rows·cols` slots.
pub proof fn lemma_fits_area(layout: Layout, stride: nat, rows: nat, cols: nat, len: nat)
    requires
        fits(layout, stride, rows, cols, len),
        rows > 0,
        cols > 0,
    ensures
        rows * cols <= len,
{
    let o = outer_dim(layout, rows, cols);
    let n = inner_dim(layout, rows, cols);
    assert(o * n <= (o - 1) * stride + n) by (nonlinear_arith)
        requires
            o > 0,
            stride >= n,
    ;
    assert(rows * cols == o * n) by (nonlinear_arith)
        requires
            (o == rows && n == cols) || (o == cols && n == rows),
    ;
}

/// The other layout, as a spec function.
pub open spec fn flipped(l: Layout) -> Layout {
    match l {
        Layout::RowMajor => Layout::ColMajor,
        Layout::ColMajor => Layout::RowMajor,
    }
}

/// Reading a `rows × cols` buffer with the other layout and swapped dimensions, same stride,
/// gives its transpose: same slots, same footprint.
pub proof fn lemma_transposed_view(layout: Layout, stride: nat, rows: nat, cols: nat, len: nat)
    ensures
        fits(flipped(layout), stride, cols, rows, len) == fits(layout, stride, rows, cols, len),
        forall|r: int, c: int|
            #[trigger] offset(flipped(layout), stride as int, c, r) == offset(
                layout,
                stride as int,
                r,
                c,
            ),
        forall|q: int|
            #[trigger] in_region(flipped(layout), stride, cols, rows, q) == in_region(
                layout,
                stride,
                rows,
                cols,
                q,
            ),
{
    assert forall|q: int|
        #[trigger] in_region(flipped(layout), stride, cols, rows, q) == in_region(
            layout,
            stride,
            rows,
            cols,
            q,
        ) by {
        if in_region(layout, stride, rows, cols, q) {
            let (r, c) = choose|r: int, c: int|
                0 <= r < rows && 0 <= c < cols && #[trigger] offset(layout, stride as int, r, c)
                    == q;
            assert(offset(flipped(layout), stride as int, c, r) == q);
        }
        if in_region(flipped(layout), stride, cols, rows, q) {
            let (r, c) = choose|r: int, c: int|
                0 <= r < cols && 0 <= c < rows && #[trigger] offset(
                    flipped(layout),
                    stride as int,
                    r,
                    c,
                ) == q;
            assert(offset(layout, stride as int, c, r) == q);
        }
    }
}

/// Entry `(i, j)` that `gemm` writes into a `C` stored with `layout`. A row-major `C` takes the
/// contraction of `op(A)`'s row `i` with `op(B)`'s column `j`; a column-major `C` is computed as
/// `Cᵀ = op(B)ᵀ·op(A)ᵀ`, so its chain multiplies `op(B)[q][j]` by `op(A)[i][q]`.
pub open spec fn gemm_entry<T: FloatScalar>(
    layout: Layout,
    ta: Trans,
    a: Mat<T>,
    tb: Trans,
    b: Mat<T>,
    alpha: T,
    beta: T,
    cold: T,
    i: int,
    j: int,
    k: nat,
) -> T {
    match layout {
        Layout::RowMajor => gemm_cell(ta, a, tb, b, alpha, beta, cold, i, j, k),
        Layout::ColMajor => gemm_cell(opposite(tb), b, opposite(ta), a, alpha, beta, cold, j, i, k),
    }
}

/// The opposite transposition, as a spec function.
pub open spec fn opposite(t: Trans) -> Trans {
    match t {
        Trans::N => Trans::T,
        Trans::T => Trans::N,
    }
}

/// `gemm` on a row-major `C`: pack `op(B)`, then run the kernel.
fn gemm_row_major<T: FloatScalar>(
    ta: Trans,
    tb: Trans,
    alpha: T,
    a: Mat<T>,
    b: Mat<T>,
    beta: T,
    c: MatMut<T>,
    m: usize,
    n: usize,
    k: usize,
)
    requires
        a.wf(),
        b.wf(),
        c.wf(),
        op_shape(ta, a) == (m as nat, k as nat),
        op_shape(tb, b) == (k as nat, n as nat),
        c.layout == Layout::RowMajor,
        c.rows == m,
        c.cols == n,
    ensures
        final(c.data)@.len() == old(c.data)@.len(),
        forall|i: int, j: int|
            0 <= i < m && 0 <= j < n ==> #[trigger] final(c.data)@[c.loc(i, j)] == gemm_cell(
                ta,
                a,
                tb,
                b,
                alpha,
                beta,
                old(c.data)@[c.loc(i, j)],
                i,
                j,
                k as nat,
            ),
        forall|q: int|
            0 <= q < old(c.data)@.len() && !in_region(
                Layout::RowMajor,
                c.stride as nat,
                m as nat,
                n as nat,
                q,
            ) ==> #[trigger] final(c.data)@[q] == old(c.data)@[q],
{
    let blen = b.data.len();
    proof {
        if k > 0 && n > 0 {
            lemma_fits_area(b.layout, b.stride as nat, b.rows as nat, b.cols as nat, b.data@.len());
            assert(k * n == b.rows * b.cols) by (nonlinear_arith)
                requires
                    (k == b.rows && n == b.cols) || (k == b.cols && n == b.rows),
            ;
        } else {
            assert(k * n == 0) by (nonlinear_arith)
                requires
                    k == 0 || n == 0,
            ;
        }
    }
    let bp = pack_b(tb, &b, k, n);
    gemm_run(Gang::new(ScalarBackend), ta, a, alpha, beta, bp.as_slice(), c, m, n, k);
    proof {
        assert forall|i: int, j: int| 0 <= i < m && 0 <= j < n implies packed_acc(
            ta,
            a,
            bp@,
            n as nat,
            i,
            j,
            k as nat,
        ) == gemm_acc(ta, a, tb, b, i, j, k as nat) by {
            lemma_packed_acc(ta, a, tb, b, bp@, n as nat, i, j, k as nat);
        }
    }
}

/// General matrix–matrix product `C := α·op(A)·op(B) + β·C`, each `op` the identity
/// (`Trans::N`) or the transpose (`Trans::T`) applied without materializing it. The kernel
/// streams the contraction over a packed `op(B)` panel. A column-major `C` computes
/// `Cᵀ = op(B)ᵀ·op(A)ᵀ` into the same buffer viewed row-major, so the kernel only ever writes
/// contiguous rows.
pub fn gemm<T: FloatScalar>(
    ta: Trans,
    tb: Trans,
    alpha: T,
    a: Mat<T>,
    b: Mat<T>,
    beta: T,
    c: MatMut<T>,
)
    requires
        a.wf() || c.rows == 0 || c.cols == 0 || op_shape(ta, a).1 == 0,
        b.wf() || c.rows == 0 || c.cols == 0 || op_shape(ta, a).1 == 0,
        c.wf() || c.rows == 0 || c.cols == 0,
        op_shape(ta, a).1 == op_shape(tb, b).0,
        c.rows == op_shape(ta, a).0,
        c.cols == op_shape(tb, b).1,
    ensures
        final(c.data)@.len() == old(c.data)@.len(),
        forall|i: int, j: int|
            0 <= i < c.rows && 0 <= j < c.cols ==> #[trigger] final(c.data)@[c.loc(i, j)]
                == gemm_entry(
                c.layout,
                ta,
                a,
                tb,
                b,
                alpha,
                beta,
                old(c.data)@[c.loc(i, j)],
                i,
                j,
                op_shape(ta, a).1,
            ),
        forall|q: int|
            0 <= q < old(c.data)@.len() && !in_region(
                c.layout,
                c.stride as nat,
                c.rows as nat,
                c.cols as nat,
                q,
            ) ==> #[trigger] final(c.data)@[q] == old(c.data)@[q],
{
    let ghost c_in = c;
    let ghost a_in = a;
    let ghost b_in = b;
    let (m, k) = op_dims(ta, &a);
    let (_kb, n) = op_dims(tb, &b);
    if m == 0 || n == 0 {
        return ;
    }
    // An empty contraction reads neither operand: view both with a stride that fits.
    let (a, b) = if k == 0 {
        (a.settled(), b.settled())
    } else {
        (a, b)
    };
    proof {
        if k == 0 {
            assert forall|i: int, j: int, cold: T, l: Layout|
                #[trigger] gemm_entry(l, ta, a, tb, b, alpha, beta, cold, i, j, 0) == gemm_entry(
                    l,
                    ta,
                    a_in,
                    tb,
                    b_in,
                    alpha,
                    beta,
                    cold,
                    i,
                    j,
                    0,
                ) by {
                assert(gemm_acc(ta, a, tb, b, i, j, 0) == gemm_acc(ta, a_in, tb, b_in, i, j, 0));
                assert(gemm_acc(opposite(tb), b, opposite(ta), a, j, i, 0) == gemm_acc(
                    opposite(tb),
                    b_in,
                    opposite(ta),
                    a_in,
                    j,
                    i,
                    0,
                ));
            }
        }
    }
    if c.layout == Layout::ColMajor {
        proof {
            lemma_transposed_view(c.layout, c.stride as nat, m as nat, n as nat, c.data@.len());
        }
        let ct = MatMut::strided(c.data, c.cols, c.rows, c.stride, Layout::RowMajor);
        let ftb = flip(tb);
        let fta = flip(ta);
        assert(ftb == opposite(tb) && fta == opposite(ta));
        let ghost ct0 = ct;
        gemm_row_major(ftb, fta, alpha, b, a, beta, ct, n, m, k);
        proof {
            assert forall|i: int, j: int| 0 <= i < m && 0 <= j < n implies #[trigger] final(c_in.data)@[c_in.loc(i, j)]
                == gemm_entry(
                c_in.layout,
                ta,
                a,
                tb,
                b,
                alpha,
                beta,
                c_in.data@[c_in.loc(i, j)],
                i,
                j,
                k as nat,
            ) by {
                assert(c_in.loc(i, j) == ct0.loc(j, i));
            }
        }
    } else {
        gemm_row_major(ta, tb, alpha, a, b, beta, c, m, n, k);
    }
}

/// `(i, j)` lies in the `uplo` triangle (diagonal included).
pub open spec fn in_tri(uplo: Uplo, i: int, j: int) -> bool {
    match uplo {
        Uplo::Lower => j <= i,
        Uplo::Upper => i <= j,
    }
}

/// Row `i` of a packed row-major panel with rows of `k` elements.
pub open spec fn panel_row<T>(ap: Seq<T>, i: int, k: nat) -> Seq<T> {
    ap.subrange(i * k, i * k + k)
}

/// Entry `(i, j)` of `α·op(A)·op(A)ᵀ + β·C` as an `l`-lane gang computes it over `cold`.
pub open spec fn syrk_cell<T: FloatScalar>(
    trans: Trans,
    a: Mat<T>,
    alpha: T,
    beta: T,
    cold: T,
    i: int,
    j: int,
    l: nat,
) -> T {
    let k = op_shape(trans, a).1;
    fma_scalar_spec(alpha, dot_spec(op_row(trans, a, i, k), op_row(trans, a, j, k), l), beta, cold)
}

/// Pack `op(A)`'s rows contiguous: an `n×k` row-major panel.
pub fn pack_syrk<T: FloatScalar>(trans: Trans, a: &Mat<T>, n: usize, k: usize) -> (ap: Vec<T>)
    requires
        a.wf(),
        op_shape(trans, *a) == (n as nat, k as nat),
        n * k <= usize::MAX,
    ensures
        ap@.len() == n * k,
        forall|i: int| 0 <= i < n ==> #[trigger] panel_row(ap@, i, k as nat) == op_row(trans, *a, i, k as nat),
{
    let ap = pack_b(trans, a, n, k);
    proof {
        assert forall|i: int| 0 <= i < n implies #[trigger] panel_row(ap@, i, k as nat) == op_row(
            trans,
            *a,
            i,
            k as nat,
        ) by {
            assert(i * k + k <= n * k) by (nonlinear_arith)
                requires
                    0 <= i < n,
            ;
            assert(0 <= i * k) by (nonlinear_arith)
                requires
                    0 <= i,
            ;
            assert forall|p: int| 0 <= p < k implies #[trigger] panel_row(ap@, i, k as nat)[p]
                == op_row(trans, *a, i, k as nat)[p] by {
                assert(ap@[i * k + p] == op_at(trans, *a, i, p));
            }
            assert(panel_row(ap@, i, k as nat) =~= op_row(trans, *a, i, k as nat));
        }
    }
    ap
}

/// The SYRK kernel: for each `(i, j)` of the `uplo` triangle, dot packed rows `i` and `j` and
/// write `α·d + β·C[i][j]`.
#[verifier::loop_isolation(false)]
pub fn syrk_run<T: FloatScalar, S: Backend<T>>(
    simd: Gang<S>,
    uplo: Uplo,
    alpha: T,
    beta: T,
    ap: &[T],
    mut c: MatMut<T>,
    n: usize,
    k: usize,
)
    requires
        ap@.len() == n * k,
        c.wf(),
        c.rows == n,
        c.cols == n,
    ensures
        final(c.data)@.len() == old(c.data)@.len(),
        forall|i: int, j: int|
            0 <= i < n && 0 <= j < n ==> #[trigger] final(c.data)@[c.loc(i, j)] == if in_tri(
                uplo,
                i,
                j,
            ) {
                fma_scalar_spec(
                    alpha,
                    dot_spec(panel_row(ap@, i, k as nat), panel_row(ap@, j, k as nat), simd.backend.lanes_spec()),
                    beta,
                    old(c.data)@[c.loc(i, j)],
                )
            } else {
                old(c.data)@[c.loc(i, j)]
            },
        forall|q: int|
            0 <= q < old(c.data)@.len() && !in_region(c.layout, c.stride as nat, n as nat, n as nat, q)
                ==> #[trigger] final(c.data)@[q] == old(c.data)@[q],
{
    let ghost c_in = c;
    let ghost c0 = c.data@;
    let ghost fin = final(c.data)@;
    let ghost tgt = |r: int, cc: int|
        fma_scalar_spec(
            alpha,
            dot_spec(panel_row(ap@, r, k as nat), panel_row(ap@, cc, k as nat), simd.backend.lanes_spec()),
            beta,
            c0[c_in.loc(r, cc)],
        );
    let clen = c.data.len();
    let aplen = ap.len();
    let mut i: usize = 0;
    while i < n
        invariant
            c.wf(),
            c.rows == n,
            c.cols == n,
            c.layout == c_in.layout,
            c.stride == c_in.stride,
            c.data@.len() == clen,
            c0.len() == clen,
            final(c.data)@ == fin,
            0 <= i <= n,
            forall|r: int, cc: int|
                0 <= r < n && 0 <= cc < n ==> #[trigger] c.data@[c_in.loc(r, cc)] == if in_tri(
                    uplo,
                    r,
                    cc,
                ) && r < i {
                    tgt(r, cc)
                } else {
                    c0[c_in.loc(r, cc)]
                },
            forall|q: int|
                0 <= q < clen && !in_region(c_in.layout, c_in.stride as nat, n as nat, n as nat, q)
                    ==> #[trigger] c.data@[q] == c0[q],
        decreases n - i,
    {
        let (lo, hi) = match uplo {
            Uplo::Lower => (0, i + 1),
            Uplo::Upper => (i, n),
        };
        proof {
            assert(i * k + k <= n * k) by (nonlinear_arith)
                requires
                    i < n,
            ;
            assert(0 <= i * k) by (nonlinear_arith);
        }
        let ai = &ap[i * k..i * k + k];
        let mut j: usize = lo;
        while j < hi
            invariant
                c.wf(),
                c.rows == n,
                c.cols == n,
                c.layout == c_in.layout,
                c.stride == c_in.stride,
                c.data@.len() == clen,
                c0.len() == clen,
                final(c.data)@ == fin,
                0 <= i < n,
                lo <= j <= hi,
                hi <= n,
                forall|cc: int| 0 <= cc < n ==> (in_tri(uplo, i as int, cc) <==> lo <= cc < hi),
                ai@ == panel_row(ap@, i as int, k as nat),
                forall|r: int, cc: int|
                    0 <= r < n && 0 <= cc < n ==> #[trigger] c.data@[c_in.loc(r, cc)] == if in_tri(
                        uplo,
                        r,
                        cc,
                    ) && (r < i || (r == i && cc < j)) {
                        tgt(r, cc)
                    } else {
                        c0[c_in.loc(r, cc)]
                    },
                forall|q: int|
                    0 <= q < clen && !in_region(c_in.layout, c_in.stride as nat, n as nat, n as nat, q)
                        ==> #[trigger] c.data@[q] == c0[q],
            decreases hi - j,
        {
            proof {
                assert(j * k + k <= n * k) by (nonlinear_arith)
                    requires
                        j < n,
                ;
                assert(0 <= j * k) by (nonlinear_arith);
            }
            let d = simd.dot(ai, &ap[j * k..j * k + k]);
            let o = c.off(i, j);
            let v = fma_scalar(alpha, d, beta, c.data[o]);
            let ghost before = c.data@;
            c.data[o] = v;
            proof {
                assert(c.data@[o as int] == tgt(i as int, j as int));
                assert forall|r: int, cc: int| 0 <= r < n && 0 <= cc < n implies #[trigger] c.data@[c_in.loc(
                    r,
                    cc,
                )] == if in_tri(uplo, r, cc) && (r < i || (r == i && cc < j + 1)) {
                    tgt(r, cc)
                } else {
                    c0[c_in.loc(r, cc)]
                } by {
                    if c_in.loc(r, cc) == o {
                        lemma_offset_injective(
                            c_in.layout,
                            c_in.stride as nat,
                            n as nat,
                            n as nat,
                            r,
                            cc,
                            i as int,
                            j as int,
                        );
                    } else {
                        lemma_offset_in_bounds(
                            c_in.layout,
                            c_in.stride as nat,
                            n as nat,
                            n as nat,
                            clen as nat,
                            r,
                            cc,
                        );
                        assert(c.data@[c_in.loc(r, cc)] == before[c_in.loc(r, cc)]);
                    }
                }
                assert forall|q: int|
                    0 <= q < clen && !in_region(c_in.layout, c_in.stride as nat, n as nat, n as nat, q)
                        implies #[trigger] c.data@[q] == c0[q] by {
                    if q == o {
                        assert(offset(c_in.layout, c_in.stride as int, i as int, j as int) == q);
                    } else {
                        assert(c.data@[q] == before[q]);
                    }
                }
            }
            j += 1;
        }
        i += 1;
    }
}

/// Symmetric rank-`k` update `C := α·op(A)·op(A)ᵀ + β·C`, writing only the `uplo` triangle of
/// the symmetric `n×n` result. `op(A)` is `A` (`Trans::N`, `A` is `n×k`) or `Aᵀ` (`Trans::T`,
/// `A` is `k×n`). Packs `op(A)`'s rows contiguous and dots each referenced `(i, j)` pair.
pub fn syrk<T: FloatScalar>(uplo: Uplo, trans: Trans, alpha: T, a: Mat<T>, beta: T, c: MatMut<T>)
    requires
        a.wf() || op_shape(trans, a).0 == 0 || op_shape(trans, a).1 == 0,
        c.wf(),
        c.rows == op_shape(trans, a).0,
        c.cols == op_shape(trans, a).0,
    ensures
        final(c.data)@.len() == old(c.data)@.len(),
        forall|i: int, j: int|
            0 <= i < c.rows && 0 <= j < c.rows ==> #[trigger] final(c.data)@[c.loc(i, j)] == if in_tri(
                uplo,
                i,
                j,
            ) {
                syrk_cell(trans, a, alpha, beta, old(c.data)@[c.loc(i, j)], i, j, 1)
            } else {
                old(c.data)@[c.loc(i, j)]
            },
        forall|q: int|
            0 <= q < old(c.data)@.len() && !in_region(
                c.layout,
                c.stride as nat,
                c.rows as nat,
                c.rows as nat,
                q,
            ) ==> #[trigger] final(c.data)@[q] == old(c.data)@[q],
{
    let (n, k) = match trans {
        Trans::N => (a.rows, a.cols),
        Trans::T => (a.cols, a.rows),
    };
    if n == 0 {
        return ;
    }
    let ghost a_in = a;
    // An empty contraction reads no element of `A`: view it with a stride that fits.
    let a = if k == 0 {
        a.settled()
    } else {
        a
    };
    proof {
        if k == 0 {
            assert forall|i: int, j: int, cold: T|
                #[trigger] syrk_cell(trans, a, alpha, beta, cold, i, j, 1) == syrk_cell(
                    trans,
                    a_in,
                    alpha,
                    beta,
                    cold,
                    i,
                    j,
                    1,
                ) by {
                assert(op_row(trans, a, i, 0) =~= op_row(trans, a_in, i, 0));
                assert(op_row(trans, a, j, 0) =~= op_row(trans, a_in, j, 0));
            }
        }
    }
    let alen = a.data.len();
    proof {
        if k > 0 {
            lemma_fits_area(a.layout, a.stride as nat, a.rows as nat, a.cols as nat, a.data@.len());
            assert(n * k == a.rows * a.cols) by (nonlinear_arith)
                requires
                    (n == a.rows && k == a.cols) || (n == a.cols && k == a.rows),
            ;
        } else {
            assert(n * k == 0) by (nonlinear_arith)
                requires
                    k == 0,
            ;
        }
    }
    let ap = pack_syrk(trans, &a, n, k);
    syrk_run(Gang::new(ScalarBackend), uplo, alpha, beta, ap.as_slice(), c, n, k);
}

/// One elimination step of a substitution: `v − c·x_p`, as the fused `x_p·(−c) + v`; skipped
/// (the row unchanged) when `c = 0`.
pub open spec fn elim<T: FloatScalar>(c: T, xp: T, v: T) -> T {
    if c.is_zero_spec() {
        v
    } else {
        xp.fma_spec(c.neg_spec(), v)
    }
}

/// The closing division of a substitution row by its pivot `d`, as a multiply by `1/d`; the
/// identity for an implicit unit diagonal.
pub open spec fn unscale<T: FloatScalar>(diag: Diag, d: T, v: T) -> T {
    match diag {
        Diag::Unit => v,
        Diag::NonUnit => v.mul_spec(d.recip_spec()),
    }
}

/// `α·v`, skipped when `α = 1`.
pub open spec fn alpha_scaled<T: Scalar>(alpha: T, v: T) -> T {
    if alpha.is_one_spec() {
        v
    } else {
        alpha.mul_spec(v)
    }
}

/// Row `i` of a right-hand-side column `xs` after eliminating rows `lo..hi`, in increasing order.
pub open spec fn elim_chain<T: FloatScalar>(
    trans: Trans,
    a: Mat<T>,
    xs: Seq<T>,
    i: int,
    lo: int,
    hi: int,
) -> T
    decreases hi - lo,
{
    if hi <= lo {
        xs[i]
    } else {
        elim(op_at(trans, a, i, hi - 1), xs[hi - 1], elim_chain(trans, a, xs, i, lo, hi - 1))
    }
}

/// Forward substitution through `op(A)` (lower triangular) on column `xs`, its first `k` rows
/// solved; rows `k..` still hold their right-hand side.
pub open spec fn fwd_solve<T: FloatScalar>(
    trans: Trans,
    a: Mat<T>,
    diag: Diag,
    xs: Seq<T>,
    k: nat,
) -> Seq<T>
    decreases k,
{
    if k == 0 {
        xs
    } else {
        let ys = fwd_solve(trans, a, diag, xs, (k - 1) as nat);
        let i = k - 1;
        ys.update(i, unscale(diag, op_at(trans, a, i, i), elim_chain(trans, a, ys, i, 0, i)))
    }
}

/// Back substitution through `op(A)` (upper triangular) on column `xs`, its last `k` rows solved.
pub open spec fn bwd_solve<T: FloatScalar>(
    trans: Trans,
    a: Mat<T>,
    diag: Diag,
    xs: Seq<T>,
    k: nat,
) -> Seq<T>
    decreases k,
{
    if k == 0 {
        xs
    } else {
        let ys = bwd_solve(trans, a, diag, xs, (k - 1) as nat);
        let i = xs.len() - k;
        ys.update(
            i,
            unscale(diag, op_at(trans, a, i, i), elim_chain(trans, a, ys, i, i + 1, xs.len() as int)),
        )
    }
}

/// `op(A)` is lower triangular: the `(Lower, N)` and `(Upper, T)` cases.
pub open spec fn op_lower(uplo: Uplo, trans: Trans) -> bool {
    (uplo == Uplo::Lower) == (trans == Trans::N)
}

/// The solution of `op(A)·x = xs` by forward (`lower`) or back substitution.
pub open spec fn tri_solve<T: FloatScalar>(
    trans: Trans,
    a: Mat<T>,
    diag: Diag,
    lower: bool,
    xs: Seq<T>,
) -> Seq<T> {
    if lower {
        fwd_solve(trans, a, diag, xs, xs.len())
    } else {
        bwd_solve(trans, a, diag, xs, xs.len())
    }
}

proof fn lemma_fwd_solve_frame<T: FloatScalar>(trans: Trans, a: Mat<T>, diag: Diag, xs: Seq<T>, k: nat)
    requires
        k <= xs.len(),
    ensures
        fwd_solve(trans, a, diag, xs, k).len() == xs.len(),
        forall|r: int| k <= r < xs.len() ==> #[trigger] fwd_solve(trans, a, diag, xs, k)[r] == xs[r],
    decreases k,
{
    if k > 0 {
        lemma_fwd_solve_frame(trans, a, diag, xs, (k - 1) as nat);
    }
}

proof fn lemma_bwd_solve_frame<T: FloatScalar>(trans: Trans, a: Mat<T>, diag: Diag, xs: Seq<T>, k: nat)
    requires
        k <= xs.len(),
    ensures
        bwd_solve(trans, a, diag, xs, k).len() == xs.len(),
        forall|r: int| 0 <= r < xs.len() - k ==> #[trigger] bwd_solve(trans, a, diag, xs, k)[r] == xs[r],
    decreases k,
{
    if k > 0 {
        lemma_bwd_solve_frame(trans, a, diag, xs, (k - 1) as nat);
    }
}

/// Column `t` of a packed row-major `m×n` buffer.
pub open spec fn rm_col<T>(s: Seq<T>, m: nat, n: nat, t: int) -> Seq<T> {
    Seq::new(m, |r: int| s[offset(Layout::RowMajor, n as int, r, t)])
}

/// Slot facts for a packed row-major `m×n` buffer.
proof fn lemma_packed_slots(m: nat, n: nat)
    ensures
        fits(Layout::RowMajor, n, m, n, m * n),
        forall|r: int, t: int|
            0 <= r < m && 0 <= t < n ==> 0 <= #[trigger] offset(Layout::RowMajor, n as int, r, t) < m
                * n,
{
    if m > 0 {
        assert((m - 1) * n + n == m * n) by (nonlinear_arith);
    }
    assert forall|r: int, t: int| 0 <= r < m && 0 <= t < n implies 0 <= #[trigger] offset(
        Layout::RowMajor,
        n as int,
        r,
        t,
    ) < m * n by {
        lemma_offset_in_bounds(Layout::RowMajor, n, m, n, m * n, r, t);
    }
}

/// Column `t` of an `m`-row matrix held in `s` with this geometry, each entry scaled by `α`: the
/// right-hand side a substitution solves.
pub open spec fn rhs_col<T: Scalar>(alpha: T, s: Seq<T>, layout: Layout, stride: int, m: nat, t: int) -> Seq<T> {
    Seq::new(m, |i: int| alpha_scaled(alpha, s[offset(layout, stride, i, t)]))
}

/// Scale row `i` (all `n` columns) of the packed buffer by `1/d` for a non-unit diagonal.
fn unscale_row<T: FloatScalar>(rp: &mut [T], i: usize, n: usize, diag: Diag, d: T)
    requires
        i * n + n <= old(rp)@.len(),
    ensures
        final(rp)@.len() == old(rp)@.len(),
        forall|q: int|
            0 <= q < old(rp)@.len() ==> #[trigger] final(rp)@[q] == if i * n <= q < i * n + n {
                unscale(diag, d, old(rp)@[q])
            } else {
                old(rp)@[q]
            },
{
    let len = rp.len();
    if diag == Diag::NonUnit {
        let inv = d.recip();
        let base = i * n;
        let mut t: usize = 0;
        while t < n
            invariant
                base == i * n,
                base + n <= old(rp)@.len(),
                old(rp)@.len() == len,
                rp@.len() == old(rp)@.len(),
                diag == Diag::NonUnit,
                inv == d.recip_spec(),
                0 <= t <= n,
                forall|q: int|
                    0 <= q < old(rp)@.len() ==> #[trigger] rp@[q] == if base <= q < base + t {
                        unscale(diag, d, old(rp)@[q])
                    } else {
                        old(rp)@[q]
                    },
            decreases n - t,
        {
            let v = rp[base + t].wmul(inv);
            rp[base + t] = v;
            t += 1;
        }
    }
}

/// The substitution kernel on the packed row-major right-hand side `rp` (`m×n`): scale by `α`,
/// then solve each column by forward (`op_lower`) or back substitution, a row of eliminations at
/// a time vectorized across the columns.
#[verifier::loop_isolation(false)]
#[verifier::rlimit(40)]
pub fn solve_run<T: FloatScalar, S: Backend<T>>(
    simd: Gang<S>,
    a: Mat<T>,
    alpha: T,
    diag: Diag,
    trans: Trans,
    lower: bool,
    rp: &mut [T],
    m: usize,
    n: usize,
)
    requires
        a.wf(),
        a.rows == m,
        a.cols == m,
        old(rp)@.len() == m * n,
    ensures
        final(rp)@.len() == old(rp)@.len(),
        forall|r: int, t: int|
            0 <= r < m && 0 <= t < n ==> #[trigger] final(rp)@[offset(Layout::RowMajor, n as int, r, t)]
                == tri_solve(
                trans,
                a,
                diag,
                lower,
                rhs_col(alpha, old(rp)@, Layout::RowMajor, n as int, m as nat, t),
            )[r],
{
    proof {
        lemma_packed_slots(m as nat, n as nat);
    }
    let ghost r0 = rp@;
    let len = rp.len();
    if !alpha.is_one() {
        let mut q: usize = 0;
        while q < len
            invariant
                rp@.len() == len,
                r0.len() == len,
                !alpha.is_one_spec(),
                0 <= q <= len,
                forall|z: int| 0 <= z < len ==> #[trigger] rp@[z] == if z < q {
                    alpha_scaled(alpha, r0[z])
                } else {
                    r0[z]
                },
            decreases len - q,
        {
            let v = alpha.wmul(rp[q]);
            rp[q] = v;
            q += 1;
        }
    }
    let ghost s = rp@;
    assert forall|z: int| 0 <= z < len implies #[trigger] s[z] == alpha_scaled(alpha, r0[z]) by {}
    assert forall|t: int| 0 <= t < n implies #[trigger] rm_col(s, m as nat, n as nat, t) == rhs_col(
        alpha,
        r0,
        Layout::RowMajor,
        n as int,
        m as nat,
        t,
    ) by {
        assert(rm_col(s, m as nat, n as nat, t) =~= rhs_col(alpha, r0, Layout::RowMajor, n as int, m as nat, t));
    }
    if lower {
        let mut i: usize = 0;
        while i < m
            invariant
                rp@.len() == len,
                0 <= i <= m,
                forall|r: int, t: int|
                    0 <= r < m && 0 <= t < n ==> #[trigger] rp@[offset(Layout::RowMajor, n as int, r, t)]
                        == fwd_solve(trans, a, diag, rm_col(s, m as nat, n as nat, t), i as nat)[r],
            decreases m - i,
        {
            proof {
                assert forall|t: int| 0 <= t < n implies #[trigger] fwd_solve(
                    trans,
                    a,
                    diag,
                    rm_col(s, m as nat, n as nat, t),
                    i as nat,
                ).len() == m by {
                    lemma_fwd_solve_frame(trans, a, diag, rm_col(s, m as nat, n as nat, t), i as nat);
                }
            }
            let mut p: usize = 0;
            while p < i
                invariant
                    rp@.len() == len,
                    0 <= i < m,
                    0 <= p <= i,
                    forall|r: int, t: int|
                        0 <= r < m && 0 <= t < n ==> #[trigger] rp@[offset(Layout::RowMajor, n as int, r, t)]
                            == if r == i {
                            elim_chain(
                                trans,
                                a,
                                fwd_solve(trans, a, diag, rm_col(s, m as nat, n as nat, t), i as nat),
                                r,
                                0,
                                p as int,
                            )
                        } else {
                            fwd_solve(trans, a, diag, rm_col(s, m as nat, n as nat, t), i as nat)[r]
                        },
                decreases i - p,
            {
                let c = match trans {
                    Trans::N => a.get(i, p),
                    Trans::T => a.get(p, i),
                };
                proof {
                    assert(p * n + n <= i * n) by (nonlinear_arith)
                        requires
                            p < i,
                    ;
                    assert(i * n + n <= m * n) by (nonlinear_arith)
                        requires
                            i < m,
                    ;
                }
                let ghost before = rp@;
                if !c.is_zero() {
                    simd.axpy_within(rp, p * n, c.neg(), i * n, n);
                }
                proof {
                    assert forall|r: int, t: int| 0 <= r < m && 0 <= t < n implies #[trigger] rp@[offset(
                        Layout::RowMajor,
                        n as int,
                        r,
                        t,
                    )] == if r == i {
                        elim_chain(
                            trans,
                            a,
                            fwd_solve(trans, a, diag, rm_col(s, m as nat, n as nat, t), i as nat),
                            r,
                            0,
                            p + 1,
                        )
                    } else {
                        fwd_solve(trans, a, diag, rm_col(s, m as nat, n as nat, t), i as nat)[r]
                    } by {
                        let q = offset(Layout::RowMajor, n as int, r, t);
                        assert(before[offset(Layout::RowMajor, n as int, p as int, t)] == fwd_solve(
                            trans,
                            a,
                            diag,
                            rm_col(s, m as nat, n as nat, t),
                            i as nat,
                        )[p as int]);
                        if r == i {
                            assert(q == i * n + t);
                            assert(p * n + q - i * n == offset(Layout::RowMajor, n as int, p as int, t));
                        } else {
                            assert(r * n + t < i * n || r * n + t >= i * n + n) by (nonlinear_arith)
                                requires
                                    r != i,
                                    0 <= t < n,
                            ;
                        }
                    }
                }
                p += 1;
            }
            let d = match trans {
                Trans::N => a.get(i, i),
                Trans::T => a.get(i, i),
            };
            proof {
                assert(i * n + n <= m * n) by (nonlinear_arith)
                    requires
                        i < m,
                ;
            }
            let ghost before = rp@;
            unscale_row(rp, i, n, diag, d);
            proof {
                assert forall|r: int, t: int| 0 <= r < m && 0 <= t < n implies #[trigger] rp@[offset(
                    Layout::RowMajor,
                    n as int,
                    r,
                    t,
                )] == fwd_solve(trans, a, diag, rm_col(s, m as nat, n as nat, t), (i + 1) as nat)[r] by {
                    if r != i {
                        assert(r * n + t < i * n || r * n + t >= i * n + n) by (nonlinear_arith)
                            requires
                                r != i,
                                0 <= t < n,
                        ;
                    }
                }
            }
            i += 1;
        }
        proof {
            assert forall|r: int, t: int| 0 <= r < m && 0 <= t < n implies #[trigger] rp@[offset(
                Layout::RowMajor,
                n as int,
                r,
                t,
            )] == tri_solve(
                trans,
                a,
                diag,
                lower,
                rhs_col(alpha, r0, Layout::RowMajor, n as int, m as nat, t),
            )[r] by {
                assert(rm_col(s, m as nat, n as nat, t) == rhs_col(alpha, r0, Layout::RowMajor, n as int, m as nat, t));
            }
        }
    } else {
        let mut k: usize = 0;
        while k < m
            invariant
                rp@.len() == len,
                0 <= k <= m,
                forall|r: int, t: int|
                    0 <= r < m && 0 <= t < n ==> #[trigger] rp@[offset(Layout::RowMajor, n as int, r, t)]
                        == bwd_solve(trans, a, diag, rm_col(s, m as nat, n as nat, t), k as nat)[r],
            decreases m - k,
        {
            let i = m - 1 - k;
            proof {
                assert forall|t: int| 0 <= t < n implies #[trigger] bwd_solve(
                    trans,
                    a,
                    diag,
                    rm_col(s, m as nat, n as nat, t),
                    k as nat,
                ).len() == m by {
                    lemma_bwd_solve_frame(trans, a, diag, rm_col(s, m as nat, n as nat, t), k as nat);
                }
            }
            let mut p: usize = i + 1;
            while p < m
                invariant
                    rp@.len() == len,
                    i == m - 1 - k,
                    0 <= k < m,
                    i + 1 <= p <= m,
                    forall|r: int, t: int|
                        0 <= r < m && 0 <= t < n ==> #[trigger] rp@[offset(Layout::RowMajor, n as int, r, t)]
                            == if r == i {
                            elim_chain(
                                trans,
                                a,
                                bwd_solve(trans, a, diag, rm_col(s, m as nat, n as nat, t), k as nat),
                                r,
                                i + 1,
                                p as int,
                            )
                        } else {
                            bwd_solve(trans, a, diag, rm_col(s, m as nat, n as nat, t), k as nat)[r]
                        },
                decreases m - p,
            {
                let c = match trans {
                    Trans::N => a.get(i, p),
                    Trans::T => a.get(p, i),
                };
                proof {
                    assert(i * n + n <= p * n) by (nonlinear_arith)
                        requires
                            i < p,
                    ;
                    assert(p * n + n <= m * n) by (nonlinear_arith)
                        requires
                            p < m,
                    ;
                }
                let ghost before = rp@;
                if !c.is_zero() {
                    simd.axpy_within(rp, p * n, c.neg(), i * n, n);
                }
                proof {
                    assert forall|r: int, t: int| 0 <= r < m && 0 <= t < n implies #[trigger] rp@[offset(
                        Layout::RowMajor,
                        n as int,
                        r,
                        t,
                    )] == if r == i {
                        elim_chain(
                            trans,
                            a,
                            bwd_solve(trans, a, diag, rm_col(s, m as nat, n as nat, t), k as nat),
                            r,
                            i + 1,
                            p + 1,
                        )
                    } else {
                        bwd_solve(trans, a, diag, rm_col(s, m as nat, n as nat, t), k as nat)[r]
                    } by {
                        let q = offset(Layout::RowMajor, n as int, r, t);
                        assert(before[offset(Layout::RowMajor, n as int, p as int, t)] == bwd_solve(
                            trans,
                            a,
                            diag,
                            rm_col(s, m as nat, n as nat, t),
                            k as nat,
                        )[p as int]);
                        if r == i {
                            assert(q == i * n + t);
                            assert(p * n + q - i * n == offset(Layout::RowMajor, n as int, p as int, t));
                        } else {
                            assert(r * n + t < i * n || r * n + t >= i * n + n) by (nonlinear_arith)
                                requires
                                    r != i,
                                    0 <= t < n,
                            ;
                        }
                    }
                }
                p += 1;
            }
            let d = a.get(i, i);
            proof {
                assert(i * n + n <= m * n) by (nonlinear_arith)
                    requires
                        i < m,
                ;
            }
            unscale_row(rp, i, n, diag, d);
            proof {
                assert forall|r: int, t: int| 0 <= r < m && 0 <= t < n implies #[trigger] rp@[offset(
                    Layout::RowMajor,
                    n as int,
                    r,
                    t,
                )] == bwd_solve(trans, a, diag, rm_col(s, m as nat, n as nat, t), (k + 1) as nat)[r] by {
                    assert(op_at(trans, a, i as int, i as int) == a.at(i as int, i as int));
                    if r != i {
                        assert(r * n + t < i * n || r * n + t >= i * n + n) by (nonlinear_arith)
                            requires
                                r != i,
                                0 <= t < n,
                        ;
                    }
                }
            }
            k += 1;
        }
        proof {
            assert forall|r: int, t: int| 0 <= r < m && 0 <= t < n implies #[trigger] rp@[offset(
                Layout::RowMajor,
                n as int,
                r,
                t,
            )] == tri_solve(
                trans,
                a,
                diag,
                lower,
                rhs_col(alpha, r0, Layout::RowMajor, n as int, m as nat, t),
            )[r] by {
                assert(rm_col(s, m as nat, n as nat, t) == rhs_col(alpha, r0, Layout::RowMajor, n as int, m as nat, t));
            }
        }
    }
}

/// Entry `(r, c)` of the solution `X` of `op(A)·X = α·B` (`Side::Left`) or `X·op(A) = α·B`
/// (`Side::Right`) over the old `B` held in `s` with this geometry. A right-side solve is the
/// left-side solve of `op(A)ᵀ·Xᵀ = α·Bᵀ`, so row `r` of `B` is its right-hand side.
pub open spec fn trsm_entry<T: FloatScalar>(
    side: Side,
    uplo: Uplo,
    trans: Trans,
    diag: Diag,
    alpha: T,
    a: Mat<T>,
    s: Seq<T>,
    layout: Layout,
    stride: nat,
    rows: nat,
    cols: nat,
    r: int,
    c: int,
) -> T {
    match side {
        Side::Left => tri_solve(
            trans,
            a,
            diag,
            op_lower(uplo, trans),
            rhs_col(alpha, s, layout, stride as int, rows, c),
        )[r],
        Side::Right => tri_solve(
            opposite(trans),
            a,
            diag,
            op_lower(uplo, opposite(trans)),
            rhs_col(alpha, s, flipped(layout), stride as int, cols, r),
        )[c],
    }
}

/// Left-side solve: pack `B` row-major, substitute, write the solution back over `B`.
#[verifier::loop_isolation(false)]
fn solve_left<T: FloatScalar>(
    uplo: Uplo,
    trans: Trans,
    diag: Diag,
    alpha: T,
    a: Mat<T>,
    mut b: MatMut<T>,
)
    requires
        a.wf(),
        b.wf(),
        a.rows == b.rows,
        a.cols == b.rows,
    ensures
        final(b.data)@.len() == old(b.data)@.len(),
        forall|r: int, c: int|
            0 <= r < b.rows && 0 <= c < b.cols ==> #[trigger] final(b.data)@[b.loc(r, c)]
                == trsm_entry(
                Side::Left,
                uplo,
                trans,
                diag,
                alpha,
                a,
                old(b.data)@,
                b.layout,
                b.stride as nat,
                b.rows as nat,
                b.cols as nat,
                r,
                c,
            ),
        forall|q: int|
            0 <= q < old(b.data)@.len() && !in_region(
                b.layout,
                b.stride as nat,
                b.rows as nat,
                b.cols as nat,
                q,
            ) ==> #[trigger] final(b.data)@[q] == old(b.data)@[q],
{
    let ghost b_in = b;
    let ghost b0 = b.data@;
    let ghost fin = final(b.data)@;
    let m = b.rows;
    let n = b.cols;
    let blen = b.data.len();
    let lower = (uplo == Uplo::Lower) == (trans == Trans::N);
    proof {
        lemma_packed_slots(m as nat, n as nat);
        if m > 0 && n > 0 {
            lemma_fits_area(b.layout, b.stride as nat, m as nat, n as nat, blen as nat);
        } else {
            assert(m * n == 0) by (nonlinear_arith)
                requires
                    m == 0 || n == 0,
            ;
        }
    }
    let mut rp = filled(T::zero(), m * n);
    let mut i: usize = 0;
    while i < m
        invariant
            rp@.len() == m * n,
            b.data@ == b0,
            0 <= i <= m,
            forall|r: int, t: int|
                0 <= r < i && 0 <= t < n ==> #[trigger] rp@[offset(Layout::RowMajor, n as int, r, t)]
                    == b0[b_in.loc(r, t)],
        decreases m - i,
    {
        let mut j: usize = 0;
        while j < n
            invariant
                rp@.len() == m * n,
                b.data@ == b0,
                0 <= i < m,
                0 <= j <= n,
                forall|r: int, t: int|
                    0 <= r < m && 0 <= t < n && (r < i || (r == i && t < j)) ==> #[trigger] rp@[offset(
                        Layout::RowMajor,
                        n as int,
                        r,
                        t,
                    )] == b0[b_in.loc(r, t)],
            decreases n - j,
        {
            let v = b.get(i, j);
            let ghost before = rp@;
            assert(offset(Layout::RowMajor, n as int, i as int, j as int) < m * n);
            rp.set(i * n + j, v);
            proof {
                assert forall|r: int, t: int|
                    0 <= r < m && 0 <= t < n && (r < i || (r == i && t < j + 1)) implies #[trigger] rp@[offset(
                    Layout::RowMajor,
                    n as int,
                    r,
                    t,
                )] == b0[b_in.loc(r, t)] by {
                    if r != i || t != j {
                        if offset(Layout::RowMajor, n as int, r, t) == offset(
                            Layout::RowMajor,
                            n as int,
                            i as int,
                            j as int,
                        ) {
                            lemma_offset_injective(Layout::RowMajor, n as nat, m as nat, n as nat, r, t, i as int, j as int);
                        }
                        assert(rp@[offset(Layout::RowMajor, n as int, r, t)] == before[offset(
                            Layout::RowMajor,
                            n as int,
                            r,
                            t,
                        )]);
                    }
                }
            }
            j += 1;
        }
        i += 1;
    }
    let ghost rp0 = rp@;
    solve_run(Gang::new(ScalarBackend), a, alpha, diag, trans, lower, rp.as_mut_slice(), m, n);
    proof {
        assert forall|t: int| 0 <= t < n implies #[trigger] rhs_col(
            alpha,
            rp0,
            Layout::RowMajor,
            n as int,
            m as nat,
            t,
        ) == rhs_col(alpha, b0, b_in.layout, b_in.stride as int, m as nat, t) by {
            assert(rhs_col(alpha, rp0, Layout::RowMajor, n as int, m as nat, t) =~= rhs_col(
                alpha,
                b0,
                b_in.layout,
                b_in.stride as int,
                m as nat,
                t,
            ));
        }
    }
    let ghost sol = rp@;
    let mut i: usize = 0;
    while i < m
        invariant
            rp@ == sol,
            sol.len() == m * n,
            b.wf(),
            b.rows == m,
            b.cols == n,
            b.layout == b_in.layout,
            b.stride == b_in.stride,
            b.data@.len() == blen,
            b0.len() == blen,
            final(b.data)@ == fin,
            0 <= i <= m,
            forall|r: int, t: int|
                0 <= r < m && 0 <= t < n ==> #[trigger] b.data@[b_in.loc(r, t)] == if r < i {
                    sol[offset(Layout::RowMajor, n as int, r, t)]
                } else {
                    b0[b_in.loc(r, t)]
                },
            forall|q: int|
                0 <= q < blen && !in_region(b_in.layout, b_in.stride as nat, m as nat, n as nat, q)
                    ==> #[trigger] b.data@[q] == b0[q],
        decreases m - i,
    {
        let mut j: usize = 0;
        while j < n
            invariant
                rp@ == sol,
                sol.len() == m * n,
                b.wf(),
                b.rows == m,
                b.cols == n,
                b.layout == b_in.layout,
                b.stride == b_in.stride,
                b.data@.len() == blen,
                b0.len() == blen,
                final(b.data)@ == fin,
                0 <= i < m,
                0 <= j <= n,
                forall|r: int, t: int|
                    0 <= r < m && 0 <= t < n ==> #[trigger] b.data@[b_in.loc(r, t)] == if r < i || (r
                        == i && t < j) {
                        sol[offset(Layout::RowMajor, n as int, r, t)]
                    } else {
                        b0[b_in.loc(r, t)]
                    },
                forall|q: int|
                    0 <= q < blen && !in_region(b_in.layout, b_in.stride as nat, m as nat, n as nat, q)
                        ==> #[trigger] b.data@[q] == b0[q],
            decreases n - j,
        {
            let o = b.off(i, j);
            assert(offset(Layout::RowMajor, n as int, i as int, j as int) < m * n);
            let v = rp[i * n + j];
            let ghost before = b.data@;
            b.data[o] = v;
            proof {
                assert forall|r: int, t: int| 0 <= r < m && 0 <= t < n implies #[trigger] b.data@[b_in.loc(
                    r,
                    t,
                )] == if r < i || (r == i && t < j + 1) {
                    sol[offset(Layout::RowMajor, n as int, r, t)]
                } else {
                    b0[b_in.loc(r, t)]
                } by {
                    lemma_offset_in_bounds(b_in.layout, b_in.stride as nat, m as nat, n as nat, blen as nat, r, t);
                    if b_in.loc(r, t) == o {
                        lemma_offset_injective(b_in.layout, b_in.stride as nat, m as nat, n as nat, r, t, i as int, j as int);
                    } else {
                        assert(b.data@[b_in.loc(r, t)] == before[b_in.loc(r, t)]);
                    }
                }
                assert forall|q: int|
                    0 <= q < blen && !in_region(b_in.layout, b_in.stride as nat, m as nat, n as nat, q)
                        implies #[trigger] b.data@[q] == b0[q] by {
                    if q == o {
                        assert(offset(b_in.layout, b_in.stride as int, i as int, j as int) == q);
                    } else {
                        assert(b.data@[q] == before[q]);
                    }
                }
            }
            j += 1;
        }
        i += 1;
    }
}

/// Triangular solve `op(A)·X = α·B` (`Side::Left`) or `X·op(A) = α·B` (`Side::Right`), `X`
/// overwriting `B`. `uplo` picks `A`'s stored triangle; `Diag::Unit` takes the diagonal as an
/// implicit 1. A right-side solve is reduced to a left-side one on `Bᵀ` (the same buffer read with
/// swapped dimensions and the other layout).
pub fn trsm<T: FloatScalar>(side: Side, uplo: Uplo, trans: Trans, diag: Diag, alpha: T, a: Mat<T>, b: MatMut<T>)
    requires
        a.wf() || b.rows == 0 || b.cols == 0,
        b.wf() || b.rows == 0 || b.cols == 0,
        a.rows == (match side {
            Side::Left => b.rows,
            Side::Right => b.cols,
        }),
        a.cols == a.rows,
    ensures
        final(b.data)@.len() == old(b.data)@.len(),
        forall|r: int, c: int|
            0 <= r < b.rows && 0 <= c < b.cols ==> #[trigger] final(b.data)@[b.loc(r, c)]
                == trsm_entry(
                side,
                uplo,
                trans,
                diag,
                alpha,
                a,
                old(b.data)@,
                b.layout,
                b.stride as nat,
                b.rows as nat,
                b.cols as nat,
                r,
                c,
            ),
        forall|q: int|
            0 <= q < old(b.data)@.len() && !in_region(
                b.layout,
                b.stride as nat,
                b.rows as nat,
                b.cols as nat,
                q,
            ) ==> #[trigger] final(b.data)@[q] == old(b.data)@[q],
{
    let ghost b_in = b;
    if b.rows == 0 || b.cols == 0 {
        return ;
    }
    match side {
        Side::Left => solve_left(uplo, trans, diag, alpha, a, b),
        Side::Right => {
            proof {
                lemma_transposed_view(b.layout, b.stride as nat, b.rows as nat, b.cols as nat, b.data@.len());
            }
            let fl = flip_layout(b.layout);
            assert(fl == flipped(b.layout));
            let bt = MatMut::strided(b.data, b.cols, b.rows, b.stride, fl);
            let ghost bt0 = bt;
            let ft = flip(trans);
            assert(ft == opposite(trans));
            solve_left(uplo, ft, diag, alpha, a, bt);
            proof {
                assert forall|r: int, c: int|
                    0 <= r < b_in.rows && 0 <= c < b_in.cols implies #[trigger] final(b_in.data)@[b_in.loc(r, c)]
                    == trsm_entry(
                    side,
                    uplo,
                    trans,
                    diag,
                    alpha,
                    a,
                    b_in.data@,
                    b_in.layout,
                    b_in.stride as nat,
                    b_in.rows as nat,
                    b_in.cols as nat,
                    r,
                    c,
                ) by {
                    assert(b_in.loc(r, c) == bt0.loc(c, r));
                }
            }
        },
    }
}

/// Entry `(i, p)` of the symmetric matrix held in `s`, read from its stored `uplo` triangle
/// (`p ≤ i`).
pub open spec fn sym_at<T>(uplo: Uplo, s: Seq<T>, layout: Layout, stride: int, i: int, p: int) -> T {
    match uplo {
        Uplo::Lower => s[offset(layout, stride, i, p)],
        Uplo::Upper => s[offset(layout, stride, p, i)],
    }
}

/// The lower `n×n` work panel (row-major) `potrf` factors: the referenced triangle of `A`
/// mirrored into the lower half, zeros above the diagonal.
pub open spec fn chol_panel<T: Scalar>(uplo: Uplo, s: Seq<T>, layout: Layout, stride: int, n: nat) -> Seq<T> {
    Seq::new(
        n * n,
        |q: int|
            if q % (n as int) <= q / (n as int) {
                sym_at(uplo, s, layout, stride, q / (n as int), q % (n as int))
            } else {
                T::zero_spec()
            },
    )
}

proof fn lemma_chol_panel_at<T: Scalar>(
    uplo: Uplo,
    s: Seq<T>,
    layout: Layout,
    stride: int,
    n: nat,
    i: int,
    p: int,
)
    requires
        0 <= i < n,
        0 <= p < n,
    ensures
        chol_panel(uplo, s, layout, stride, n).len() == n * n,
        0 <= offset(Layout::RowMajor, n as int, i, p) < n * n,
        chol_panel(uplo, s, layout, stride, n)[offset(Layout::RowMajor, n as int, i, p)] == if p
            <= i {
            sym_at(uplo, s, layout, stride, i, p)
        } else {
            T::zero_spec()
        },
{
    lemma_packed_slots(n, n);
    vstd::arithmetic::div_mod::lemma_fundamental_div_mod_converse(i * n + p, n as int, i, p);
}

/// Row `i` of a row-major panel with rows of `n`, its first `j` entries.
pub open spec fn row_prefix<T>(s: Seq<T>, n: nat, i: int, j: int) -> Seq<T> {
    s.subrange(i * n, i * n + j)
}

/// The Crout pivot of column `j`: `L[j][j] − Σ_{p<j} L[j][p]²` as an `l`-lane gang forms it.
pub open spec fn pivot_of<T: FloatScalar>(s: Seq<T>, n: nat, j: int, l: nat) -> T {
    s[j * n + j].sub_spec(dot_spec(row_prefix(s, n, j, j), row_prefix(s, n, j, j), l))
}

/// Column `j` of the panel after the Crout step has written the diagonal `ljj` and rows
/// `j+1..i` below it: `L[r][j] = (A[r][j] − Σ_{p<j} L[r][p]·L[j][p]) · (1/ljj)`.
pub open spec fn col_update<T: FloatScalar>(s: Seq<T>, n: nat, j: int, ljj: T, l: nat, i: int) -> Seq<T>
    decreases i - j,
{
    if i <= j + 1 {
        s.update(j * n + j, ljj)
    } else {
        let r = i - 1;
        col_update(s, n, j, ljj, l, i - 1).update(
            r * n + j,
            s[r * n + j].sub_spec(dot_spec(row_prefix(s, n, r, j), row_prefix(s, n, j, j), l)).mul_spec(
                ljj.recip_spec(),
            ),
        )
    }
}

/// The panel after Crout steps `0..j`.
pub open spec fn chol<T: FloatScalar>(s0: Seq<T>, n: nat, j: nat, l: nat) -> Seq<T>
    decreases j,
{
    if j == 0 {
        s0
    } else {
        let s = chol(s0, n, (j - 1) as nat, l);
        col_update(s, n, j - 1, pivot_of(s, n, j - 1, l).sqrt_spec(), l, n as int)
    }
}

/// Step `j` finds a non-positive pivot (`d ≤ 0`; a NaN pivot is not caught).
pub open spec fn chol_breaks<T: FloatScalar>(s0: Seq<T>, n: nat, j: nat, l: nat) -> bool {
    pivot_of(chol(s0, n, j, l), n, j as int, l).le_spec(T::zero_spec())
}

proof fn lemma_col_update<T: FloatScalar>(s: Seq<T>, n: nat, j: int, ljj: T, l: nat, i: int)
    requires
        s.len() == n * n,
        0 <= j < n,
        j + 1 <= i <= n,
    ensures
        col_update(s, n, j, ljj, l, i).len() == n * n,
        forall|r: int, p: int|
            0 <= r < n && 0 <= p < n ==> #[trigger] col_update(s, n, j, ljj, l, i)[offset(
                Layout::RowMajor,
                n as int,
                r,
                p,
            )] == if p == j && r == j {
                ljj
            } else if p == j && j < r < i {
                s[r * n + j].sub_spec(dot_spec(row_prefix(s, n, r, j), row_prefix(s, n, j, j), l)).mul_spec(
                    ljj.recip_spec(),
                )
            } else {
                s[offset(Layout::RowMajor, n as int, r, p)]
            },
    decreases i - j,
{
    lemma_packed_slots(n, n);
    assert(0 <= offset(Layout::RowMajor, n as int, j, j) < n * n);
    if i > j + 1 {
        lemma_col_update(s, n, j, ljj, l, i - 1);
        assert(0 <= offset(Layout::RowMajor, n as int, i - 1, j) < n * n);
    }
    assert forall|r: int, p: int| 0 <= r < n && 0 <= p < n implies #[trigger] col_update(
        s,
        n,
        j,
        ljj,
        l,
        i,
    )[offset(Layout::RowMajor, n as int, r, p)] == if p == j && r == j {
        ljj
    } else if p == j && j < r < i {
        s[r * n + j].sub_spec(dot_spec(row_prefix(s, n, r, j), row_prefix(s, n, j, j), l)).mul_spec(
            ljj.recip_spec(),
        )
    } else {
        s[offset(Layout::RowMajor, n as int, r, p)]
    } by {
        if offset(Layout::RowMajor, n as int, r, p) == offset(Layout::RowMajor, n as int, j, j) {
            lemma_offset_injective(Layout::RowMajor, n, n, n, r, p, j, j);
        }
        if i > j + 1 && offset(Layout::RowMajor, n as int, r, p) == offset(
            Layout::RowMajor,
            n as int,
            i - 1,
            j,
        ) {
            lemma_offset_injective(Layout::RowMajor, n, n, n, r, p, i - 1, j);
        }
    }
}

/// Row prefixes (`p < j`) are untouched by Crout step `j`.
proof fn lemma_col_update_prefix<T: FloatScalar>(s: Seq<T>, n: nat, j: int, ljj: T, l: nat, i: int, r: int)
    requires
        s.len() == n * n,
        0 <= j < n,
        j + 1 <= i <= n,
        0 <= r < n,
    ensures
        row_prefix(col_update(s, n, j, ljj, l, i), n, r, j) == row_prefix(s, n, r, j),
        0 <= r * n,
        r * n + j <= n * n,
{
    lemma_col_update(s, n, j, ljj, l, i);
    lemma_packed_slots(n, n);
    lemma_line_bounds(Layout::RowMajor, n, n, n, n * n, r);
    let u = col_update(s, n, j, ljj, l, i);
    assert forall|p: int| 0 <= p < j implies #[trigger] row_prefix(u, n, r, j)[p] == row_prefix(
        s,
        n,
        r,
        j,
    )[p] by {
        assert(u[offset(Layout::RowMajor, n as int, r, p)] == s[offset(Layout::RowMajor, n as int, r, p)]);
    }
    assert(row_prefix(u, n, r, j) =~= row_prefix(s, n, r, j));
}

/// The Crout kernel on the lower work panel `lp` (`n×n` row-major): for each column, the pivot,
/// its square root on the diagonal, then the scaled column below. Stops at the first
/// non-positive pivot, returning its index.
#[verifier::loop_isolation(false)]
pub fn factor_run<T: FloatScalar, S: Backend<T>>(simd: Gang<S>, lp: &mut [T], n: usize) -> (res: Result<
    (),
    usize,
>)
    requires
        old(lp)@.len() == n * n,
    ensures
        final(lp)@.len() == old(lp)@.len(),
        match res {
            Ok(()) => (forall|j: nat| j < n ==> !#[trigger] chol_breaks(old(lp)@, n as nat, j, simd.backend.lanes_spec()))
                && final(lp)@ == chol(old(lp)@, n as nat, n as nat, simd.backend.lanes_spec()),
            Err(j) => j < n && chol_breaks(old(lp)@, n as nat, j as nat, simd.backend.lanes_spec()) && (
            forall|jj: nat| jj < j ==> !#[trigger] chol_breaks(old(lp)@, n as nat, jj, simd.backend.lanes_spec())),
        },
{
    let ghost l0 = lp@;
    let ghost lanes = simd.backend.lanes_spec();
    let len = lp.len();
    proof {
        lemma_packed_slots(n as nat, n as nat);
    }
    let mut j: usize = 0;
    while j < n
        invariant
            lp@.len() == n * n,
            len == n * n,
            0 <= j <= n,
            lp@ == chol(l0, n as nat, j as nat, lanes),
            forall|jj: nat| jj < j ==> !#[trigger] chol_breaks(l0, n as nat, jj, lanes),
        decreases n - j,
    {
        let ghost sj = lp@;
        proof {
            lemma_line_bounds(Layout::RowMajor, n as nat, n as nat, n as nat, (n * n) as nat, j as int);
            assert(j * n + j < n * n) by (nonlinear_arith)
                requires
                    j < n,
            ;
        }
        let rj = &lp[j * n..j * n + j];
        let dd = simd.dot(rj, rj);
        let d = lp[j * n + j].wsub(dd);
        assert(d == pivot_of(sj, n as nat, j as int, lanes));
        if d.le(T::zero()) {
            return Err(j);
        }
        let ljj = d.sqrt();
        lp[j * n + j] = ljj;
        let inv = ljj.recip();
        assert(lp@ == col_update(sj, n as nat, j as int, ljj, lanes, j + 1));
        let mut i: usize = j + 1;
        while i < n
            invariant
                lp@.len() == n * n,
                len == n * n,
                0 <= j < n,
                j + 1 <= i <= n,
                sj.len() == n * n,
                inv == ljj.recip_spec(),
                lp@ == col_update(sj, n as nat, j as int, ljj, lanes, i as int),
            decreases n - i,
        {
            proof {
                lemma_col_update_prefix(sj, n as nat, j as int, ljj, lanes, i as int, i as int);
                lemma_col_update_prefix(sj, n as nat, j as int, ljj, lanes, i as int, j as int);
                lemma_col_update(sj, n as nat, j as int, ljj, lanes, i as int);
                assert(lp@[offset(Layout::RowMajor, n as int, i as int, j as int)] == sj[offset(
                    Layout::RowMajor,
                    n as int,
                    i as int,
                    j as int,
                )]);
                assert(i * n + j < n * n) by (nonlinear_arith)
                    requires
                        i < n,
                        j < n,
                ;
            }
            let dot = simd.dot(&lp[i * n..i * n + j], &lp[j * n..j * n + j]);
            let sv = lp[i * n + j].wsub(dot);
            let v = sv.wmul(inv);
            lp[i * n + j] = v;
            i += 1;
        }
        proof {
            assert(lp@ == chol(l0, n as nat, (j + 1) as nat, lanes));
        }
        j += 1;
    }
    Ok(())
}

/// Where `potrf` writes panel entry `(r, c)`'s partner: the `A` cell `(r, c)` of the `uplo`
/// triangle takes panel entry `(r, c)` (`Lower`) or `(c, r)` (`Upper`).
pub open spec fn sym_index(uplo: Uplo, n: nat, r: int, c: int) -> int {
    match uplo {
        Uplo::Lower => offset(Layout::RowMajor, n as int, r, c),
        Uplo::Upper => offset(Layout::RowMajor, n as int, c, r),
    }
}

/// Cholesky factorization of a symmetric positive-definite `A`, in place: `A = L·Lᵀ`
/// (`Uplo::Lower`) or `A = Uᵀ·U` (`Uplo::Upper`), overwriting the `uplo` triangle with the
/// factor. Returns `Err(j)` if the leading minor of order `j+1` is not positive definite (a
/// non-positive pivot), leaving `A` untouched. The referenced triangle is packed into a
/// contiguous lower panel so the Crout dot products stay contiguous whatever `A`'s storage.
#[verifier::loop_isolation(false)]
pub fn potrf<T: FloatScalar>(uplo: Uplo, mut a: MatMut<T>) -> (res: Result<(), usize>)
    requires
        a.wf(),
        a.cols == a.rows,
    ensures
        final(a.data)@.len() == old(a.data)@.len(),
        match res {
            Ok(()) => {
                &&& forall|j: nat|
                    j < a.rows ==> !#[trigger] chol_breaks(
                        chol_panel(uplo, old(a.data)@, a.layout, a.stride as int, a.rows as nat),
                        a.rows as nat,
                        j,
                        1,
                    )
                &&& forall|r: int, c: int|
                    0 <= r < a.rows && 0 <= c < a.rows ==> #[trigger] final(a.data)@[a.loc(r, c)]
                        == if in_tri(uplo, r, c) {
                        chol(
                            chol_panel(uplo, old(a.data)@, a.layout, a.stride as int, a.rows as nat),
                            a.rows as nat,
                            a.rows as nat,
                            1,
                        )[sym_index(uplo, a.rows as nat, r, c)]
                    } else {
                        old(a.data)@[a.loc(r, c)]
                    }
                &&& forall|q: int|
                    0 <= q < old(a.data)@.len() && !in_region(
                        a.layout,
                        a.stride as nat,
                        a.rows as nat,
                        a.rows as nat,
                        q,
                    ) ==> #[trigger] final(a.data)@[q] == old(a.data)@[q]
            },
            Err(j) => {
                &&& j < a.rows
                &&& chol_breaks(
                    chol_panel(uplo, old(a.data)@, a.layout, a.stride as int, a.rows as nat),
                    a.rows as nat,
                    j as nat,
                    1,
                )
                &&& forall|jj: nat|
                    jj < j ==> !#[trigger] chol_breaks(
                        chol_panel(uplo, old(a.data)@, a.layout, a.stride as int, a.rows as nat),
                        a.rows as nat,
                        jj,
                        1,
                    )
                &&& final(a.data)@ == old(a.data)@
            },
        },
{
    let ghost a_in = a;
    let ghost a0 = a.data@;
    let ghost fin = final(a.data)@;
    let n = a.rows;
    let alen = a.data.len();
    if n == 0 {
        return Ok(());
    }
    let ghost panel = chol_panel(uplo, a0, a_in.layout, a_in.stride as int, n as nat);
    proof {
        lemma_packed_slots(n as nat, n as nat);
        lemma_fits_area(a.layout, a.stride as nat, n as nat, n as nat, alen as nat);
    }
    let mut lp = filled(T::zero(), n * n);
    let mut i: usize = 0;
    while i < n
        invariant
            lp@.len() == n * n,
            a.data@ == a0,
            0 <= i <= n,
            forall|r: int, p: int|
                0 <= r < n && 0 <= p < n && (r >= i || p > r) ==> #[trigger] lp@[offset(
                    Layout::RowMajor,
                    n as int,
                    r,
                    p,
                )] == T::zero_spec(),
            forall|r: int, p: int|
                0 <= r < i && 0 <= p <= r ==> #[trigger] lp@[offset(Layout::RowMajor, n as int, r, p)]
                    == sym_at(uplo, a0, a_in.layout, a_in.stride as int, r, p),
        decreases n - i,
    {
        let mut p: usize = 0;
        while p <= i
            invariant
                lp@.len() == n * n,
                a.data@ == a0,
                0 <= i < n,
                0 <= p <= i + 1,
                forall|r: int, pp: int|
                    0 <= r < n && 0 <= pp < n && (r > i || pp > r || (r == i && pp >= p)) ==> #[trigger] lp@[offset(
                        Layout::RowMajor,
                        n as int,
                        r,
                        pp,
                    )] == T::zero_spec(),
                forall|r: int, pp: int|
                    0 <= r <= i && 0 <= pp <= r && (r < i || pp < p) ==> #[trigger] lp@[offset(
                        Layout::RowMajor,
                        n as int,
                        r,
                        pp,
                    )] == sym_at(uplo, a0, a_in.layout, a_in.stride as int, r, pp),
            decreases i + 1 - p,
        {
            let v = match uplo {
                Uplo::Lower => a.get(i, p),
                Uplo::Upper => a.get(p, i),
            };
            let ghost before = lp@;
            assert(offset(Layout::RowMajor, n as int, i as int, p as int) < n * n);
            lp.set(i * n + p, v);
            proof {
                assert forall|r: int, pp: int| 0 <= r < n && 0 <= pp < n implies #[trigger] lp@[offset(
                    Layout::RowMajor,
                    n as int,
                    r,
                    pp,
                )] == if r == i && pp == p {
                    v
                } else {
                    before[offset(Layout::RowMajor, n as int, r, pp)]
                } by {
                    if offset(Layout::RowMajor, n as int, r, pp) == offset(
                        Layout::RowMajor,
                        n as int,
                        i as int,
                        p as int,
                    ) {
                        lemma_offset_injective(Layout::RowMajor, n as nat, n as nat, n as nat, r, pp, i as int, p as int);
                    }
                }
            }
            p += 1;
        }
        i += 1;
    }
    proof {
        assert forall|q: int| 0 <= q < n * n implies #[trigger] lp@[q] == panel[q] by {
            let r = q / (n as int);
            let pp = q % (n as int);
            vstd::arithmetic::div_mod::lemma_fundamental_div_mod(q, n as int);
            assert(0 <= r < n) by (nonlinear_arith)
                requires
                    0 <= q < n * n,
                    r == q / (n as int),
                    n > 0,
            ;
            assert(q == offset(Layout::RowMajor, n as int, r, pp)) by (nonlinear_arith)
                requires
                    q == (n as int) * r + pp,
            ;
            lemma_chol_panel_at(uplo, a0, a_in.layout, a_in.stride as int, n as nat, r, pp);
        }
        assert(lp@ =~= panel);
    }
    let res = factor_run(Gang::new(ScalarBackend), lp.as_mut_slice(), n);
    match res {
        Err(j) => {
            return Err(j);
        },
        Ok(()) => {},
    }
    let ghost fac = lp@;
    let mut i: usize = 0;
    while i < n
        invariant
            lp@ == fac,
            fac.len() == n * n,
            a.wf(),
            a.rows == n,
            a.cols == n,
            a.layout == a_in.layout,
            a.stride == a_in.stride,
            a.data@.len() == alen,
            a0.len() == alen,
            final(a.data)@ == fin,
            0 <= i <= n,
            forall|r: int, c: int|
                0 <= r < n && 0 <= c < n ==> #[trigger] a.data@[a_in.loc(r, c)] == if in_tri(uplo, r, c)
                    && sym_index(uplo, n as nat, r, c) < i * n {
                    fac[sym_index(uplo, n as nat, r, c)]
                } else {
                    a0[a_in.loc(r, c)]
                },
            forall|q: int|
                0 <= q < alen && !in_region(a_in.layout, a_in.stride as nat, n as nat, n as nat, q)
                    ==> #[trigger] a.data@[q] == a0[q],
        decreases n - i,
    {
        let mut p: usize = 0;
        while p <= i
            invariant
                lp@ == fac,
                fac.len() == n * n,
                a.wf(),
                a.rows == n,
                a.cols == n,
                a.layout == a_in.layout,
                a.stride == a_in.stride,
                a.data@.len() == alen,
                a0.len() == alen,
                final(a.data)@ == fin,
                0 <= i < n,
                0 <= p <= i + 1,
                forall|r: int, c: int|
                    0 <= r < n && 0 <= c < n ==> #[trigger] a.data@[a_in.loc(r, c)] == if in_tri(uplo, r, c)
                        && sym_index(uplo, n as nat, r, c) < i * n + p {
                        fac[sym_index(uplo, n as nat, r, c)]
                    } else {
                        a0[a_in.loc(r, c)]
                    },
                forall|q: int|
                    0 <= q < alen && !in_region(a_in.layout, a_in.stride as nat, n as nat, n as nat, q)
                        ==> #[trigger] a.data@[q] == a0[q],
            decreases i + 1 - p,
        {
            assert(offset(Layout::RowMajor, n as int, i as int, p as int) < n * n);
            let v = lp[i * n + p];
            let (r0, c0) = match uplo {
                Uplo::Lower => (i, p),
                Uplo::Upper => (p, i),
            };
            let o = a.off(r0, c0);
            let ghost before = a.data@;
            a.data[o] = v;
            proof {
                assert(sym_index(uplo, n as nat, r0 as int, c0 as int) == i * n + p);
                assert(in_tri(uplo, r0 as int, c0 as int));
                assert forall|r: int, c: int| 0 <= r < n && 0 <= c < n implies #[trigger] a.data@[a_in.loc(
                    r,
                    c,
                )] == if in_tri(uplo, r, c) && sym_index(uplo, n as nat, r, c) < i * n + p + 1 {
                    fac[sym_index(uplo, n as nat, r, c)]
                } else {
                    a0[a_in.loc(r, c)]
                } by {
                    lemma_offset_in_bounds(a_in.layout, a_in.stride as nat, n as nat, n as nat, alen as nat, r, c);
                    if a_in.loc(r, c) == o {
                        lemma_offset_injective(a_in.layout, a_in.stride as nat, n as nat, n as nat, r, c, r0 as int, c0 as int);
                    } else {
                        assert(a.data@[a_in.loc(r, c)] == before[a_in.loc(r, c)]);
                        if in_tri(uplo, r, c) && sym_index(uplo, n as nat, r, c) == i * n + p {
                            let (pr, pc) = match uplo {
                                Uplo::Lower => (r, c),
                                Uplo::Upper => (c, r),
                            };
                            lemma_offset_injective(Layout::RowMajor, n as nat, n as nat, n as nat, pr, pc, i as int, p as int);
                        }
                    }
                }
                assert forall|q: int|
                    0 <= q < alen && !in_region(a_in.layout, a_in.stride as nat, n as nat, n as nat, q)
                        implies #[trigger] a.data@[q] == a0[q] by {
                    if q == o {
                        assert(offset(a_in.layout, a_in.stride as int, r0 as int, c0 as int) == q);
                    } else {
                        assert(a.data@[q] == before[q]);
                    }
                }
            }
            p += 1;
        }
        proof {
            assert forall|r: int, c: int| 0 <= r < n && 0 <= c < n && in_tri(uplo, r, c) implies (
            #[trigger] sym_index(uplo, n as nat, r, c) < i * n + i + 1) == (sym_index(uplo, n as nat, r, c) < (i
                + 1) * n) by {
                let (pr, pc) = match uplo {
                    Uplo::Lower => (r, c),
                    Uplo::Upper => (c, r),
                };
                assert(pc <= pr);
                assert((pr * n + pc < i * n + i + 1) == (pr * n + pc < (i + 1) * n)) by (nonlinear_arith)
                    requires
                        0 <= pc <= pr,
                        pr < n,
                        0 <= i < n,
                        pc < n,
                ;
            }
        }
        i += 1;
    }
    proof {
        assert forall|r: int, c: int| 0 <= r < n && 0 <= c < n && in_tri(uplo, r, c) implies #[trigger] sym_index(
            uplo,
            n as nat,
            r,
            c,
        ) < n * n by {
            let (pr, pc) = match uplo {
                Uplo::Lower => (r, c),
                Uplo::Upper => (c, r),
            };
            assert(pr * n + pc < n * n) by (nonlinear_arith)
                requires
                    0 <= pr < n,
                    0 <= pc < n,
            ;
        }
    }
    Ok(())
}

/// `op(op'(M))` with the opposite flag reads the transpose: `op(opposite(t), m)[j][i] =
/// op(t, m)[i][j]`.
proof fn lemma_opposite_at<T>(t: Trans, m: Mat<T>, i: int, j: int)
    ensures
        op_at(opposite(t), m, j, i) == op_at(t, m, i, j),
{
}

proof fn lemma_transposed_acc<T: FloatScalar>(ta: Trans, a: Mat<T>, tb: Trans, b: Mat<T>, i: int, j: int, p: nat)
    requires
        forall|x: T, y: T, z: T| #[trigger] x.fma_spec(y, z) == y.fma_spec(x, z),
    ensures
        gemm_acc(opposite(tb), b, opposite(ta), a, j, i, p) == gemm_acc(ta, a, tb, b, i, j, p),
    decreases p,
{
    if p > 0 {
        lemma_transposed_acc(ta, a, tb, b, i, j, (p - 1) as nat);
        lemma_opposite_at(tb, b, (p - 1) as int, j);
        lemma_opposite_at(ta, a, i, (p - 1) as int);
        let x = op_at(tb, b, p - 1, j);
        let y = op_at(ta, a, i, p - 1);
        let z = gemm_acc(ta, a, tb, b, i, j, (p - 1) as nat);
        assert(x.fma_spec(y, z) == y.fma_spec(x, z));
    }
}

/// `gemm` writes the same entries into a column-major `C` as into a row-major one, whenever the
/// element's fused multiply-add is symmetric in its two factors (as IEEE `fma` is): the
/// column-major route through `Cᵀ = op(B)ᵀ·op(A)ᵀ` only swaps the factors of each product.
pub proof fn lemma_gemm_layout_agnostic<T: FloatScalar>(
    ta: Trans,
    a: Mat<T>,
    tb: Trans,
    b: Mat<T>,
    alpha: T,
    beta: T,
    cold: T,
    i: int,
    j: int,
    k: nat,
)
    requires
        forall|x: T, y: T, z: T| #[trigger] x.fma_spec(y, z) == y.fma_spec(x, z),
    ensures
        gemm_entry(Layout::ColMajor, ta, a, tb, b, alpha, beta, cold, i, j, k) == gemm_entry(
            Layout::RowMajor,
            ta,
            a,
            tb,
            b,
            alpha,
            beta,
            cold,
            i,
            j,
            k,
        ),
{
    lemma_transposed_acc(ta, a, tb, b, i, j, k);
}

/// The BLAS `β = 0` rule: with a zero `β` the value written does not depend on what the
/// output held (a NaN in an uninitialized output cannot leak into the result), for `gemv`'s
/// dot form, `gemm` and `syrk` alike.
pub proof fn lemma_beta_zero_ignores_output<T: FloatScalar>(alpha: T, beta: T, acc: T, y1: T, y2: T)
    requires
        beta.is_zero_spec(),
    ensures
        fma_scalar_spec(alpha, acc, beta, y1) == fma_scalar_spec(alpha, acc, beta, y2),
        out_cell(acc, alpha, beta, y1) == out_cell(acc, alpha, beta, y2),
{
}

/// The same rule for `gemv`'s column-accumulating form, where `y` is first scaled by `β`: a zero
/// `β` (that is not also the unit) clears `y` before anything is added.
pub proof fn lemma_gemv_beta_zero<T: FloatScalar>(
    trans: Trans,
    alpha: T,
    a: Mat<T>,
    x: Seq<T>,
    beta: T,
    y1: Seq<T>,
    y2: Seq<T>,
    i: int,
    l: nat,
)
    requires
        beta.is_zero_spec(),
        !beta.is_one_spec(),
    ensures
        gemv_spec(trans, alpha, a, x, beta, y1, i, l) == gemv_spec(trans, alpha, a, x, beta, y2, i, l),
{
}

/// The broadcast registers the GEMM kernel keeps across its loops.
pub open spec fn self_views<T: FloatScalar, S: Backend<T>>(
    s: S,
    zero: S::Vector,
    a_alpha: S::Vector,
    a_beta: S::Vector,
    alpha: T,
    beta: T,
) -> bool {
    &&& s.vview(zero) == Seq::new(s.lanes_spec(), |t: int| T::zero_spec())
    &&& s.vview(a_alpha) == Seq::new(s.lanes_spec(), |t: int| alpha)
    &&& s.vview(a_beta) == Seq::new(s.lanes_spec(), |t: int| beta)
}

} // verus!
