//! Fixed-arity bundles of structure-of-arrays columns: [`Cols`] owns `N` parallel planes and
//! hands out per-plane views. The planes are unpadded, so kernels over `Cols` views use masked
//! tails (`load_partial`) rather than sentinel padding.

use vstd::prelude::*;

use crate::scalar::{filled, Scalar};

verus! {

/// `N` parallel planes of one logical table, plane `c` at `.0[c]`.
#[derive(Debug, Clone)]
pub struct Cols<T, const N: usize>(pub Vec<Vec<T>>);

/// The shortest length among the first `k` planes, or `None` when `k = 0`.
pub open spec fn min_len<T>(planes: Seq<Vec<T>>, k: nat) -> Option<nat>
    decreases k,
{
    if k == 0 {
        None
    } else {
        let l = planes[k - 1]@.len();
        match min_len(planes, (k - 1) as nat) {
            None => Some(l),
            Some(m) => Some(if l < m {
                l
            } else {
                m
            }),
        }
    }
}

impl<T, const N: usize> Default for Cols<T, N> {
    /// `N` empty planes.
    fn default() -> (r: Self)
        ensures
            r.0@.len() == N,
            forall|c: int| 0 <= c < N ==> #[trigger] r.0@[c]@.len() == 0,
    {
        let mut planes: Vec<Vec<T>> = Vec::new();
        let mut c: usize = 0;
        while c < N
            invariant
                planes@.len() == c,
                c <= N,
                forall|p: int| 0 <= p < c ==> #[trigger] planes@[p]@.len() == 0,
            decreases N - c,
        {
            planes.push(Vec::new());
            c += 1;
        }
        Cols(planes)
    }
}

impl<T: Scalar, const N: usize> Cols<T, N> {
    /// Exactly `N` planes.
    pub open spec fn wf(&self) -> bool {
        self.0@.len() == N
    }

    /// Rows in the table: the length of the shortest plane, `0` with no planes.
    pub open spec fn len_spec(&self) -> nat {
        match min_len(self.0@, self.0@.len()) {
            None => 0,
            Some(m) => m,
        }
    }

    /// `N` zero-filled planes of `len` elements each.
    pub fn zeros(len: usize) -> (r: Self)
        ensures
            r.wf(),
            forall|c: int|
                0 <= c < N ==> #[trigger] r.0@[c]@ == Seq::new(len as nat, |i: int| T::zero_spec()),
    {
        let mut planes: Vec<Vec<T>> = Vec::new();
        let mut c: usize = 0;
        while c < N
            invariant
                planes@.len() == c,
                c <= N,
                forall|k: int|
                    0 <= k < c ==> #[trigger] planes@[k]@ == Seq::new(len as nat, |i: int| T::zero_spec()),
            decreases N - c,
        {
            let p = filled(T::zero(), len);
            planes.push(p);
            c += 1;
        }
        Cols(planes)
    }

    /// `N` planes of `len` elements, plane `c` filled with the value `f(c)`.
    pub fn filled<F: Fn(usize) -> T>(len: usize, f: F) -> (r: Self)
        requires
            forall|c: usize| c < N ==> #[trigger] f.requires((c,)),
        ensures
            r.wf(),
            forall|c: int|
                0 <= c < N ==> #[trigger] r.0@[c]@.len() == len && exists|v: T|
                    #[trigger] f.ensures((c as usize,), v) && r.0@[c]@ == Seq::new(len as nat, |i: int| v),
    {
        let mut planes: Vec<Vec<T>> = Vec::new();
        let mut c: usize = 0;
        while c < N
            invariant
                planes@.len() == c,
                c <= N,
                forall|c: usize| c < N ==> #[trigger] f.requires((c,)),
                forall|k: int|
                    0 <= k < c ==> #[trigger] planes@[k]@.len() == len && exists|v: T|
                        #[trigger] f.ensures((k as usize,), v) && planes@[k]@ == Seq::new(len as nat, |i: int| v),
            decreases N - c,
        {
            let v = f(c);
            let p = filled(v, len);
            let ghost prev = planes@;
            planes.push(p);
            proof {
                assert forall|k: int| 0 <= k < c + 1 implies #[trigger] planes@[k]@.len() == len
                    && exists|w: T|
                    #[trigger] f.ensures((k as usize,), w) && planes@[k]@ == Seq::new(len as nat, |i: int| w) by {
                    if k < c {
                        assert(prev[k]@.len() == len);
                        let w = choose|w: T|
                            #[trigger] f.ensures((k as usize,), w) && prev[k]@ == Seq::new(len as nat, |i: int| w);
                        assert(planes@[k] == prev[k]);
                        assert(f.ensures((k as usize,), w) && planes@[k]@ == Seq::new(len as nat, |i: int| w));
                    } else {
                        assert(f.ensures((k as usize,), v) && planes@[k]@ == Seq::new(len as nat, |i: int| v));
                    }
                }
            }
            c += 1;
        }
        Cols(planes)
    }

    /// Rows in the table: the length of the shortest plane (they are normally all equal).
    pub fn len(&self) -> (r: usize)
        ensures
            r == self.len_spec(),
    {
        let k = self.0.len();
        let mut m: Option<usize> = None;
        let mut c: usize = 0;
        while c < k
            invariant
                k == self.0@.len(),
                c <= k,
                match (m, min_len(self.0@, c as nat)) {
                    (None, None) => true,
                    (Some(a), Some(b)) => a == b,
                    _ => false,
                },
            decreases k - c,
        {
            let l = self.0[c].len();
            m = match m {
                None => Some(l),
                Some(a) => Some(
                    if l < a {
                        l
                    } else {
                        a
                    },
                ),
            };
            c += 1;
        }
        match m {
            None => 0,
            Some(a) => a,
        }
    }

    pub fn is_empty(&self) -> (r: bool)
        ensures
            r == (self.len_spec() == 0),
    {
        self.len() == 0
    }

    /// Shared views of all planes, in plane order.
    pub fn refs(&self) -> (r: Vec<&[T]>)
        ensures
            r@.len() == self.0@.len(),
            forall|c: int| 0 <= c < self.0@.len() ==> #[trigger] r@[c]@ == self.0@[c]@,
    {
        let k = self.0.len();
        let mut out: Vec<&[T]> = Vec::new();
        let mut c: usize = 0;
        while c < k
            invariant
                k == self.0@.len(),
                c <= k,
                out@.len() == c,
                forall|j: int| 0 <= j < c ==> #[trigger] out@[j]@ == self.0@[j]@,
            decreases k - c,
        {
            out.push(self.0[c].as_slice());
            c += 1;
        }
        out
    }

    /// Shared views of rows `start..end` of every plane.
    pub fn refs_range(&self, r: core::ops::Range<usize>) -> (v: Vec<&[T]>)
        requires
            r.start <= r.end,
            forall|c: int| 0 <= c < self.0@.len() ==> r.end <= #[trigger] self.0@[c]@.len(),
        ensures
            v@.len() == self.0@.len(),
            forall|c: int|
                0 <= c < self.0@.len() ==> #[trigger] v@[c]@ == self.0@[c]@.subrange(
                    r.start as int,
                    r.end as int,
                ),
    {
        let k = self.0.len();
        let mut out: Vec<&[T]> = Vec::new();
        let mut c: usize = 0;
        while c < k
            invariant
                k == self.0@.len(),
                c <= k,
                r.start <= r.end,
                forall|c: int| 0 <= c < self.0@.len() ==> r.end <= #[trigger] self.0@[c]@.len(),
                out@.len() == c,
                forall|j: int|
                    0 <= j < c ==> #[trigger] out@[j]@ == self.0@[j]@.subrange(
                        r.start as int,
                        r.end as int,
                    ),
            decreases k - c,
        {
            let plane = self.0[c].as_slice();
            out.push(&plane[r.start..r.end]);
            c += 1;
        }
        out
    }

    /// Mutable views of all planes, in plane order. What is written through view `c` is what
    /// plane `c` holds afterwards.
    pub fn muts(&mut self) -> (v: Vec<&mut [T]>)
        ensures
            v@.len() == old(self).0@.len(),
            final(self).0@.len() == old(self).0@.len(),
            forall|c: int| 0 <= c < v@.len() ==> #[trigger] v@[c]@ == old(self).0@[c]@,
            forall|c: int| 0 <= c < v@.len() ==> #[trigger] final(self).0@[c]@ == final(v@[c])@,
    {
        let ghost p0 = self.0@;
        let ghost fin = final(self).0@;
        let n = self.0.len();
        let mut out: Vec<&mut [T]> = Vec::new();
        let mut rest: &mut [Vec<T>] = self.0.as_mut_slice();
        let mut c: usize = 0;
        while c < n
            invariant
                n == p0.len(),
                0 <= c <= n,
                c <= fin.len(),
                out@.len() == c,
                rest@ == p0.subrange(c as int, n as int),
                forall|k: int| 0 <= k < c ==> #[trigger] out@[k]@ == p0[k]@,
                forall|k: int| 0 <= k < c ==> #[trigger] fin[k]@ == final(out@[k])@,
                fin == fin.subrange(0, c as int) + final(rest)@,
            decreases n - c,
        {
            let (first, tail) = rest.split_at_mut(1);
            let ghost ffirst = final(first)@;
            let ghost ftail = final(tail)@;
            let plane = first.first_mut().unwrap();
            let ghost fplane = *final(plane);
            out.push(plane.as_mut_slice());
            proof {
                assert(ffirst == seq![fplane]);
                assert(fin.subrange(0, c + 1) =~= fin.subrange(0, c as int) + seq![fplane]);
                assert(fin =~= fin.subrange(0, c + 1) + ftail);
                assert(fin[c as int] == fplane);
            }
            rest = tail;
            c += 1;
        }
        out
    }

    /// Mutable views of rows `start..end` of every plane, in plane order. Plane `c` afterwards is
    /// its old rows before `start`, what was written through view `c`, then its old rows from
    /// `end` on.
    pub fn muts_range(&mut self, r: core::ops::Range<usize>) -> (v: Vec<&mut [T]>)
        requires
            r.start <= r.end,
            forall|c: int| 0 <= c < old(self).0@.len() ==> r.end <= #[trigger] old(self).0@[c]@.len(),
        ensures
            v@.len() == old(self).0@.len(),
            final(self).0@.len() == old(self).0@.len(),
            forall|c: int|
                0 <= c < v@.len() ==> #[trigger] v@[c]@ == old(self).0@[c]@.subrange(
                    r.start as int,
                    r.end as int,
                ),
            forall|c: int|
                0 <= c < v@.len() ==> #[trigger] final(self).0@[c]@ == old(self).0@[c]@.subrange(
                    0,
                    r.start as int,
                ) + final(v@[c])@ + old(self).0@[c]@.subrange(r.end as int, old(self).0@[c]@.len() as int),
    {
        let start = r.start;
        let end = r.end;
        let ghost p0 = self.0@;
        let ghost fin = final(self).0@;
        let n = self.0.len();
        let mut out: Vec<&mut [T]> = Vec::new();
        let mut rest: &mut [Vec<T>] = self.0.as_mut_slice();
        let mut c: usize = 0;
        while c < n
            invariant
                n == p0.len(),
                start <= end,
                forall|k: int| 0 <= k < p0.len() ==> end <= #[trigger] p0[k]@.len(),
                0 <= c <= n,
                c <= fin.len(),
                out@.len() == c,
                rest@ == p0.subrange(c as int, n as int),
                forall|k: int| 0 <= k < c ==> #[trigger] out@[k]@ == p0[k]@.subrange(start as int, end as int),
                forall|k: int|
                    0 <= k < c ==> #[trigger] fin[k]@ == p0[k]@.subrange(0, start as int) + final(out@[k])@
                        + p0[k]@.subrange(end as int, p0[k]@.len() as int),
                fin == fin.subrange(0, c as int) + final(rest)@,
            decreases n - c,
        {
            let (first, tail) = rest.split_at_mut(1);
            let ghost ffirst = final(first)@;
            let ghost ftail = final(tail)@;
            let plane = first.first_mut().unwrap();
            let ghost fplane = *final(plane);
            let s = plane.as_mut_slice();
            let (head, _after) = s.split_at_mut(end);
            let (_before, mid) = head.split_at_mut(start);
            out.push(mid);
            proof {
                assert(ffirst == seq![fplane]);
                assert(fin.subrange(0, c + 1) =~= fin.subrange(0, c as int) + seq![fplane]);
                assert(fin =~= fin.subrange(0, c + 1) + ftail);
                assert(fin[c as int] == fplane);
            }
            rest = tail;
            c += 1;
        }
        out
    }
}

} // verus!
