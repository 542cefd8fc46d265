//! Operand packing for a blocked outer-product engine: `A` (`M×K` row-major, `M = pm·blk`) as
//! `pm` column-major `K×blk` panels, `B` (`K×N` row-major) as `pn` row-major `K×blk` panels, so
//! each contraction step reads one contiguous `blk` run of either operand.

use vstd::prelude::*;

use crate::scalar::Scalar;

verus! {

/// Slot of element `(j, m)` (contraction step `j`, panel row or column `m`) of panel `p` in a
/// buffer of `K×blk` panels.
pub open spec fn panel_slot(p: int, j: int, m: int, k: int, blk: int) -> int {
    p * k * blk + j * blk + m
}

/// In-range panel coordinates address slots below `count·k·blk`.
proof fn lemma_slot_bound(p: int, j: int, m: int, count: int, k: int, blk: int)
    requires
        0 <= p < count,
        0 <= j < k,
        0 <= m < blk,
    ensures
        0 <= panel_slot(p, j, m, k, blk) < count * k * blk,
{
    assert(0 <= p * k * blk) by (nonlinear_arith)
        requires
            0 <= p,
            0 <= k,
            0 <= blk,
    ;
    assert(0 <= j * blk) by (nonlinear_arith)
        requires
            0 <= j,
            0 <= blk,
    ;
    assert(j * blk + m < k * blk) by (nonlinear_arith)
        requires
            0 <= j < k,
            0 <= m < blk,
    ;
    assert(p * k * blk + k * blk <= count * k * blk) by (nonlinear_arith)
        requires
            0 <= p < count,
            0 <= k,
            0 <= blk,
    ;
}

/// Moving to the next contraction step at the end of a panel column, or to the next panel at
/// the end of a panel, continues the slot count by one.
proof fn lemma_slot_step(p: int, j: int, k: int, blk: int)
    ensures
        panel_slot(p, j, blk, k, blk) == panel_slot(p, j + 1, 0, k, blk),
        panel_slot(p, k, 0, k, blk) == panel_slot(p + 1, 0, 0, k, blk),
{
    assert(j * blk + blk == (j + 1) * blk) by (nonlinear_arith);
    assert(p * k * blk + k * blk == (p + 1) * k * blk) by (nonlinear_arith);
}

/// Distinct in-range panel coordinates address distinct slots.
proof fn lemma_slot_injective(p1: int, j1: int, m1: int, p2: int, j2: int, m2: int, k: int, blk: int)
    requires
        0 <= p1,
        0 <= p2,
        0 <= j1 < k,
        0 <= j2 < k,
        0 <= m1 < blk,
        0 <= m2 < blk,
        panel_slot(p1, j1, m1, k, blk) == panel_slot(p2, j2, m2, k, blk),
    ensures
        p1 == p2,
        j1 == j2,
        m1 == m2,
{
    let u1 = j1 * blk + m1;
    let u2 = j2 * blk + m2;
    assert(0 <= u1 < k * blk && 0 <= u2 < k * blk) by (nonlinear_arith)
        requires
            0 <= j1 < k,
            0 <= j2 < k,
            0 <= m1 < blk,
            0 <= m2 < blk,
            u1 == j1 * blk + m1,
            u2 == j2 * blk + m2,
    ;
    assert(p1 * k * blk == p1 * (k * blk) && p2 * k * blk == p2 * (k * blk)) by (nonlinear_arith);
    assert(p1 == p2) by (nonlinear_arith)
        requires
            p1 >= 0,
            p2 >= 0,
            0 <= u1 < k * blk,
            0 <= u2 < k * blk,
            p1 * (k * blk) + u1 == p2 * (k * blk) + u2,
    ;
    assert(j1 == j2) by (nonlinear_arith)
        requires
            0 <= m1 < blk,
            0 <= m2 < blk,
            j1 >= 0,
            j2 >= 0,
            j1 * blk + m1 == j2 * blk + m2,
    ;
}

/// Row `r`, column `c` of a row-major matrix with `cols` columns lies below `rows·cols`.
proof fn lemma_rm_bound(r: int, c: int, rows: int, cols: int)
    requires
        0 <= r < rows,
        0 <= c < cols,
    ensures
        0 <= r * cols + c < rows * cols,
        r * cols <= r * cols + c,
        r <= r * cols,
{
    assert(0 <= r * cols && r * cols + c < rows * cols && r <= r * cols) by (nonlinear_arith)
        requires
            0 <= r < rows,
            0 <= c < cols,
    ;
}

/// Pack `A` (`M×K` row-major, `M = pm·blk`) into `pm` column-major `K×blk` panels: element
/// `(j, m)` of panel `p` is `A[p·blk + m][j]`. Slots past the `pm·k·blk` panels are left as
/// they were.
#[verifier::loop_isolation(false)]
pub fn pack_a<T: Copy>(a: &[T], ap: &mut [T], pm: usize, k: usize, blk: usize)
    requires
        pm * blk * k <= a@.len(),
        pm * k * blk <= old(ap)@.len(),
    ensures
        final(ap)@.len() == old(ap)@.len(),
        forall|p: int, j: int, m: int|
            0 <= p < pm && 0 <= j < k && 0 <= m < blk ==> #[trigger] final(ap)@[panel_slot(
                p,
                j,
                m,
                k as int,
                blk as int,
            )] == a@[(p * blk + m) * k + j],
        forall|q: int| pm * k * blk <= q < old(ap)@.len() ==> #[trigger] final(ap)@[q] == old(ap)@[q],
{
    let ghost a0 = old(ap)@;
    let alen = a.len();
    let mut o: usize = 0;
    let mut p: usize = 0;
    while p < pm
        invariant
            p <= pm,
            ap@.len() == a0.len(),
            o == panel_slot(p as int, 0, 0, k as int, blk as int),
            forall|pp: int, jj: int, mm: int|
                0 <= pp < pm && 0 <= jj < k && 0 <= mm < blk && panel_slot(pp, jj, mm, k as int, blk as int)
                    < o ==> #[trigger] ap@[panel_slot(pp, jj, mm, k as int, blk as int)] == a@[(pp * blk
                    + mm) * k + jj],
            forall|q: int| o <= q < a0.len() ==> #[trigger] ap@[q] == a0[q],
        decreases pm - p,
    {
        let mut j: usize = 0;
        while j < k
            invariant
                p < pm,
                j <= k,
                ap@.len() == a0.len(),
                o == panel_slot(p as int, j as int, 0, k as int, blk as int),
                forall|pp: int, jj: int, mm: int|
                    0 <= pp < pm && 0 <= jj < k && 0 <= mm < blk && panel_slot(pp, jj, mm, k as int, blk as int)
                        < o ==> #[trigger] ap@[panel_slot(pp, jj, mm, k as int, blk as int)] == a@[(pp
                        * blk + mm) * k + jj],
                forall|q: int| o <= q < a0.len() ==> #[trigger] ap@[q] == a0[q],
            decreases k - j,
        {
            let mut m: usize = 0;
            while m < blk
                invariant
                    p < pm,
                    j < k,
                    m <= blk,
                    ap@.len() == a0.len(),
                    o == panel_slot(p as int, j as int, m as int, k as int, blk as int),
                    forall|pp: int, jj: int, mm: int|
                        0 <= pp < pm && 0 <= jj < k && 0 <= mm < blk && panel_slot(
                            pp,
                            jj,
                            mm,
                            k as int,
                            blk as int,
                        ) < o ==> #[trigger] ap@[panel_slot(pp, jj, mm, k as int, blk as int)] == a@[(pp
                            * blk + mm) * k + jj],
                    forall|q: int| o <= q < a0.len() ==> #[trigger] ap@[q] == a0[q],
                decreases blk - m,
            {
                proof {
                    lemma_slot_bound(p as int, j as int, m as int, pm as int, k as int, blk as int);
                    lemma_rm_bound(p as int, m as int, pm as int, blk as int);
                    lemma_rm_bound((p * blk + m) as int, j as int, (pm * blk) as int, k as int);
                }
                assert((p * blk + m) * k + j < alen);
                let src = (p * blk + m) * k + j;
                let v = a[src];
                ap[o] = v;
                proof {
                    assert forall|pp: int, jj: int, mm: int|
                        0 <= pp < pm && 0 <= jj < k && 0 <= mm < blk && panel_slot(
                            pp,
                            jj,
                            mm,
                            k as int,
                            blk as int,
                        ) < o + 1 implies #[trigger] ap@[panel_slot(pp, jj, mm, k as int, blk as int)] == a@[(
                        pp * blk + mm) * k + jj] by {
                        if panel_slot(pp, jj, mm, k as int, blk as int) == o {
                            lemma_slot_injective(pp, jj, mm, p as int, j as int, m as int, k as int, blk as int);
                        }
                    }
                }
                o = o + 1;
                m = m + 1;
            }
            proof {
                lemma_slot_step(p as int, j as int, k as int, blk as int);
            }
            j = j + 1;
        }
        proof {
            lemma_slot_step(p as int, j as int, k as int, blk as int);
        }
        p = p + 1;
    }
    proof {
        assert forall|q: int| pm * k * blk <= q < a0.len() implies #[trigger] ap@[q] == a0[q] by {
            assert(o == pm * k * blk) by (nonlinear_arith)
                requires
                    o == panel_slot(pm as int, 0, 0, k as int, blk as int),
            ;
        }
        assert forall|pp: int, jj: int, mm: int| 0 <= pp < pm && 0 <= jj < k && 0 <= mm < blk implies #[trigger] ap@[panel_slot(
            pp,
            jj,
            mm,
            k as int,
            blk as int,
        )] == a@[(pp * blk + mm) * k + jj] by {
            lemma_slot_bound(pp, jj, mm, pm as int, k as int, blk as int);
            assert(o == pm * k * blk) by (nonlinear_arith)
                requires
                    o == panel_slot(pm as int, 0, 0, k as int, blk as int),
            ;
        }
    }
}

/// Pack `B` (`K×N` row-major, `N ≥ pn·blk`) into `pn` row-major `K×blk` panels: element
/// `(j, c)` of panel `p` is `B[j][p·blk + c]`. Slots past the `pn·k·blk` panels are left as
/// they were.
#[verifier::loop_isolation(false)]
pub fn pack_b<T: Copy>(b: &[T], bp: &mut [T], pn: usize, k: usize, n: usize, blk: usize)
    requires
        pn * blk <= n,
        k * n <= b@.len(),
        pn * k * blk <= old(bp)@.len(),
    ensures
        final(bp)@.len() == old(bp)@.len(),
        forall|p: int, j: int, c: int|
            0 <= p < pn && 0 <= j < k && 0 <= c < blk ==> #[trigger] final(bp)@[panel_slot(
                p,
                j,
                c,
                k as int,
                blk as int,
            )] == b@[j * n + p * blk + c],
        forall|q: int| pn * k * blk <= q < old(bp)@.len() ==> #[trigger] final(bp)@[q] == old(bp)@[q],
{
    let ghost b0 = old(bp)@;
    let blen = b.len();
    let mut o: usize = 0;
    let mut p: usize = 0;
    while p < pn
        invariant
            p <= pn,
            bp@.len() == b0.len(),
            o == panel_slot(p as int, 0, 0, k as int, blk as int),
            forall|pp: int, jj: int, cc: int|
                0 <= pp < pn && 0 <= jj < k && 0 <= cc < blk && panel_slot(pp, jj, cc, k as int, blk as int)
                    < o ==> #[trigger] bp@[panel_slot(pp, jj, cc, k as int, blk as int)] == b@[jj * n + pp
                    * blk + cc],
            forall|q: int| o <= q < b0.len() ==> #[trigger] bp@[q] == b0[q],
        decreases pn - p,
    {
        let mut j: usize = 0;
        while j < k
            invariant
                p < pn,
                j <= k,
                bp@.len() == b0.len(),
                o == panel_slot(p as int, j as int, 0, k as int, blk as int),
                forall|pp: int, jj: int, cc: int|
                    0 <= pp < pn && 0 <= jj < k && 0 <= cc < blk && panel_slot(pp, jj, cc, k as int, blk as int)
                        < o ==> #[trigger] bp@[panel_slot(pp, jj, cc, k as int, blk as int)] == b@[jj * n
                        + pp * blk + cc],
                forall|q: int| o <= q < b0.len() ==> #[trigger] bp@[q] == b0[q],
            decreases k - j,
        {
            let mut c: usize = 0;
            while c < blk
                invariant
                    p < pn,
                    j < k,
                    c <= blk,
                    bp@.len() == b0.len(),
                    o == panel_slot(p as int, j as int, c as int, k as int, blk as int),
                    forall|pp: int, jj: int, cc: int|
                        0 <= pp < pn && 0 <= jj < k && 0 <= cc < blk && panel_slot(
                            pp,
                            jj,
                            cc,
                            k as int,
                            blk as int,
                        ) < o ==> #[trigger] bp@[panel_slot(pp, jj, cc, k as int, blk as int)] == b@[jj * n
                            + pp * blk + cc],
                    forall|q: int| o <= q < b0.len() ==> #[trigger] bp@[q] == b0[q],
                decreases blk - c,
            {
                proof {
                    lemma_slot_bound(p as int, j as int, c as int, pn as int, k as int, blk as int);
                    lemma_rm_bound(p as int, c as int, pn as int, blk as int);
                    lemma_rm_bound(j as int, (p * blk + c) as int, k as int, n as int);
                }
                let src = j * n + (p * blk + c);
                let v = b[src];
                bp[o] = v;
                proof {
                    assert forall|pp: int, jj: int, cc: int|
                        0 <= pp < pn && 0 <= jj < k && 0 <= cc < blk && panel_slot(
                            pp,
                            jj,
                            cc,
                            k as int,
                            blk as int,
                        ) < o + 1 implies #[trigger] bp@[panel_slot(pp, jj, cc, k as int, blk as int)] == b@[jj
                        * n + pp * blk + cc] by {
                        if panel_slot(pp, jj, cc, k as int, blk as int) == o {
                            lemma_slot_injective(pp, jj, cc, p as int, j as int, c as int, k as int, blk as int);
                        }
                    }
                }
                o = o + 1;
                c = c + 1;
            }
            proof {
                lemma_slot_step(p as int, j as int, k as int, blk as int);
            }
            j = j + 1;
        }
        proof {
            lemma_slot_step(p as int, j as int, k as int, blk as int);
        }
        p = p + 1;
    }
    proof {
        assert(o == pn * k * blk) by (nonlinear_arith)
            requires
                o == panel_slot(pn as int, 0, 0, k as int, blk as int),
        ;
        assert forall|pp: int, jj: int, cc: int| 0 <= pp < pn && 0 <= jj < k && 0 <= cc < blk implies #[trigger] bp@[panel_slot(
            pp,
            jj,
            cc,
            k as int,
            blk as int,
        )] == b@[jj * n + pp * blk + cc] by {
            lemma_slot_bound(pp, jj, cc, pn as int, k as int, blk as int);
        }
    }
}

/// Pair-rows a `K`-long contraction splits into: `⌈K/2⌉`.
pub open spec fn pair_count(k: nat) -> nat {
    (k + 1) / 2
}

/// Slot of neighbour `h` (0 or 1) of pair-row `pp`, at panel row or column `m`, of panel `p` in a
/// buffer of `⌈K/2⌉`-pair-row panels of `blk×2` elements.
pub open spec fn pair_slot(p: int, pp: int, m: int, h: int, pairs: int, blk: int) -> int {
    panel_slot(p, pp, 2 * m + h, pairs, 2 * blk)
}

/// `A[p·blk + m][2·pp + h]`, or zero past the last column (the odd final pair's high half).
pub open spec fn a_pair_value<T: Scalar>(a: Seq<T>, k: nat, blk: nat, p: int, pp: int, m: int, h: int) -> T {
    if 2 * pp + h < k {
        a[(p * blk + m) * k + 2 * pp + h]
    } else {
        T::zero_spec()
    }
}

/// `B[2·pp + h][p·blk + c]`, or zero past the last row (the odd final pair's high half).
pub open spec fn b_pair_value<T: Scalar>(b: Seq<T>, k: nat, n: nat, blk: nat, p: int, pp: int, c: int, h: int) -> T {
    if 2 * pp + h < k {
        b[(2 * pp + h) * n + p * blk + c]
    } else {
        T::zero_spec()
    }
}

/// Distinct in-range pair coordinates address distinct slots.
proof fn lemma_pair_slot_injective(
    p1: int,
    q1: int,
    m1: int,
    h1: int,
    p2: int,
    q2: int,
    m2: int,
    h2: int,
    pairs: int,
    blk: int,
)
    requires
        0 <= p1,
        0 <= p2,
        0 <= q1 < pairs,
        0 <= q2 < pairs,
        0 <= m1 < blk,
        0 <= m2 < blk,
        0 <= h1 < 2,
        0 <= h2 < 2,
        pair_slot(p1, q1, m1, h1, pairs, blk) == pair_slot(p2, q2, m2, h2, pairs, blk),
    ensures
        p1 == p2 && q1 == q2 && m1 == m2 && h1 == h2,
{
    lemma_slot_injective(p1, q1, 2 * m1 + h1, p2, q2, 2 * m2 + h2, pairs, 2 * blk);
}

/// In-range pair coordinates address slots below `count·pairs·2·blk`.
proof fn lemma_pair_slot_bound(p: int, pp: int, m: int, h: int, count: int, pairs: int, blk: int)
    requires
        0 <= p < count,
        0 <= pp < pairs,
        0 <= m < blk,
        0 <= h < 2,
    ensures
        0 <= pair_slot(p, pp, m, h, pairs, blk) < count * pairs * (2 * blk),
{
    lemma_slot_bound(p, pp, 2 * m + h, count, pairs, 2 * blk);
}

/// Pair-pack `A` (`M×K` row-major, `M = pm·blk`) for a widening outer-product engine: `pm`
/// column panels of `⌈K/2⌉` pair-rows, each `blk×2`; for pair-row `pp` and panel row `m` the
/// two contraction neighbours `A[p·blk + m][2pp]`, `A[p·blk + m][2pp + 1]` sit side by side,
/// and an odd `K` pads the last one with zero. Slots past the panels are left as they were.
#[verifier::loop_isolation(false)]
pub fn pack_a_pairs<T: Scalar>(a: &[T], ap: &mut [T], pm: usize, k: usize, blk: usize)
    requires
        pm * blk * k <= a@.len(),
        pm * pair_count(k as nat) * (2 * blk) <= old(ap)@.len(),
    ensures
        final(ap)@.len() == old(ap)@.len(),
        forall|p: int, pp: int, m: int, h: int|
            0 <= p < pm && 0 <= pp < pair_count(k as nat) && 0 <= m < blk && 0 <= h < 2
                ==> #[trigger] final(ap)@[pair_slot(p, pp, m, h, pair_count(k as nat) as int, blk as int)]
                == a_pair_value(a@, k as nat, blk as nat, p, pp, m, h),
        forall|q: int|
            pm * pair_count(k as nat) * (2 * blk) <= q < old(ap)@.len() ==> #[trigger] final(ap)@[q]
                == old(ap)@[q],
{
    let ghost a0 = old(ap)@;
    let alen = a.len();
    let pairs = k / 2 + k % 2;
    assert(pairs == pair_count(k as nat));
    let ghost np = pairs as int;
    let mut o: usize = 0;
    let mut p: usize = 0;
    while p < pm
        invariant
            p <= pm,
            ap@.len() == a0.len(),
            o == pair_slot(p as int, 0, 0, 0, np, blk as int),
            forall|p2: int, q2: int, m2: int, h2: int|
                0 <= p2 < pm && 0 <= q2 < np && 0 <= m2 < blk && 0 <= h2 < 2 && pair_slot(p2, q2, m2, h2, np, blk as int)
                    < o ==> #[trigger] ap@[pair_slot(p2, q2, m2, h2, np, blk as int)] == a_pair_value(
                    a@,
                    k as nat,
                    blk as nat,
                    p2,
                    q2,
                    m2,
                    h2,
                ),
            forall|q: int| o <= q < a0.len() ==> #[trigger] ap@[q] == a0[q],
        decreases pm - p,
    {
        let mut pp: usize = 0;
        while pp < pairs
            invariant
                p < pm,
                pp <= pairs,
                ap@.len() == a0.len(),
                o == pair_slot(p as int, pp as int, 0, 0, np, blk as int),
                forall|p2: int, q2: int, m2: int, h2: int|
                    0 <= p2 < pm && 0 <= q2 < np && 0 <= m2 < blk && 0 <= h2 < 2 && pair_slot(
                        p2,
                        q2,
                        m2,
                        h2,
                        np,
                        blk as int,
                    ) < o ==> #[trigger] ap@[pair_slot(p2, q2, m2, h2, np, blk as int)] == a_pair_value(
                        a@,
                        k as nat,
                        blk as nat,
                        p2,
                        q2,
                        m2,
                        h2,
                    ),
                forall|q: int| o <= q < a0.len() ==> #[trigger] ap@[q] == a0[q],
            decreases pairs - pp,
        {
            let c0 = 2 * pp;
            let mut m: usize = 0;
            while m < blk
                invariant
                    p < pm,
                    pp < pairs,
                    c0 == 2 * pp,
                    c0 < k,
                    m <= blk,
                    ap@.len() == a0.len(),
                    o == pair_slot(p as int, pp as int, m as int, 0, np, blk as int),
                    forall|p2: int, q2: int, m2: int, h2: int|
                        0 <= p2 < pm && 0 <= q2 < np && 0 <= m2 < blk && 0 <= h2 < 2 && pair_slot(
                            p2,
                            q2,
                            m2,
                            h2,
                            np,
                            blk as int,
                        ) < o ==> #[trigger] ap@[pair_slot(p2, q2, m2, h2, np, blk as int)]
                            == a_pair_value(a@, k as nat, blk as nat, p2, q2, m2, h2),
                    forall|q: int| o <= q < a0.len() ==> #[trigger] ap@[q] == a0[q],
                decreases blk - m,
            {
                proof {
                    lemma_pair_slot_bound(p as int, pp as int, m as int, 1, pm as int, np, blk as int);
                    lemma_rm_bound(p as int, m as int, pm as int, blk as int);
                    lemma_rm_bound((p * blk + m) as int, c0 as int, (pm * blk) as int, k as int);
                    if c0 + 1 < k {
                        lemma_rm_bound((p * blk + m) as int, c0 + 1, (pm * blk) as int, k as int);
                    }
                }
                assert((p * blk + m) * k + c0 < alen);
                let row = (p * blk + m) * k;
                let v0 = a[row + c0];
                ap[o] = v0;
                let v1 = if c0 + 1 < k {
                    a[row + c0 + 1]
                } else {
                    T::zero()
                };
                ap[o + 1] = v1;
                proof {
                    assert forall|p2: int, q2: int, m2: int, h2: int|
                        0 <= p2 < pm && 0 <= q2 < np && 0 <= m2 < blk && 0 <= h2 < 2 && pair_slot(
                            p2,
                            q2,
                            m2,
                            h2,
                            np,
                            blk as int,
                        ) < o + 2 implies #[trigger] ap@[pair_slot(p2, q2, m2, h2, np, blk as int)]
                        == a_pair_value(a@, k as nat, blk as nat, p2, q2, m2, h2) by {
                        let s2 = pair_slot(p2, q2, m2, h2, np, blk as int);
                        if s2 == o {
                            lemma_pair_slot_injective(p2, q2, m2, h2, p as int, pp as int, m as int, 0, np, blk as int);
                        } else if s2 == o + 1 {
                            lemma_pair_slot_injective(p2, q2, m2, h2, p as int, pp as int, m as int, 1, np, blk as int);
                        }
                    }
                }
                o = o + 2;
                m = m + 1;
            }
            proof {
                lemma_slot_step(p as int, pp as int, np, 2 * blk as int);
            }
            pp = pp + 1;
        }
        proof {
            lemma_slot_step(p as int, pp as int, np, 2 * blk as int);
        }
        p = p + 1;
    }
    proof {
        assert(o == pm * np * (2 * blk)) by (nonlinear_arith)
            requires
                o == pair_slot(pm as int, 0, 0, 0, np, blk as int),
        ;
        assert forall|p2: int, q2: int, m2: int, h2: int|
            0 <= p2 < pm && 0 <= q2 < np && 0 <= m2 < blk && 0 <= h2 < 2 implies #[trigger] ap@[pair_slot(
            p2,
            q2,
            m2,
            h2,
            np,
            blk as int,
        )] == a_pair_value(a@, k as nat, blk as nat, p2, q2, m2, h2) by {
            lemma_pair_slot_bound(p2, q2, m2, h2, pm as int, np, blk as int);
        }
    }
}

/// Pair-pack `B` (`K×N` row-major, `N ≥ pn·blk`), the companion of [`pack_a_pairs`]: `pn` row
/// panels of `⌈K/2⌉` pair-rows, each `blk×2`; for pair-row `pp` and panel column `c` the two
/// contraction neighbours `B[2pp][p·blk + c]`, `B[2pp + 1][p·blk + c]` sit side by side, and an
/// odd `K` pads the last one with zero. Slots past the panels are left as they were.
#[verifier::loop_isolation(false)]
pub fn pack_b_pairs<T: Scalar>(b: &[T], bp: &mut [T], pn: usize, k: usize, n: usize, blk: usize)
    requires
        pn * blk <= n,
        k * n <= b@.len(),
        pn * pair_count(k as nat) * (2 * blk) <= old(bp)@.len(),
    ensures
        final(bp)@.len() == old(bp)@.len(),
        forall|p: int, pp: int, m: int, h: int|
            0 <= p < pn && 0 <= pp < pair_count(k as nat) && 0 <= m < blk && 0 <= h < 2
                ==> #[trigger] final(bp)@[pair_slot(p, pp, m, h, pair_count(k as nat) as int, blk as int)]
                == b_pair_value(b@, k as nat, n as nat, blk as nat, p, pp, m, h),
        forall|q: int|
            pn * pair_count(k as nat) * (2 * blk) <= q < old(bp)@.len() ==> #[trigger] final(bp)@[q]
                == old(bp)@[q],
{
    let ghost a0 = old(bp)@;
    let blen = b.len();
    let pairs = k / 2 + k % 2;
    assert(pairs == pair_count(k as nat));
    let ghost np = pairs as int;
    let mut o: usize = 0;
    let mut p: usize = 0;
    while p < pn
        invariant
            p <= pn,
            bp@.len() == a0.len(),
            o == pair_slot(p as int, 0, 0, 0, np, blk as int),
            forall|p2: int, q2: int, m2: int, h2: int|
                0 <= p2 < pn && 0 <= q2 < np && 0 <= m2 < blk && 0 <= h2 < 2 && pair_slot(p2, q2, m2, h2, np, blk as int)
                    < o ==> #[trigger] bp@[pair_slot(p2, q2, m2, h2, np, blk as int)] == b_pair_value(
                    b@,
                    k as nat,
                    n as nat,
                    blk as nat,
                    p2,
                    q2,
                    m2,
                    h2,
                ),
            forall|q: int| o <= q < a0.len() ==> #[trigger] bp@[q] == a0[q],
        decreases pn - p,
    {
        let mut pp: usize = 0;
        while pp < pairs
            invariant
                p < pn,
                pp <= pairs,
                bp@.len() == a0.len(),
                o == pair_slot(p as int, pp as int, 0, 0, np, blk as int),
                forall|p2: int, q2: int, m2: int, h2: int|
                    0 <= p2 < pn && 0 <= q2 < np && 0 <= m2 < blk && 0 <= h2 < 2 && pair_slot(
                        p2,
                        q2,
                        m2,
                        h2,
                        np,
                        blk as int,
                    ) < o ==> #[trigger] bp@[pair_slot(p2, q2, m2, h2, np, blk as int)] == b_pair_value(
                        b@,
                        k as nat,
                        n as nat,
                        blk as nat,
                        p2,
                        q2,
                        m2,
                        h2,
                    ),
                forall|q: int| o <= q < a0.len() ==> #[trigger] bp@[q] == a0[q],
            decreases pairs - pp,
        {
            let c0 = 2 * pp;
            let mut m: usize = 0;
            while m < blk
                invariant
                    p < pn,
                    pp < pairs,
                    c0 == 2 * pp,
                    c0 < k,
                    m <= blk,
                    bp@.len() == a0.len(),
                    o == pair_slot(p as int, pp as int, m as int, 0, np, blk as int),
                    forall|p2: int, q2: int, m2: int, h2: int|
                        0 <= p2 < pn && 0 <= q2 < np && 0 <= m2 < blk && 0 <= h2 < 2 && pair_slot(
                            p2,
                            q2,
                            m2,
                            h2,
                            np,
                            blk as int,
                        ) < o ==> #[trigger] bp@[pair_slot(p2, q2, m2, h2, np, blk as int)]
                            == b_pair_value(b@, k as nat, n as nat, blk as nat, p2, q2, m2, h2),
                    forall|q: int| o <= q < a0.len() ==> #[trigger] bp@[q] == a0[q],
                decreases blk - m,
            {
                proof {
                    lemma_pair_slot_bound(p as int, pp as int, m as int, 1, pn as int, np, blk as int);
                    lemma_rm_bound(p as int, m as int, pn as int, blk as int);
                    lemma_rm_bound(c0 as int, (p * blk + m) as int, k as int, n as int);
                    if c0 + 1 < k {
                        lemma_rm_bound(c0 + 1, (p * blk + m) as int, k as int, n as int);
                    }
                }
                let col = p * blk + m;
                let v0 = b[c0 * n + col];
                bp[o] = v0;
                let v1 = if c0 + 1 < k {
                    b[(c0 + 1) * n + col]
                } else {
                    T::zero()
                };
                bp[o + 1] = v1;
                proof {
                    assert forall|p2: int, q2: int, m2: int, h2: int|
                        0 <= p2 < pn && 0 <= q2 < np && 0 <= m2 < blk && 0 <= h2 < 2 && pair_slot(
                            p2,
                            q2,
                            m2,
                            h2,
                            np,
                            blk as int,
                        ) < o + 2 implies #[trigger] bp@[pair_slot(p2, q2, m2, h2, np, blk as int)]
                        == b_pair_value(b@, k as nat, n as nat, blk as nat, p2, q2, m2, h2) by {
                        let s2 = pair_slot(p2, q2, m2, h2, np, blk as int);
                        if s2 == o {
                            lemma_pair_slot_injective(p2, q2, m2, h2, p as int, pp as int, m as int, 0, np, blk as int);
                        } else if s2 == o + 1 {
                            lemma_pair_slot_injective(p2, q2, m2, h2, p as int, pp as int, m as int, 1, np, blk as int);
                        }
                    }
                }
                o = o + 2;
                m = m + 1;
            }
            proof {
                lemma_slot_step(p as int, pp as int, np, 2 * blk as int);
            }
            pp = pp + 1;
        }
        proof {
            lemma_slot_step(p as int, pp as int, np, 2 * blk as int);
        }
        p = p + 1;
    }
    proof {
        assert(o == pn * np * (2 * blk)) by (nonlinear_arith)
            requires
                o == pair_slot(pn as int, 0, 0, 0, np, blk as int),
        ;
        assert forall|p2: int, q2: int, m2: int, h2: int|
            0 <= p2 < pn && 0 <= q2 < np && 0 <= m2 < blk && 0 <= h2 < 2 implies #[trigger] bp@[pair_slot(
            p2,
            q2,
            m2,
            h2,
            np,
            blk as int,
        )] == b_pair_value(b@, k as nat, n as nat, blk as nat, p2, q2, m2, h2) by {
            lemma_pair_slot_bound(p2, q2, m2, h2, pn as int, np, blk as int);
        }
    }
}

} // verus!
