//! Bookkeeping behind greedy unique-contributor decoding.
//!
//! The reconstruction keeps, per bin, the number of grid cells that still
//! contribute to it and the sum of those cells' raster indices.  When the
//! count is 1 the sum *is* the raster index of the single outstanding
//! contributor.  The functions here state both quantities over a resolution
//! history `res` (which cells have been committed), and the lemmas cover
//! what the decoder needs: the counts never go negative, a univocal bin
//! names a real unresolved cell, and committing a cell moves both arrays by
//! exactly its contribution.

use crate::geometry::{bin_count, raster_bin_index};
use crate::projection::Projection;
use vstd::prelude::*;

verus! {

/// The resolved set `res` is a fixpoint of greedy unique-contributor
/// decoding: no bin of any projection has exactly one unresolved
/// contributor left, so no further cell can be decoded.
pub open spec fn no_univocal_bin<T>(
    projs: Seq<Projection<T>>,
    res: Seq<bool>,
    h: int,
    w: int,
) -> bool {
    forall|n: int, i: int|
        0 <= n < projs.len() && 0 <= i < bin_count(projs[n].p_spec(), projs[n].q_spec(), h, w)
            ==> #[trigger] unres_count(
            res,
            projs[n].p_spec(),
            projs[n].q_spec(),
            h,
            w,
            i,
            (h * w) as nat,
        ) != 1
}

/// The resolution state after committing the cells of `trace` in order,
/// starting from `len` unresolved cells.
pub open spec fn commits_applied(trace: Seq<int>, len: nat) -> Seq<bool>
    decreases trace.len(),
{
    if trace.len() == 0 {
        Seq::new(len, |i: int| false)
    } else {
        commits_applied(trace.drop_last(), len).update(trace.last(), true)
    }
}

/// One greedy step: from resolution state `pre`, some bin has exactly one
/// unresolved contributor left and its coordinate sum names `cell`.
pub open spec fn greedy_step<T>(
    projs: Seq<Projection<T>>,
    h: int,
    w: int,
    pre: Seq<bool>,
    cell: int,
) -> bool {
    exists|n: int, i: int|
        {
            &&& 0 <= n < projs.len()
            &&& 0 <= i < bin_count(projs[n].p_spec(), projs[n].q_spec(), h, w)
            &&& #[trigger] unres_count(
                pre,
                projs[n].p_spec(),
                projs[n].q_spec(),
                h,
                w,
                i,
                (h * w) as nat,
            ) == 1
            &&& unres_sum(pre, projs[n].p_spec(), projs[n].q_spec(), h, w, i, (h * w) as nat)
                == cell
        }
}

/// The trace is one valid run of greedy unique-contributor decoding: each
/// step commits the cell that some bin's coordinate sum names while that
/// bin has exactly one unresolved contributor.
pub open spec fn greedy_trace<T>(
    projs: Seq<Projection<T>>,
    h: int,
    w: int,
    trace: Seq<int>,
) -> bool {
    forall|t: int|
        #![trigger trace.take(t)]
        0 <= t < trace.len() ==> greedy_step(
            projs,
            h,
            w,
            commits_applied(trace.take(t), (h * w) as nat),
            trace[t],
        )
}

/// Number of cells among the first `r` (raster order) that are unresolved
/// in `res` and fall into bin `i` of direction `(p, q)`.
pub open spec fn unres_count(
    res: Seq<bool>,
    p: int,
    q: int,
    h: int,
    w: int,
    i: int,
    r: nat,
) -> int
    decreases r,
{
    if r == 0 {
        0
    } else {
        unres_count(res, p, q, h, w, i, (r - 1) as nat) + if !res[r - 1] && raster_bin_index(
            p,
            q,
            h,
            w,
            r - 1,
        ) == i {
            1int
        } else {
            0int
        }
    }
}

/// Sum of the raster indices of those same cells.
pub open spec fn unres_sum(res: Seq<bool>, p: int, q: int, h: int, w: int, i: int, r: nat) -> int
    decreases r,
{
    if r == 0 {
        0
    } else {
        unres_sum(res, p, q, h, w, i, (r - 1) as nat) + if !res[r - 1] && raster_bin_index(
            p,
            q,
            h,
            w,
            r - 1,
        ) == i {
            r - 1
        } else {
            0int
        }
    }
}

/// Number of resolved cells among the first `r`.
pub open spec fn resolved_count(res: Seq<bool>, r: nat) -> int
    decreases r,
{
    if r == 0 {
        0
    } else {
        resolved_count(res, (r - 1) as nat) + if res[r - 1] {
            1int
        } else {
            0int
        }
    }
}

/// Counts stay within `[0, r]`, sums within `[0, r*r]`.
pub proof fn lemma_unres_bounds(res: Seq<bool>, p: int, q: int, h: int, w: int, i: int, r: nat)
    ensures
        0 <= unres_count(res, p, q, h, w, i, r) <= r,
        0 <= unres_sum(res, p, q, h, w, i, r) <= r * r,
    decreases r,
{
    if r == 0 {
    } else {
        lemma_unres_bounds(res, p, q, h, w, i, (r - 1) as nat);
        assert((r - 1) * (r - 1) + (r - 1) <= r * r) by (nonlinear_arith);
        assert(r * r >= 0) by (nonlinear_arith);
    }
}

/// There are never more resolved cells than cells.
pub proof fn lemma_resolved_bounds(res: Seq<bool>, r: nat)
    ensures
        0 <= resolved_count(res, r) <= r,
    decreases r,
{
    if r != 0 {
        lemma_resolved_bounds(res, (r - 1) as nat);
    }
}

/// An unresolved contributor of a bin keeps its count at 1 or more and its
/// index sum at least as large as the contributor's index.
pub proof fn lemma_contributor_lower(
    res: Seq<bool>,
    p: int,
    q: int,
    h: int,
    w: int,
    c: int,
    r: nat,
)
    requires
        0 <= c < r,
        !res[c],
    ensures
        unres_count(res, p, q, h, w, raster_bin_index(p, q, h, w, c), r) >= 1,
        unres_sum(res, p, q, h, w, raster_bin_index(p, q, h, w, c), r) >= c,
    decreases r,
{
    let i = raster_bin_index(p, q, h, w, c);
    lemma_unres_bounds(res, p, q, h, w, i, (r - 1) as nat);
    if c == r - 1 {
    } else {
        lemma_contributor_lower(res, p, q, h, w, c, (r - 1) as nat);
    }
}

/// A bin with no unresolved contributors has index sum zero.
pub proof fn lemma_empty_bin_sum(res: Seq<bool>, p: int, q: int, h: int, w: int, i: int, r: nat)
    requires
        unres_count(res, p, q, h, w, i, r) == 0,
    ensures
        unres_sum(res, p, q, h, w, i, r) == 0,
    decreases r,
{
    if r != 0 {
        lemma_unres_bounds(res, p, q, h, w, i, (r - 1) as nat);
        lemma_empty_bin_sum(res, p, q, h, w, i, (r - 1) as nat);
    }
}

/// A univocal bin's index sum names its single unresolved contributor: a
/// real cell, unresolved, lying in that bin.
pub proof fn lemma_univocal(res: Seq<bool>, p: int, q: int, h: int, w: int, i: int, r: nat)
    requires
        unres_count(res, p, q, h, w, i, r) == 1,
    ensures
        ({
            let c = unres_sum(res, p, q, h, w, i, r);
            &&& 0 <= c < r
            &&& !res[c]
            &&& raster_bin_index(p, q, h, w, c) == i
        }),
    decreases r,
{
    if r == 0 {
    } else {
        lemma_unres_bounds(res, p, q, h, w, i, (r - 1) as nat);
        if !res[r - 1] && raster_bin_index(p, q, h, w, r - 1) == i {
            lemma_empty_bin_sum(res, p, q, h, w, i, (r - 1) as nat);
        } else {
            lemma_univocal(res, p, q, h, w, i, (r - 1) as nat);
        }
    }
}

/// Committing cell `c` lowers the count of every bin it contributes to by
/// one and that bin's index sum by `c`; other bins do not move.
pub proof fn lemma_commit(
    res: Seq<bool>,
    p: int,
    q: int,
    h: int,
    w: int,
    i: int,
    c: int,
    r: nat,
)
    requires
        0 <= c < res.len(),
        !res[c],
        r <= res.len(),
    ensures
        unres_count(res.update(c, true), p, q, h, w, i, r) == unres_count(res, p, q, h, w, i, r)
            - if c < r && raster_bin_index(p, q, h, w, c) == i {
            1int
        } else {
            0int
        },
        unres_sum(res.update(c, true), p, q, h, w, i, r) == unres_sum(res, p, q, h, w, i, r)
            - if c < r && raster_bin_index(p, q, h, w, c) == i {
            c
        } else {
            0int
        },
    decreases r,
{
    if r != 0 {
        lemma_commit(res, p, q, h, w, i, c, (r - 1) as nat);
    }
}

/// Committing an unresolved cell raises the resolved count by one.
pub proof fn lemma_commit_resolved(res: Seq<bool>, c: int, r: nat)
    requires
        0 <= c < res.len(),
        !res[c],
        r <= res.len(),
    ensures
        resolved_count(res.update(c, true), r) == resolved_count(res, r) + if c < r {
            1int
        } else {
            0int
        },
    decreases r,
{
    if r != 0 {
        lemma_commit_resolved(res, c, (r - 1) as nat);
    }
}

} // verus!
