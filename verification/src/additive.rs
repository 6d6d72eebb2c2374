//! The additive accumulation variant of the transform: bins hold exact sums
//! of the cells on their discrete line, and reconstruction removes a
//! committed cell by subtraction.

use crate::decode::{
    commits_applied, greedy_step, greedy_trace, lemma_commit, lemma_commit_resolved,
    lemma_contributor_lower, lemma_resolved_bounds, lemma_univocal, lemma_unres_bounds,
    no_univocal_bin, resolved_count, unres_count, unres_sum,
};
use crate::element::zero_vec;
use crate::geometry::{
    bin_count, bin_count_exec, bin_index_exec, lemma_raster_decompose, lemma_raster_range,
    lemma_row_major_index, raster_bin_index,
};
use crate::projection::{Projection, Transform};
use crate::support::Support;
use std::collections::VecDeque;
use vstd::prelude::*;

verus! {

/// The exact sum bin `i` of direction `(p, q)` holds once the first `r`
/// cells of `grid` (row-major, `h` rows and `w` columns) are added in.
pub open spec fn sum_fold(grid: Seq<u64>, p: int, q: int, h: int, w: int, i: int, r: nat) -> int
    decreases r,
{
    if r == 0 {
        0
    } else {
        sum_fold(grid, p, q, h, w, i, (r - 1) as nat) + if raster_bin_index(p, q, h, w, r - 1)
            == i {
            grid[r - 1] as int
        } else {
            0int
        }
    }
}

/// Sum of the first `r` cells of the grid.
pub open spec fn grid_sum(grid: Seq<u64>, r: nat) -> int
    decreases r,
{
    if r == 0 {
        0
    } else {
        grid_sum(grid, (r - 1) as nat) + grid[r - 1] as int
    }
}

/// Every bin's partial sum is bounded by the grid's partial sum.
proof fn lemma_sum_fold_le_grid_sum(grid: Seq<u64>, p: int, q: int, h: int, w: int, i: int, r: nat)
    ensures
        0 <= sum_fold(grid, p, q, h, w, i, r) <= grid_sum(grid, r),
    decreases r,
{
    if r != 0 {
        lemma_sum_fold_le_grid_sum(grid, p, q, h, w, i, (r - 1) as nat);
    }
}

/// The grid's partial sums grow with the prefix taken.
proof fn lemma_grid_sum_mono(grid: Seq<u64>, m: nat, n: nat)
    requires
        m <= n,
    ensures
        grid_sum(grid, m) <= grid_sum(grid, n),
    decreases n,
{
    if m < n {
        lemma_grid_sum_mono(grid, m, (n - 1) as nat);
    }
}

/// The exact sum of the cells among the first `r` of `grid` that fall into
/// bin `i` and are still unresolved in `res`.
pub open spec fn sum_fold_unres(
    grid: Seq<u64>,
    res: Seq<bool>,
    p: int,
    q: int,
    h: int,
    w: int,
    i: int,
    r: nat,
) -> int
    decreases r,
{
    if r == 0 {
        0
    } else {
        sum_fold_unres(grid, res, p, q, h, w, i, (r - 1) as nat) + if !res[r - 1]
            && raster_bin_index(p, q, h, w, r - 1) == i {
            grid[r - 1] as int
        } else {
            0int
        }
    }
}

/// Every projection's bins are exactly the additive projections of the grid
/// `g`.
pub open spec fn consistent_with(projs: Seq<Projection<u64>>, g: Seq<u64>, h: int, w: int) -> bool {
    forall|n: int, i: int|
        0 <= n < projs.len() && 0 <= i < projs[n].bins_spec().len() ==> (
        #[trigger] projs[n].bins_spec()[i]) as int == sum_fold(
            g,
            projs[n].p_spec(),
            projs[n].q_spec(),
            h,
            w,
            i,
            (h * w) as nat,
        )
}

/// What one run of greedy unique-contributor decoding leaves behind,
/// summarized by the set `res` of cells it resolved: `res` was reached by
/// committing one univocal bin's cell at a time, it is a fixpoint (no bin
/// has exactly one outstanding contributor left, so decoding stopped only
/// when nothing more was univocal), cells off `res` keep their prior
/// values, and cells on `res` hold the values of any grid the bins are
/// consistent with.
pub open spec fn decode_outcome(
    projs: Seq<Projection<u64>>,
    before: Seq<u64>,
    after: Seq<u64>,
    h: int,
    w: int,
    res: Seq<bool>,
) -> bool {
    &&& res.len() == h * w
    &&& (exists|trace: Seq<int>|
        res == #[trigger] commits_applied(trace, (h * w) as nat) && greedy_trace(
            projs,
            h,
            w,
            trace,
        ))
    &&& no_univocal_bin(projs, res, h, w)
    &&& (forall|r: int| 0 <= r < res.len() && !(#[trigger] res[r]) ==> after[r] == before[r])
    &&& (forall|g: Seq<u64>|
        #![trigger consistent_with(projs, g, h, w)]
        g.len() == h * w && consistent_with(projs, g, h, w) ==> forall|r: int|
            0 <= r < res.len() && (#[trigger] res[r]) ==> after[r] == g[r])
}

/// A transform in which no bin starts out with exactly one contributor
/// gives greedy decoding no first step: any decode outcome for it leaves
/// every cell of the support exactly as it was.
pub proof fn lemma_no_univocal_start_unchanged(
    projs: Seq<Projection<u64>>,
    before: Seq<u64>,
    after: Seq<u64>,
    h: int,
    w: int,
    res: Seq<bool>,
)
    requires
        decode_outcome(projs, before, after, h, w, res),
        no_univocal_bin(projs, Seq::new((h * w) as nat, |i: int| false), h, w),
        0 <= h * w,
    ensures
        forall|r: int| 0 <= r < h * w ==> #[trigger] after[r] == before[r],
{
    let blank: Seq<bool> = Seq::new((h * w) as nat, |i: int| false);
    let trace: Seq<int> = choose|trace: Seq<int>|
        res == #[trigger] commits_applied(trace, (h * w) as nat) && greedy_trace(
            projs,
            h,
            w,
            trace,
        );
    if trace.len() > 0 {
        assert(trace.take(0) =~= Seq::<int>::empty());
        assert(commits_applied(trace.take(0), (h * w) as nat) =~= blank);
        assert(greedy_step(
            projs,
            h,
            w,
            commits_applied(trace.take(0), (h * w) as nat),
            trace[0],
        ));
        let (n, i): (int, int) = choose|n: int, i: int|
            {
                &&& 0 <= n < projs.len()
                &&& 0 <= i < bin_count(projs[n].p_spec(), projs[n].q_spec(), h, w)
                &&& #[trigger] unres_count(
                    blank,
                    projs[n].p_spec(),
                    projs[n].q_spec(),
                    h,
                    w,
                    i,
                    (h * w) as nat,
                ) == 1
                &&& unres_sum(blank, projs[n].p_spec(), projs[n].q_spec(), h, w, i, (h * w) as nat)
                    == trace[0]
            };
        assert(false);
    }
    assert(res =~= blank);
    assert forall|r: int| 0 <= r < h * w implies #[trigger] after[r] == before[r] by {
        assert(!res[r]);
    }
}

/// An unresolved sum is never negative.
proof fn lemma_sum_unres_nonneg(
    grid: Seq<u64>,
    res: Seq<bool>,
    p: int,
    q: int,
    h: int,
    w: int,
    i: int,
    r: nat,
)
    ensures
        0 <= sum_fold_unres(grid, res, p, q, h, w, i, r),
    decreases r,
{
    if r != 0 {
        lemma_sum_unres_nonneg(grid, res, p, q, h, w, i, (r - 1) as nat);
    }
}

/// With nothing resolved, the unresolved sum is the full bin sum.
proof fn lemma_sum_unres_all(
    grid: Seq<u64>,
    res: Seq<bool>,
    p: int,
    q: int,
    h: int,
    w: int,
    i: int,
    r: nat,
)
    requires
        forall|j: int| 0 <= j < r ==> !(#[trigger] res[j]),
    ensures
        sum_fold_unres(grid, res, p, q, h, w, i, r) == sum_fold(grid, p, q, h, w, i, r),
    decreases r,
{
    if r != 0 {
        lemma_sum_unres_all(grid, res, p, q, h, w, i, (r - 1) as nat);
    }
}

/// A bin with no unresolved contributors sums to zero.
proof fn lemma_sum_unres_empty(
    grid: Seq<u64>,
    res: Seq<bool>,
    p: int,
    q: int,
    h: int,
    w: int,
    i: int,
    r: nat,
)
    requires
        unres_count(res, p, q, h, w, i, r) == 0,
    ensures
        sum_fold_unres(grid, res, p, q, h, w, i, r) == 0,
    decreases r,
{
    if r != 0 {
        lemma_unres_bounds(res, p, q, h, w, i, (r - 1) as nat);
        lemma_sum_unres_empty(grid, res, p, q, h, w, i, (r - 1) as nat);
    }
}

/// A univocal bin sums to exactly its single unresolved contributor's
/// value, the cell its index sum names.
proof fn lemma_sum_unres_univocal(
    grid: Seq<u64>,
    res: Seq<bool>,
    p: int,
    q: int,
    h: int,
    w: int,
    i: int,
    r: nat,
)
    requires
        unres_count(res, p, q, h, w, i, r) == 1,
    ensures
        sum_fold_unres(grid, res, p, q, h, w, i, r) == grid[unres_sum(res, p, q, h, w, i, r)],
    decreases r,
{
    if r != 0 {
        lemma_unres_bounds(res, p, q, h, w, i, (r - 1) as nat);
        if !res[r - 1] && raster_bin_index(p, q, h, w, r - 1) == i {
            lemma_sum_unres_empty(grid, res, p, q, h, w, i, (r - 1) as nat);
            crate::decode::lemma_empty_bin_sum(res, p, q, h, w, i, (r - 1) as nat);
        } else {
            lemma_sum_unres_univocal(grid, res, p, q, h, w, i, (r - 1) as nat);
        }
    }
}

/// Resolving cell `c` removes exactly its value from the sum of the one bin
/// it contributes to; every other bin's sum is unchanged.
proof fn lemma_sum_unres_commit(
    grid: Seq<u64>,
    res: Seq<bool>,
    p: int,
    q: int,
    h: int,
    w: int,
    i: int,
    c: int,
    r: nat,
)
    requires
        0 <= c < res.len(),
        !res[c],
        r <= res.len(),
    ensures
        c < r && raster_bin_index(p, q, h, w, c) == i ==> sum_fold_unres(
            grid,
            res,
            p,
            q,
            h,
            w,
            i,
            r,
        ) == sum_fold_unres(grid, res.update(c, true), p, q, h, w, i, r) + grid[c],
        !(c < r && raster_bin_index(p, q, h, w, c) == i) ==> sum_fold_unres(
            grid,
            res,
            p,
            q,
            h,
            w,
            i,
            r,
        ) == sum_fold_unres(grid, res.update(c, true), p, q, h, w, i, r),
    decreases r,
{
    if r != 0 {
        lemma_sum_unres_commit(grid, res, p, q, h, w, i, c, (r - 1) as nat);
    }
}

/// Replace every projection's bins with the direction's additive projection
/// of the populated support: bin `i` becomes exactly the sum of every grid
/// cell on the discrete line that maps to `i`, and the bin count is exactly
/// `|p|*(h-1) + q*(w-1) + 1`.  The grid's total sum must fit the element
/// width, which keeps every partial bin sum from overflowing.
pub fn direct<S: Support<u64>>(support: S, projections: &mut Transform<u64>)
    requires
        support.wf(),
        1 <= support.spec_height(),
        1 <= support.spec_width(),
        grid_sum(
            support.contents(),
            (support.spec_height() * support.spec_width()) as nat,
        ) <= u64::MAX,
        forall|j: int|
            0 <= j < old(projections)@.len() ==> (#[trigger] old(projections)@[j]).wf(),
        forall|j: int|
            0 <= j < old(projections)@.len() ==> bin_count(
                (#[trigger] old(projections)@[j]).p_spec(),
                old(projections)@[j].q_spec(),
                support.spec_height(),
                support.spec_width(),
            ) <= usize::MAX,
    ensures
        final(projections)@.len() == old(projections)@.len(),
        forall|j: int|
            0 <= j < old(projections)@.len() ==> {
                &&& (#[trigger] final(projections)@[j]).wf()
                &&& final(projections)@[j].p_spec() == old(projections)@[j].p_spec()
                &&& final(projections)@[j].q_spec() == old(projections)@[j].q_spec()
                &&& final(projections)@[j].bins_spec().len() == bin_count(
                    old(projections)@[j].p_spec(),
                    old(projections)@[j].q_spec(),
                    support.spec_height(),
                    support.spec_width(),
                )
            },
        forall|j: int, i: int|
            0 <= j < old(projections)@.len() && 0 <= i < final(projections)@[j].bins_spec().len()
                ==> #[trigger] final(projections)@[j].bins_spec()[i] == sum_fold(
                support.contents(),
                old(projections)@[j].p_spec(),
                old(projections)@[j].q_spec(),
                support.spec_height(),
                support.spec_width(),
                i,
                (support.spec_height() * support.spec_width()) as nat,
            ),
{
    let h = support.height();
    let w = support.width();
    proof {
        support.wf_dims();
    }
    let ghost projs0: Seq<Projection<u64>> = projections@;
    let ghost grid: Seq<u64> = support.contents();
    let ghost total_sum: int = grid_sum(grid, (h * w) as nat);
    let n_projs = projections.len();
    let mut np: usize = 0;
    while np < n_projs
        invariant
            support.wf(),
            1 <= h == support.spec_height(),
            1 <= w == support.spec_width(),
            grid == support.contents(),
            grid.len() == h * w,
            h * w <= usize::MAX,
            total_sum == grid_sum(grid, (h * w) as nat),
            total_sum <= u64::MAX,
            n_projs == projs0.len(),
            projections@.len() == projs0.len(),
            np <= n_projs,
            forall|j: int| 0 <= j < n_projs ==> (#[trigger] projs0[j]).wf(),
            forall|j: int|
                0 <= j < n_projs ==> bin_count(
                    (#[trigger] projs0[j]).p_spec(),
                    projs0[j].q_spec(),
                    h as int,
                    w as int,
                ) <= usize::MAX,
            forall|j: int| np <= j < n_projs ==> projections@[j] == projs0[j],
            forall|j: int|
                0 <= j < np ==> {
                    &&& (#[trigger] projections@[j]).wf()
                    &&& projections@[j].p_spec() == projs0[j].p_spec()
                    &&& projections@[j].q_spec() == projs0[j].q_spec()
                    &&& projections@[j].bins_spec().len() == bin_count(
                        projs0[j].p_spec(),
                        projs0[j].q_spec(),
                        h as int,
                        w as int,
                    )
                },
            forall|j: int, i: int|
                0 <= j < np && 0 <= i < projections@[j].bins_spec().len()
                    ==> #[trigger] projections@[j].bins_spec()[i] == sum_fold(
                    grid,
                    projs0[j].p_spec(),
                    projs0[j].q_spec(),
                    h as int,
                    w as int,
                    i,
                    (h * w) as nat,
                ),
        decreases n_projs - np,
    {
        let pr = &projections[np];
        let pv: i16 = pr.p();
        let qv: u16 = pr.q();
        proof {
            assert(projections@[np as int] == projs0[np as int]);
            assert(projs0[np as int].wf());
            assert(bin_count(pv as int, qv as int, h as int, w as int) <= usize::MAX);
        }
        let size = bin_count_exec(pv, qv, h, w);
        let mut bins: Vec<u64> = zero_vec::<u64>(size);
        let mut l: usize = 0;
        proof {
            assert forall|i: int| 0 <= i < size implies bins@[i] == sum_fold(
                grid,
                pv as int,
                qv as int,
                h as int,
                w as int,
                i,
                0,
            ) by {}
            assert(0int * w == 0) by (nonlinear_arith);
        }
        while l < h
            invariant
                support.wf(),
                1 <= h == support.spec_height(),
                1 <= w == support.spec_width(),
                grid == support.contents(),
                grid.len() == h * w,
                h * w <= usize::MAX,
                total_sum == grid_sum(grid, (h * w) as nat),
                total_sum <= u64::MAX,
                l <= h,
                size == bin_count(pv as int, qv as int, h as int, w as int),
                size <= usize::MAX,
                bins@.len() == size,
                forall|i: int|
                    0 <= i < size ==> #[trigger] bins@[i] == sum_fold(
                        grid,
                        pv as int,
                        qv as int,
                        h as int,
                        w as int,
                        i,
                        (l * w) as nat,
                    ),
            decreases h - l,
        {
            let mut k: usize = 0;
            proof {
                lemma_row_major_index(l as int, 0, h as int, w as int);
            }
            while k < w
                invariant
                    support.wf(),
                    1 <= h == support.spec_height(),
                    1 <= w == support.spec_width(),
                    grid == support.contents(),
                    grid.len() == h * w,
                    h * w <= usize::MAX,
                    total_sum == grid_sum(grid, (h * w) as nat),
                    total_sum <= u64::MAX,
                    l < h,
                    k <= w,
                    l * w + k <= h * w,
                        size == bin_count(pv as int, qv as int, h as int, w as int),
                    size <= usize::MAX,
                    bins@.len() == size,
                    forall|i: int|
                        0 <= i < size ==> #[trigger] bins@[i] == sum_fold(
                            grid,
                            pv as int,
                            qv as int,
                            h as int,
                            w as int,
                            i,
                            (l * w + k) as nat,
                        ),
                decreases w - k,
            {
                proof {
                    lemma_row_major_index(l as int, k as int, h as int, w as int);
                }
                let idx = bin_index_exec(pv, qv, h, w, l, k);
                let cell: u64 = *support.get_data(l, k);
                let ghost before: Seq<u64> = bins@;
                let ghost r: int = l * w + k;
                proof {
                    lemma_raster_decompose(l as int, k as int, w as int);
                    assert(raster_bin_index(pv as int, qv as int, h as int, w as int, r) == idx);
                    assert(grid[r] == cell);
                    lemma_sum_fold_le_grid_sum(grid, pv as int, qv as int, h as int, w as int,
                        idx as int, (r + 1) as nat);
                    lemma_grid_sum_mono(grid, (r + 1) as nat, (h * w) as nat);
                    assert(sum_fold(grid, pv as int, qv as int, h as int, w as int, idx as int, (r
                        + 1) as nat) == sum_fold(
                        grid,
                        pv as int,
                        qv as int,
                        h as int,
                        w as int,
                        idx as int,
                        r as nat,
                    ) + grid[r]);
                }
                let cur: u64 = bins[idx];
                bins[idx] = cur + cell;
                proof {
                    assert forall|i: int| 0 <= i < size implies #[trigger] bins@[i] == sum_fold(
                        grid,
                        pv as int,
                        qv as int,
                        h as int,
                        w as int,
                        i,
                        (r + 1) as nat,
                    ) by {
                        assert(sum_fold(
                            grid,
                            pv as int,
                            qv as int,
                            h as int,
                            w as int,
                            i,
                            (r + 1) as nat,
                        ) == if raster_bin_index(pv as int, qv as int, h as int, w as int, r)
                            == i {
                            sum_fold(grid, pv as int, qv as int, h as int, w as int, i, r as nat)
                                + grid[r]
                        } else {
                            sum_fold(grid, pv as int, qv as int, h as int, w as int, i, r as nat)
                        });
                        if i == idx {
                            assert(bins@[i] == before[i] + cell);
                        } else {
                            assert(bins@[i] == before[i]);
                        }
                    }
                }
                k = k + 1;
            }
            proof {
                assert((l + 1) * w == l * w + w) by (nonlinear_arith);
            }
            l = l + 1;
        }
        projections[np].set_bins(bins);
        np = np + 1;
    }
}


/// Recover the support's cells from the projections' bins by greedy
/// unique-contributor decoding.  Per bin the pass tracks how many cells
/// still contribute and the sum of their raster indices; a bin with exactly
/// one outstanding contributor pins that cell's value, the cell is written,
/// and its contribution is removed by subtraction (wrapping, so bins that
/// did not come from a real projection cannot fault) from every bin it
/// touched, which
/// may free further bins.  The pass always terminates, and cells never
/// determined keep their prior value: incomplete bins give a degraded
/// result, not an error.
///
/// The contract pins the outcome two ways.  It never writes a wrong value:
/// for any grid the given bins are consistent with (in particular, the grid
/// they were projected from, also when projections have since been
/// dropped), every cell ends up either untouched or holding exactly that
/// grid's value.  And it decodes as far as greed reaches: the final state
/// is explained by a resolved set, reached one univocal commit at a time,
/// that leaves no bin with exactly one outstanding contributor, holds the
/// consistent grid's values, and leaves every other cell untouched
/// (`decode_outcome`).
pub fn inverse<S: Support<u64>>(support: &mut S, projections: Transform<u64>)
    requires
        old(support).wf(),
        1 <= old(support).spec_height(),
        1 <= old(support).spec_width(),
        (old(support).spec_height() * old(support).spec_width()) * (old(support).spec_height()
            * old(support).spec_width()) <= usize::MAX,
        forall|j: int| 0 <= j < projections@.len() ==> (#[trigger] projections@[j]).wf(),
        forall|j: int|
            0 <= j < projections@.len() ==> (#[trigger] projections@[j]).bins_spec().len()
                == bin_count(
                projections@[j].p_spec(),
                projections@[j].q_spec(),
                old(support).spec_height(),
                old(support).spec_width(),
            ),
    ensures
        final(support).wf(),
        final(support).spec_height() == old(support).spec_height(),
        final(support).spec_width() == old(support).spec_width(),
        forall|g: Seq<u64>|
            #![trigger consistent_with(projections@, g, old(support).spec_height(), old(support).spec_width())]
            g.len() == old(support).spec_height() * old(support).spec_width()
                && consistent_with(
                projections@,
                g,
                old(support).spec_height(),
                old(support).spec_width(),
            ) ==> forall|r: int|
                0 <= r < g.len() ==> (#[trigger] final(support).contents()[r]) == old(
                    support,
                ).contents()[r] || final(support).contents()[r] == g[r],
        exists|res: Seq<bool>|
            #[trigger] decode_outcome(
                projections@,
                old(support).contents(),
                final(support).contents(),
                old(support).spec_height(),
                old(support).spec_width(),
                res,
            ),
{
    let mut projections = projections;
    let h = support.height();
    let w = support.width();
    proof {
        support.wf_dims();
    }
    let total: usize = h * w;
    let n_projs = projections.len();
    let ghost projs0: Seq<Projection<u64>> = projections@;
    let ghost contents0: Seq<u64> = support.contents();

    // Contributor counts and coordinate sums, one row per projection.
    let mut counts: Vec<Vec<usize>> = Vec::new();
    let mut diets: Vec<Vec<usize>> = Vec::new();
    let mut np: usize = 0;
    while np < n_projs
        invariant
            n_projs == projs0.len(),
            projections@ == projs0,
            np <= n_projs,
            counts@.len() == np,
            diets@.len() == np,
            forall|j: int|
                0 <= j < np ==> (#[trigger] counts@[j])@.len() == projs0[j].bins_spec().len(),
            forall|j: int|
                0 <= j < np ==> (#[trigger] diets@[j])@.len() == projs0[j].bins_spec().len(),
            forall|j: int, i: int|
                0 <= j < np && 0 <= i < counts@[j]@.len() ==> (#[trigger] counts@[j]@[i]) == 0,
            forall|j: int, i: int|
                0 <= j < np && 0 <= i < diets@[j]@.len() ==> (#[trigger] diets@[j]@[i]) == 0,
        decreases n_projs - np,
    {
        let pr = &projections[np];
        let size = pr.bins().len();
        counts.push(zero_vec::<usize>(size));
        diets.push(zero_vec::<usize>(size));
        np = np + 1;
    }

    // One sweep of the grid fills both arrays: every cell bumps, in every
    // projection, the count of the bin it lands in and adds its raster
    // index to that bin's coordinate sum.
    let ghost res0: Seq<bool> = Seq::new(total as nat, |i: int| false);
    let mut dietmar: usize = 0;
    let mut l: usize = 0;
    proof {
        assert(0int * w == 0) by (nonlinear_arith);
    }
    while l < h
        invariant
            support.wf(),
            1 <= h == support.spec_height(),
            1 <= w == support.spec_width(),
            total == h * w,
            total * total <= usize::MAX,
            n_projs == projs0.len(),
            projections@ == projs0,
            forall|j: int| 0 <= j < n_projs ==> (#[trigger] projs0[j]).wf(),
            forall|j: int|
                0 <= j < n_projs ==> (#[trigger] projs0[j]).bins_spec().len() == bin_count(
                    projs0[j].p_spec(),
                    projs0[j].q_spec(),
                    h as int,
                    w as int,
                ),
            res0.len() == total,
            forall|i: int| 0 <= i < total ==> !(#[trigger] res0[i]),
            counts@.len() == n_projs,
            diets@.len() == n_projs,
            forall|j: int|
                0 <= j < n_projs ==> (#[trigger] counts@[j])@.len()
                    == projs0[j].bins_spec().len(),
            forall|j: int|
                0 <= j < n_projs ==> (#[trigger] diets@[j])@.len() == projs0[j].bins_spec().len(),
            l <= h,
            dietmar == l * w,
            forall|j: int, i: int|
                0 <= j < n_projs && 0 <= i < counts@[j]@.len() ==> (#[trigger] counts@[j]@[i])
                    == unres_count(
                    res0,
                    projs0[j].p_spec(),
                    projs0[j].q_spec(),
                    h as int,
                    w as int,
                    i,
                    (l * w) as nat,
                ),
            forall|j: int, i: int|
                0 <= j < n_projs && 0 <= i < diets@[j]@.len() ==> (#[trigger] diets@[j]@[i])
                    == unres_sum(
                    res0,
                    projs0[j].p_spec(),
                    projs0[j].q_spec(),
                    h as int,
                    w as int,
                    i,
                    (l * w) as nat,
                ),
        decreases h - l,
    {
        let mut k: usize = 0;
        proof {
            lemma_row_major_index(l as int, 0, h as int, w as int);
        }
        while k < w
            invariant
                support.wf(),
                1 <= h == support.spec_height(),
                1 <= w == support.spec_width(),
                total == h * w,
                total * total <= usize::MAX,
                n_projs == projs0.len(),
                projections@ == projs0,
                forall|j: int| 0 <= j < n_projs ==> (#[trigger] projs0[j]).wf(),
                forall|j: int|
                    0 <= j < n_projs ==> (#[trigger] projs0[j]).bins_spec().len() == bin_count(
                        projs0[j].p_spec(),
                        projs0[j].q_spec(),
                        h as int,
                        w as int,
                    ),
                res0.len() == total,
                forall|i: int| 0 <= i < total ==> !(#[trigger] res0[i]),
                counts@.len() == n_projs,
                diets@.len() == n_projs,
                forall|j: int|
                    0 <= j < n_projs ==> (#[trigger] counts@[j])@.len()
                        == projs0[j].bins_spec().len(),
                forall|j: int|
                    0 <= j < n_projs ==> (#[trigger] diets@[j])@.len()
                        == projs0[j].bins_spec().len(),
                l < h,
                k <= w,
                dietmar == l * w + k,
                l * w + k <= h * w,
                forall|j: int, i: int|
                    0 <= j < n_projs && 0 <= i < counts@[j]@.len() ==> (#[trigger] counts@[j]@[i])
                        == unres_count(
                        res0,
                        projs0[j].p_spec(),
                        projs0[j].q_spec(),
                        h as int,
                        w as int,
                        i,
                        (l * w + k) as nat,
                    ),
                forall|j: int, i: int|
                    0 <= j < n_projs && 0 <= i < diets@[j]@.len() ==> (#[trigger] diets@[j]@[i])
                        == unres_sum(
                        res0,
                        projs0[j].p_spec(),
                        projs0[j].q_spec(),
                        h as int,
                        w as int,
                        i,
                        (l * w + k) as nat,
                    ),
            decreases w - k,
        {
            proof {
                lemma_row_major_index(l as int, k as int, h as int, w as int);
                lemma_raster_decompose(l as int, k as int, w as int);
            }
            let ghost r: int = l * w + k;
            let mut m: usize = 0;
            while m < n_projs
                invariant
                    1 <= h,
                    1 <= w,
                    total == h * w,
                    total * total <= usize::MAX,
                    n_projs == projs0.len(),
                    projections@ == projs0,
                    forall|j: int| 0 <= j < n_projs ==> (#[trigger] projs0[j]).wf(),
                    forall|j: int|
                        0 <= j < n_projs ==> (#[trigger] projs0[j]).bins_spec().len()
                            == bin_count(
                            projs0[j].p_spec(),
                            projs0[j].q_spec(),
                            h as int,
                            w as int,
                        ),
                    res0.len() == total,
                    forall|i: int| 0 <= i < total ==> !(#[trigger] res0[i]),
                    counts@.len() == n_projs,
                    diets@.len() == n_projs,
                    forall|j: int|
                        0 <= j < n_projs ==> (#[trigger] counts@[j])@.len()
                            == projs0[j].bins_spec().len(),
                    forall|j: int|
                        0 <= j < n_projs ==> (#[trigger] diets@[j])@.len()
                            == projs0[j].bins_spec().len(),
                    m <= n_projs,
                    l < h,
                    k < w,
                    r == l * w + k,
                    0 <= r < total,
                    dietmar == r,
                    forall|j: int, i: int|
                        0 <= j < n_projs && 0 <= i < counts@[j]@.len()
                            ==> (#[trigger] counts@[j]@[i]) == unres_count(
                            res0,
                            projs0[j].p_spec(),
                            projs0[j].q_spec(),
                            h as int,
                            w as int,
                            i,
                            if j < m {
                                (r + 1) as nat
                            } else {
                                r as nat
                            },
                        ),
                    forall|j: int, i: int|
                        0 <= j < n_projs && 0 <= i < diets@[j]@.len()
                            ==> (#[trigger] diets@[j]@[i]) == unres_sum(
                            res0,
                            projs0[j].p_spec(),
                            projs0[j].q_spec(),
                            h as int,
                            w as int,
                            i,
                            if j < m {
                                (r + 1) as nat
                            } else {
                                r as nat
                            },
                        ),
                decreases n_projs - m,
            {
                let prm = &projections[m];
                let pv: i16 = prm.p();
                let qv: u16 = prm.q();
                let row_len = counts[m].len();
                proof {
                    assert(projs0[m as int].wf());
                    assert(row_len == bin_count(pv as int, qv as int, h as int, w as int));
                    lemma_raster_decompose(l as int, k as int, w as int);
                    lemma_unres_bounds(
                        res0,
                        pv as int,
                        qv as int,
                        h as int,
                        w as int,
                        raster_bin_index(pv as int, qv as int, h as int, w as int, r),
                        r as nat,
                    );
                    assert((r + 1) * (r + 1) <= total * total) by (nonlinear_arith)
                        requires
                            0 <= r,
                            r + 1 <= total,
                    ;
                    assert(r * r <= (r + 1) * (r + 1)) by (nonlinear_arith)
                        requires
                            0 <= r,
                    ;
                    assert(r * r + r <= (r + 1) * (r + 1)) by (nonlinear_arith)
                        requires
                            0 <= r,
                    ;
                }
                let idx = bin_index_exec(pv, qv, h, w, l, k);
                let cc = counts[m][idx];
                counts[m][idx] = cc + 1;
                let dd = diets[m][idx];
                diets[m][idx] = dd + dietmar;
                proof {
                    assert(raster_bin_index(pv as int, qv as int, h as int, w as int, r) == idx);
                    assert(!res0[r]);
                    assert forall|i: int| 0 <= i < counts@[m as int]@.len() implies (
                    #[trigger] counts@[m as int]@[i]) == unres_count(
                        res0,
                        pv as int,
                        qv as int,
                        h as int,
                        w as int,
                        i,
                        (r + 1) as nat,
                    ) by {
                        assert(unres_count(
                            res0,
                            pv as int,
                            qv as int,
                            h as int,
                            w as int,
                            i,
                            (r + 1) as nat,
                        ) == unres_count(res0, pv as int, qv as int, h as int, w as int, i, r as nat)
                            + if !res0[r] && raster_bin_index(
                            pv as int,
                            qv as int,
                            h as int,
                            w as int,
                            r,
                        ) == i {
                            1int
                        } else {
                            0int
                        });
                    }
                    assert forall|i: int| 0 <= i < diets@[m as int]@.len() implies (
                    #[trigger] diets@[m as int]@[i]) == unres_sum(
                        res0,
                        pv as int,
                        qv as int,
                        h as int,
                        w as int,
                        i,
                        (r + 1) as nat,
                    ) by {
                        assert(unres_sum(
                            res0,
                            pv as int,
                            qv as int,
                            h as int,
                            w as int,
                            i,
                            (r + 1) as nat,
                        ) == unres_sum(res0, pv as int, qv as int, h as int, w as int, i, r as nat)
                            + if !res0[r] && raster_bin_index(
                            pv as int,
                            qv as int,
                            h as int,
                            w as int,
                            r,
                        ) == i {
                            r
                        } else {
                            0int
                        });
                    }
                }
                m = m + 1;
            }
            dietmar = dietmar + 1;
            k = k + 1;
        }
        proof {
            assert((l + 1) * w == l * w + w) by (nonlinear_arith);
        }
        l = l + 1;
    }

    // Every bin with exactly one contributor is decodable right away.
    let mut list: VecDeque<(usize, usize)> = VecDeque::new();
    let mut n2: usize = 0;
    while n2 < n_projs
        invariant
            counts@.len() == n_projs,
            n2 <= n_projs,
            forall|t: int|
                0 <= t < list@.len() ==> (#[trigger] list@[t]).0 < n_projs && list@[t].1 < counts@[list@[t].0 as int]@.len(),
            forall|n: int, i: int|
                0 <= n < n2 && 0 <= i < counts@[n]@.len() && (#[trigger] counts@[n]@[i]) == 1
                    ==> exists|t: int|
                    0 <= t < list@.len() && (#[trigger] list@[t]).0 == n && list@[t].1 == i,
        decreases n_projs - n2,
    {
        let row_len = counts[n2].len();
        let mut i2: usize = 0;
        while i2 < row_len
            invariant
                counts@.len() == n_projs,
                n2 < n_projs,
                i2 <= row_len,
                row_len == counts@[n2 as int]@.len(),
                forall|t: int|
                    0 <= t < list@.len() ==> (#[trigger] list@[t]).0 < n_projs && list@[t].1
                        < counts@[list@[t].0 as int]@.len(),
                forall|n: int, i: int|
                    0 <= n < n2 && 0 <= i < counts@[n]@.len() && (#[trigger] counts@[n]@[i]) == 1
                        ==> exists|t: int|
                        0 <= t < list@.len() && (#[trigger] list@[t]).0 == n && list@[t].1 == i,
                forall|i: int|
                    0 <= i < i2 && (#[trigger] counts@[n2 as int]@[i]) == 1 ==> exists|t: int|
                        0 <= t < list@.len() && (#[trigger] list@[t]).0 == n2 && list@[t].1 == i,
            decreases row_len - i2,
        {
            let ghost list_pre: Seq<(usize, usize)> = list@;
            if counts[n2][i2] == 1 {
                list.push_back((n2, i2));
            }
            proof {
                assert forall|n: int, i: int|
                    (0 <= n < n2 || (n == n2 && 0 <= i < i2 + 1)) && 0 <= i < counts@[n]@.len()
                        && (#[trigger] counts@[n]@[i]) == 1 implies exists|t: int|
                    0 <= t < list@.len() && (#[trigger] list@[t]).0 == n && list@[t].1 == i by {
                    if n == n2 && i == i2 {
                        assert(list@[list@.len() - 1].0 == n && list@[list@.len() - 1].1 == i);
                    } else {
                        let t0 = choose|t0: int|
                            0 <= t0 < list_pre.len() && (#[trigger] list_pre[t0]).0 == n
                                && list_pre[t0].1 == i;
                        assert(list@[t0].0 == n && list@[t0].1 == i);
                    }
                }
            }
            i2 = i2 + 1;
        }
        n2 = n2 + 1;
    }

    // Drain: each pop either commits one more cell or only shortens the
    // queue, so the loop terminates.
    let ghost mut res: Seq<bool> = res0;
    let ghost mut trace: Seq<int> = Seq::empty();
    proof {
        lemma_resolved_bounds(res, total as nat);
        assert(commits_applied(trace, total as nat) =~= res0);
        assert forall|g: Seq<u64>|
            #![trigger consistent_with(projs0, g, h as int, w as int)]
            g.len() == total && consistent_with(projs0, g, h as int, w as int) implies forall|
            j: int,
            i: int,
        |
            0 <= j < n_projs && 0 <= i < projections@[j].bins_spec().len() ==> (
            #[trigger] projections@[j].bins_spec()[i]) as int == sum_fold_unres(
                g,
                res,
                projs0[j].p_spec(),
                projs0[j].q_spec(),
                h as int,
                w as int,
                i,
                total as nat,
            ) by {
            assert forall|j: int, i: int|
                0 <= j < n_projs && 0 <= i < projections@[j].bins_spec().len() implies (
                #[trigger] projections@[j].bins_spec()[i]) as int == sum_fold_unres(
                    g,
                    res,
                    projs0[j].p_spec(),
                    projs0[j].q_spec(),
                    h as int,
                    w as int,
                    i,
                    total as nat,
                ) by {
                assert(projs0[j].bins_spec()[i] as int == sum_fold(
                    g,
                    projs0[j].p_spec(),
                    projs0[j].q_spec(),
                    h as int,
                    w as int,
                    i,
                    (h as int * w as int) as nat,
                ));
                lemma_sum_unres_all(
                    g,
                    res,
                    projs0[j].p_spec(),
                    projs0[j].q_spec(),
                    h as int,
                    w as int,
                    i,
                    total as nat,
                );
            }
        }
    }
    while list.len() > 0
        invariant
            support.wf(),
            support.spec_height() == h,
            support.spec_width() == w,
            1 <= h,
            1 <= w,
            total == h * w,
            total * total <= usize::MAX,
            n_projs == projs0.len(),
            projections@.len() == n_projs,
            forall|j: int|
                0 <= j < n_projs ==> {
                    &&& (#[trigger] projections@[j]).wf()
                    &&& projections@[j].p_spec() == projs0[j].p_spec()
                    &&& projections@[j].q_spec() == projs0[j].q_spec()
                    &&& projections@[j].bins_spec().len() == projs0[j].bins_spec().len()
                },
            forall|j: int|
                0 <= j < n_projs ==> (#[trigger] projs0[j]).bins_spec().len() == bin_count(
                    projs0[j].p_spec(),
                    projs0[j].q_spec(),
                    h as int,
                    w as int,
                ),
            counts@.len() == n_projs,
            diets@.len() == n_projs,
            forall|j: int|
                0 <= j < n_projs ==> (#[trigger] counts@[j])@.len()
                    == projs0[j].bins_spec().len(),
            forall|j: int|
                0 <= j < n_projs ==> (#[trigger] diets@[j])@.len() == projs0[j].bins_spec().len(),
            res.len() == total,
            forall|j: int, i: int|
                0 <= j < n_projs && 0 <= i < counts@[j]@.len() ==> (#[trigger] counts@[j]@[i])
                    == unres_count(
                    res,
                    projs0[j].p_spec(),
                    projs0[j].q_spec(),
                    h as int,
                    w as int,
                    i,
                    total as nat,
                ),
            forall|j: int, i: int|
                0 <= j < n_projs && 0 <= i < diets@[j]@.len() ==> (#[trigger] diets@[j]@[i])
                    == unres_sum(
                    res,
                    projs0[j].p_spec(),
                    projs0[j].q_spec(),
                    h as int,
                    w as int,
                    i,
                    total as nat,
                ),
            forall|t: int|
                0 <= t < list@.len() ==> (#[trigger] list@[t]).0 < n_projs && list@[t].1 < counts@[list@[t].0 as int]@.len(),
            0 <= resolved_count(res, total as nat) <= total,
            forall|g: Seq<u64>|
                #![trigger consistent_with(projs0, g, h as int, w as int)]
                g.len() == total && consistent_with(projs0, g, h as int, w as int) ==> forall|
                    j: int,
                    i: int,
                |
                    0 <= j < n_projs && 0 <= i < projections@[j].bins_spec().len() ==> (
                    #[trigger] projections@[j].bins_spec()[i]) as int == sum_fold_unres(
                        g,
                        res,
                        projs0[j].p_spec(),
                        projs0[j].q_spec(),
                        h as int,
                        w as int,
                        i,
                        total as nat,
                    ),
            forall|r: int|
                0 <= r < total && !(#[trigger] res[r]) ==> support.contents()[r] == contents0[r],
            forall|g: Seq<u64>|
                #![trigger consistent_with(projs0, g, h as int, w as int)]
                g.len() == total && consistent_with(projs0, g, h as int, w as int) ==> forall|
                    r: int,
                |
                    0 <= r < total && (#[trigger] res[r]) ==> support.contents()[r] == g[r],
            forall|n: int, i: int|
                0 <= n < n_projs && 0 <= i < counts@[n]@.len() && (#[trigger] counts@[n]@[i]) == 1
                    ==> exists|t: int|
                    0 <= t < list@.len() && (#[trigger] list@[t]).0 == n && list@[t].1 == i,
            res == commits_applied(trace, total as nat),
            greedy_trace(projs0, h as int, w as int, trace),
        decreases total - resolved_count(res, total as nat), list@.len(),
    {
        let ghost list0: Seq<(usize, usize)> = list@;
        let uv = list.pop_front().unwrap();
        let pn = uv.0;
        let bi = uv.1;
        proof {
            // Every univocal bin other than the popped one keeps a queue
            // entry: its old entry only shifted one place forward.
            assert forall|n: int, i: int|
                0 <= n < n_projs && 0 <= i < counts@[n]@.len() && (#[trigger] counts@[n]@[i]) == 1
                    && !(n == pn && i == bi) implies exists|t: int|
                0 <= t < list@.len() && (#[trigger] list@[t]).0 == n && list@[t].1 == i by {
                let t0 = choose|t0: int|
                    0 <= t0 < list0.len() && (#[trigger] list0[t0]).0 == n && list0[t0].1 == i;
                assert(list0[0] == uv);
                assert(t0 >= 1);
                assert(list@[t0 - 1].0 == n && list@[t0 - 1].1 == i);
            }
        }
        if counts[pn][bi] == 1 {
            let prn = &projections[pn];
            let pv0: i16 = prn.p();
            let qv0: u16 = prn.q();
            let c = diets[pn][bi];
            proof {
                lemma_univocal(res, pv0 as int, qv0 as int, h as int, w as int, bi as int,
                    total as nat);
                lemma_raster_range(c as int, h as int, w as int);
            }
            let value: u64 = prn.bins()[bi];
            let li: usize = c / w;
            let ki: usize = c - li * w;
            let ghost res_pre: Seq<bool> = res;
            let ghost res2: Seq<bool> = res.update(c as int, true);
            proof {
                assert forall|g: Seq<u64>|
                    #![trigger consistent_with(projs0, g, h as int, w as int)]
                    g.len() == total && consistent_with(projs0, g, h as int, w as int)
                        implies value == g[c as int] by {
                    assert(projections@[pn as int].bins_spec()[bi as int] as int
                        == sum_fold_unres(
                        g,
                        res,
                        pv0 as int,
                        qv0 as int,
                        h as int,
                        w as int,
                        bi as int,
                        total as nat,
                    ));
                    lemma_sum_unres_univocal(
                        g,
                        res,
                        pv0 as int,
                        qv0 as int,
                        h as int,
                        w as int,
                        bi as int,
                        total as nat,
                    );
                }
                support.wf_dims();
            }
            let ghost pre_contents: Seq<u64> = support.contents();
            support.set_data(li, ki, value);
            proof {
                assert(pre_contents.len() == total);
                assert(li as int * (w as int) + ki as int == c as int);
                assert(support.contents() == pre_contents.update(c as int, value));
                assert forall|r: int|
                    0 <= r < total && !(#[trigger] res2[r]) implies support.contents()[r]
                        == contents0[r] by {
                    assert(support.contents()[r] == pre_contents[r]);
                }
                assert forall|g: Seq<u64>|
                    #![trigger consistent_with(projs0, g, h as int, w as int)]
                    g.len() == total && consistent_with(projs0, g, h as int, w as int)
                        implies forall|r: int|
                        0 <= r < total && (#[trigger] res2[r]) ==> support.contents()[r]
                            == g[r] by {
                    assert(value == g[c as int]);
                    assert forall|r: int|
                        0 <= r < total && (#[trigger] res2[r]) implies support.contents()[r]
                            == g[r] by {
                        if r != c {
                            assert(support.contents()[r] == pre_contents[r]);
                            assert(pre_contents[r] == g[r]);
                        } else {
                            assert(support.contents()[r] == value);
                        }
                    }
                }
            }
            let mut m: usize = 0;
            while m < n_projs
                invariant
                    1 <= h,
                    1 <= w,
                    total == h * w,
                    total * total <= usize::MAX,
                    n_projs == projs0.len(),
                    projections@.len() == n_projs,
                    forall|j: int|
                        0 <= j < n_projs ==> {
                            &&& (#[trigger] projections@[j]).wf()
                            &&& projections@[j].p_spec() == projs0[j].p_spec()
                            &&& projections@[j].q_spec() == projs0[j].q_spec()
                            &&& projections@[j].bins_spec().len() == projs0[j].bins_spec().len()
                        },
                    forall|j: int|
                        0 <= j < n_projs ==> (#[trigger] projs0[j]).bins_spec().len()
                            == bin_count(
                            projs0[j].p_spec(),
                            projs0[j].q_spec(),
                            h as int,
                            w as int,
                        ),
                    counts@.len() == n_projs,
                    diets@.len() == n_projs,
                    forall|j: int|
                        0 <= j < n_projs ==> (#[trigger] counts@[j])@.len()
                            == projs0[j].bins_spec().len(),
                    forall|j: int|
                        0 <= j < n_projs ==> (#[trigger] diets@[j])@.len()
                            == projs0[j].bins_spec().len(),
                    res == res_pre,
                    res.len() == total,
                    0 <= c < total,
                    !res[c as int],
                    li == c as int / w as int,
                    ki == c as int % w as int,
                    m <= n_projs,
                    forall|j: int, i: int|
                        0 <= j < n_projs && 0 <= i < counts@[j]@.len()
                            ==> (#[trigger] counts@[j]@[i]) == unres_count(
                            res,
                            projs0[j].p_spec(),
                            projs0[j].q_spec(),
                            h as int,
                            w as int,
                            i,
                            total as nat,
                        ) - if j < m && i == raster_bin_index(
                            projs0[j].p_spec(),
                            projs0[j].q_spec(),
                            h as int,
                            w as int,
                            c as int,
                        ) {
                            1int
                        } else {
                            0int
                        },
                    forall|j: int, i: int|
                        0 <= j < n_projs && 0 <= i < diets@[j]@.len()
                            ==> (#[trigger] diets@[j]@[i]) == unres_sum(
                            res,
                            projs0[j].p_spec(),
                            projs0[j].q_spec(),
                            h as int,
                            w as int,
                            i,
                            total as nat,
                        ) - if j < m && i == raster_bin_index(
                            projs0[j].p_spec(),
                            projs0[j].q_spec(),
                            h as int,
                            w as int,
                            c as int,
                        ) {
                            c as int
                        } else {
                            0int
                        },
                    forall|t: int|
                        0 <= t < list@.len() ==> (#[trigger] list@[t]).0 < n_projs && list@[t].1
                            < counts@[list@[t].0 as int]@.len(),
                    res2 == res.update(c as int, true),
                    forall|g: Seq<u64>|
                        #![trigger consistent_with(projs0, g, h as int, w as int)]
                        g.len() == total && consistent_with(projs0, g, h as int, w as int)
                            ==> value == g[c as int],
                    forall|g: Seq<u64>|
                        #![trigger consistent_with(projs0, g, h as int, w as int)]
                        g.len() == total && consistent_with(projs0, g, h as int, w as int)
                            ==> forall|j: int, i: int|
                            0 <= j < m && 0 <= i < projections@[j].bins_spec().len() ==> (
                            #[trigger] projections@[j].bins_spec()[i]) as int == sum_fold_unres(
                                g,
                                res2,
                                projs0[j].p_spec(),
                                projs0[j].q_spec(),
                                h as int,
                                w as int,
                                i,
                                total as nat,
                            ),
                    forall|g: Seq<u64>|
                        #![trigger consistent_with(projs0, g, h as int, w as int)]
                        g.len() == total && consistent_with(projs0, g, h as int, w as int)
                            ==> forall|j: int, i: int|
                            m <= j < n_projs && 0 <= i < projections@[j].bins_spec().len() ==> (
                            #[trigger] projections@[j].bins_spec()[i]) as int == sum_fold_unres(
                                g,
                                res,
                                projs0[j].p_spec(),
                                projs0[j].q_spec(),
                                h as int,
                                w as int,
                                i,
                                total as nat,
                            ),
                    forall|r: int|
                        0 <= r < total && !(#[trigger] res2[r]) ==> support.contents()[r]
                            == contents0[r],
                    forall|g: Seq<u64>|
                        #![trigger consistent_with(projs0, g, h as int, w as int)]
                        g.len() == total && consistent_with(projs0, g, h as int, w as int)
                            ==> forall|r: int|
                            0 <= r < total && (#[trigger] res2[r]) ==> support.contents()[r]
                                == g[r],
                    forall|n: int, i: int|
                        0 <= n < n_projs && 0 <= i < counts@[n]@.len() && (
                        #[trigger] counts@[n]@[i]) == 1 && !(n == pn && i == bi) ==> exists|
                            t: int,
                        |
                            0 <= t < list@.len() && (#[trigger] list@[t]).0 == n && list@[t].1
                                == i,
                decreases n_projs - m,
            {
                let prm = &projections[m];
                let pv: i16 = prm.p();
                let qv: u16 = prm.q();
                let row_len = counts[m].len();
                proof {
                    assert(row_len == bin_count(pv as int, qv as int, h as int, w as int));
                    crate::geometry::lemma_raster_range(c as int, h as int, w as int);
                }
                let idx = bin_index_exec(pv, qv, h, w, li, ki);
                proof {
                    lemma_raster_decompose(li as int, ki as int, w as int);
                    assert(raster_bin_index(pv as int, qv as int, h as int, w as int, c as int)
                        == idx);
                    lemma_contributor_lower(res, pv as int, qv as int, h as int, w as int,
                        c as int, total as nat);
                }
                let curb: u64 = prm.bins()[idx];
                let newb: u64 = curb.wrapping_sub(value);
                projections[m].set_bin(idx, newb);
                let cc = counts[m][idx];
                counts[m][idx] = cc - 1;
                let dd = diets[m][idx];
                diets[m][idx] = dd - c;
                let ghost list_pre: Seq<(usize, usize)> = list@;
                if counts[m][idx] == 1 {
                    list.push_back((m, idx));
                }
                proof {
                    assert forall|n: int, i: int|
                        0 <= n < n_projs && 0 <= i < counts@[n]@.len() && (
                        #[trigger] counts@[n]@[i]) == 1 && !(n == pn && i == bi) implies exists|
                        t: int,
                    |
                        0 <= t < list@.len() && (#[trigger] list@[t]).0 == n && list@[t].1
                            == i by {
                        if n == m && i == idx {
                            assert(list@[list@.len() - 1].0 == n && list@[list@.len() - 1].1
                                == i);
                        } else {
                            let t0 = choose|t0: int|
                                0 <= t0 < list_pre.len() && (#[trigger] list_pre[t0]).0 == n
                                    && list_pre[t0].1 == i;
                            assert(list@[t0].0 == n && list@[t0].1 == i);
                        }
                    }
                    assert forall|g: Seq<u64>|
                        #![trigger consistent_with(projs0, g, h as int, w as int)]
                        g.len() == total && consistent_with(projs0, g, h as int, w as int)
                            implies forall|i: int|
                            0 <= i < projections@[m as int].bins_spec().len() ==> (
                            #[trigger] projections@[m as int].bins_spec()[i]) as int
                                == sum_fold_unres(
                                g,
                                res2,
                                pv as int,
                                qv as int,
                                h as int,
                                w as int,
                                i,
                                total as nat,
                            ) by {
                        assert(value == g[c as int]);
                        assert forall|i: int|
                            0 <= i < projections@[m as int].bins_spec().len() implies (
                            #[trigger] projections@[m as int].bins_spec()[i]) as int
                                == sum_fold_unres(
                                g,
                                res2,
                                pv as int,
                                qv as int,
                                h as int,
                                w as int,
                                i,
                                total as nat,
                            ) by {
                            lemma_sum_unres_commit(
                                g,
                                res,
                                pv as int,
                                qv as int,
                                h as int,
                                w as int,
                                i,
                                c as int,
                                total as nat,
                            );
                            if i == idx {
                                assert(curb as int == sum_fold_unres(
                                    g,
                                    res,
                                    pv as int,
                                    qv as int,
                                    h as int,
                                    w as int,
                                    i,
                                    total as nat,
                                ));
                                lemma_sum_unres_nonneg(
                                    g,
                                    res2,
                                    pv as int,
                                    qv as int,
                                    h as int,
                                    w as int,
                                    i,
                                    total as nat,
                                );
                                assert(curb >= value);
                            }
                        }
                    }
                }
                m = m + 1;
            }
            proof {
                res = res.update(c as int, true);
                assert forall|j: int, i: int|
                    0 <= j < n_projs && 0 <= i < counts@[j]@.len() implies (
                #[trigger] counts@[j]@[i]) == unres_count(
                    res,
                    projs0[j].p_spec(),
                    projs0[j].q_spec(),
                    h as int,
                    w as int,
                    i,
                    total as nat,
                ) by {
                    lemma_commit(res_pre, projs0[j].p_spec(), projs0[j].q_spec(), h as int,
                        w as int, i, c as int, total as nat);
                }
                assert forall|j: int, i: int|
                    0 <= j < n_projs && 0 <= i < diets@[j]@.len() implies (
                #[trigger] diets@[j]@[i]) == unres_sum(
                    res,
                    projs0[j].p_spec(),
                    projs0[j].q_spec(),
                    h as int,
                    w as int,
                    i,
                    total as nat,
                ) by {
                    lemma_commit(res_pre, projs0[j].p_spec(), projs0[j].q_spec(), h as int,
                        w as int, i, c as int, total as nat);
                }
                lemma_commit_resolved(res_pre, c as int, total as nat);
                lemma_resolved_bounds(res, total as nat);
                // The decoded bin itself is exhausted, so the queue need
                // not represent it any more.
                assert(counts@[pn as int]@[bi as int] == 0);
                // Record the commit: it extends the greedy trace, since at
                // its moment bin (pn, bi) was univocal and named cell c.
                let trace_pre = trace;
                trace = trace.push(c as int);
                assert(trace.drop_last() =~= trace_pre);
                assert(trace.last() == c as int);
                assert(res == commits_applied(trace, total as nat));
                assert((h as int * w as int) as nat == total as nat);
                assert(greedy_trace(projs0, h as int, w as int, trace)) by {
                    assert forall|t: int|
                        #![trigger trace.take(t)]
                        0 <= t < trace.len() implies greedy_step(
                        projs0,
                        h as int,
                        w as int,
                        commits_applied(trace.take(t), (h as int * w as int) as nat),
                        trace[t],
                    ) by {
                        if t < trace_pre.len() {
                            assert(trace.take(t) =~= trace_pre.take(t));
                            assert(trace[t] == trace_pre[t]);
                        } else {
                            assert(trace.take(t) =~= trace_pre);
                            assert(commits_applied(trace.take(t), total as nat) == res_pre);
                            assert(unres_count(
                                res_pre,
                                projs0[pn as int].p_spec(),
                                projs0[pn as int].q_spec(),
                                h as int,
                                w as int,
                                bi as int,
                                (h as int * w as int) as nat,
                            ) == 1);
                            assert(unres_sum(
                                res_pre,
                                projs0[pn as int].p_spec(),
                                projs0[pn as int].q_spec(),
                                h as int,
                                w as int,
                                bi as int,
                                (h as int * w as int) as nat,
                            ) == c as int);
                            assert(bi < bin_count(
                                projs0[pn as int].p_spec(),
                                projs0[pn as int].q_spec(),
                                h as int,
                                w as int,
                            ));
                            assert(greedy_step(
                                projs0,
                                h as int,
                                w as int,
                                res_pre,
                                c as int,
                            ));
                        }
                    }
                }
            }
        }
    }
    proof {
        // The queue is empty, so no bin is univocal any more: the resolved
        // set is a fixpoint of the greedy process, the support is untouched
        // off it and holds the consistent grid's values on it.
        assert((h as int * w as int) as nat == total as nat);
        assert forall|n: int, i: int|
            0 <= n < projs0.len() && 0 <= i < bin_count(
                projs0[n].p_spec(),
                projs0[n].q_spec(),
                h as int,
                w as int,
            ) implies #[trigger] unres_count(
            res,
            projs0[n].p_spec(),
            projs0[n].q_spec(),
            h as int,
            w as int,
            i,
            (h as int * w as int) as nat,
        ) != 1 by {
            assert(counts@[n]@[i] == unres_count(
                res,
                projs0[n].p_spec(),
                projs0[n].q_spec(),
                h as int,
                w as int,
                i,
                total as nat,
            ));
        }
        assert(no_univocal_bin(projs0, res, h as int, w as int));
        assert(res == commits_applied(trace, (h as int * w as int) as nat));
        assert(greedy_trace(projs0, h as int, w as int, trace));
        assert(decode_outcome(
            projs0,
            contents0,
            support.contents(),
            h as int,
            w as int,
            res,
        ));
        assert forall|g: Seq<u64>|
            #![trigger consistent_with(projs0, g, h as int, w as int)]
            g.len() == total && consistent_with(projs0, g, h as int, w as int) implies forall|
            r: int,
        |
            0 <= r < total ==> (#[trigger] support.contents()[r]) == contents0[r]
                || support.contents()[r] == g[r] by {
            assert forall|r: int|
                0 <= r < total implies (#[trigger] support.contents()[r]) == contents0[r]
                    || support.contents()[r] == g[r] by {
                if res[r] {
                    assert(support.contents()[r] == g[r]);
                } else {
                    assert(support.contents()[r] == contents0[r]);
                }
            }
        }
    }
}

} // verus!
