//! The index arithmetic shared by the direct and the inverse transform.
//!
//! A reduced direction `(p, q)` maps the grid cell in row `l` and column `k`
//! of an `h x w` grid to the bin `k*q + l*p - offset`, where the offset
//! `(h-1)*p` (only when `p < 0`) shifts the smallest reachable value to 0.
//! Both passes of the reconstruction and the direct projection must use this
//! one formula, so it lives here, once.

use vstd::prelude::*;
use vstd::arithmetic::div_mod::{
    lemma_div_pos_is_pos, lemma_fundamental_div_mod, lemma_fundamental_div_mod_converse,
    lemma_multiply_divide_lt,
};

verus! {

/// Magnitude of the direction numerator.
pub open spec fn p_abs(p: int) -> int {
    if p < 0 {
        -p
    } else {
        p
    }
}

/// Number of bins a direction `(p, q)` produces over an `h x w` grid:
/// the number of distinct values `k*q + l*p` takes, shifted to start at 0.
pub open spec fn bin_count(p: int, q: int, h: int, w: int) -> int {
    p_abs(p) * (h - 1) + q * (w - 1) + 1
}

/// Shift that keeps every computed bin index non-negative: `p` is most
/// negative at `l = h - 1`.
pub open spec fn dir_offset(p: int, h: int) -> int {
    if p < 0 {
        (h - 1) * p
    } else {
        0
    }
}

/// The bin that cell `(l, k)` contributes to under direction `(p, q)`.
pub open spec fn bin_index(p: int, q: int, h: int, l: int, k: int) -> int {
    k * q + l * p - dir_offset(p, h)
}

/// The bin of the cell with raster index `r` (row-major, width `w`).
pub open spec fn raster_bin_index(p: int, q: int, h: int, w: int, r: int) -> int {
    bin_index(p, q, h, r / w, r % w)
}

/// Every cell of the grid lands in a bin, and every direction's bins are
/// exactly `bin_count` many.
pub proof fn lemma_bin_index_in_range(p: int, q: int, h: int, w: int, l: int, k: int)
    requires
        1 <= h,
        1 <= w,
        0 <= q,
        0 <= l < h,
        0 <= k < w,
    ensures
        0 <= bin_index(p, q, h, l, k) < bin_count(p, q, h, w),
        0 <= l * p - dir_offset(p, h) <= p_abs(p) * (h - 1),
        0 <= k * q <= q * (w - 1),
{
    assert(0 <= k * q <= q * (w - 1)) by (nonlinear_arith)
        requires
            0 <= k <= w - 1,
            0 <= q,
    ;
    if p < 0 {
        assert(0 <= l * p - (h - 1) * p <= (-p) * (h - 1)) by (nonlinear_arith)
            requires
                0 <= l <= h - 1,
                p < 0,
        ;
    } else {
        assert(0 <= l * p <= p * (h - 1)) by (nonlinear_arith)
            requires
                0 <= l <= h - 1,
                0 <= p,
        ;
    }
}

/// Row and column recovered from a raster index: `r / w` and `r % w` are a
/// valid cell, and they recompose to `r`.
pub proof fn lemma_raster_range(r: int, h: int, w: int)
    requires
        1 <= h,
        1 <= w,
        0 <= r < h * w,
    ensures
        0 <= r / w < h,
        0 <= r % w < w,
        r == (r / w) * w + r % w,
{
    lemma_fundamental_div_mod(r, w);
    assert(r == w * (r / w) + r % w);
    assert(w * (r / w) == (r / w) * w) by (nonlinear_arith);
    assert(r < w * h) by (nonlinear_arith)
        requires
            r < h * w,
    ;
    lemma_multiply_divide_lt(r, w, h);
    lemma_div_pos_is_pos(r, w);
}

/// A row-major cell's raster index decomposes back into the same row and
/// column.
pub proof fn lemma_raster_decompose(l: int, k: int, w: int)
    requires
        0 <= l,
        0 <= k < w,
    ensures
        (l * w + k) / w == l,
        (l * w + k) % w == k,
{
    lemma_fundamental_div_mod_converse(l * w + k, w, l, k);
}

/// A row-major flat index is in bounds exactly when its cell is.
pub proof fn lemma_row_major_index(l: int, k: int, h: int, w: int)
    requires
        0 <= l < h,
        0 <= k < w,
    ensures
        0 <= l * w + k < h * w,
        l * w + k < h * w,
{
    assert(0 <= l * w + k < h * w) by (nonlinear_arith)
        requires
            0 <= l < h,
            0 <= k < w,
    ;
}

/// Number of bins as an executable value.
pub(crate) fn bin_count_exec(p: i16, q: u16, h: usize, w: usize) -> (size: usize)
    requires
        1 <= h,
        1 <= w,
        bin_count(p as int, q as int, h as int, w as int) <= usize::MAX,
    ensures
        size == bin_count(p as int, q as int, h as int, w as int),
{
    let pa: usize = if p < 0 {
        (-(p as i32)) as usize
    } else {
        p as usize
    };
    assert(pa == p_abs(p as int));
    assert(pa * (h - 1) <= p_abs(p as int) * (h as int - 1)) by (nonlinear_arith)
        requires
            pa == p_abs(p as int),
            1 <= h,
    ;
    assert(q * (w - 1) <= q as int * (w as int - 1)) by (nonlinear_arith)
        requires
            1 <= w,
            0 <= q,
    ;
    assert(p_abs(p as int) * (h as int - 1) >= 0) by (nonlinear_arith)
        requires
            1 <= h,
    ;
    assert(q as int * (w as int - 1) >= 0) by (nonlinear_arith)
        requires
            1 <= w,
            0 <= q,
    ;
    pa * (h - 1) + (q as usize) * (w - 1) + 1
}

/// Bin index of cell `(l, k)` as an executable value: the one formula both
/// the direct pass and the reconstruction passes share.
pub(crate) fn bin_index_exec(p: i16, q: u16, h: usize, w: usize, l: usize, k: usize) -> (i: usize)
    requires
        1 <= h,
        1 <= w,
        l < h,
        k < w,
        bin_count(p as int, q as int, h as int, w as int) <= usize::MAX,
    ensures
        i == bin_index(p as int, q as int, h as int, l as int, k as int),
        i < bin_count(p as int, q as int, h as int, w as int),
{
    proof {
        lemma_bin_index_in_range(p as int, q as int, h as int, w as int, l as int, k as int);
    }
    let pa: usize = if p < 0 {
        (-(p as i32)) as usize
    } else {
        p as usize
    };
    assert(pa == p_abs(p as int));
    let lterm: usize = if p < 0 {
        assert((h - 1 - l) * pa == l * (p as int) - dir_offset(p as int, h as int))
            by (nonlinear_arith)
            requires
                pa == -(p as int),
                p < 0,
                0 <= l < h,
                dir_offset(p as int, h as int) == (h as int - 1) * (p as int),
        ;
        (h - 1 - l) * pa
    } else {
        assert(l * pa == l * (p as int) - dir_offset(p as int, h as int)) by (nonlinear_arith)
            requires
                pa == p as int,
                0 <= p,
                0 <= l,
                dir_offset(p as int, h as int) == 0,
        ;
        l * pa
    };
    let kterm: usize = k * (q as usize);
    kterm + lterm
}

} // verus!
