//! The mathematical model of a filter window: which samples it holds, and how
//! many of them lie below a value.

use vstd::prelude::*;
use crate::image::{clamp_index, Image};

verus! {

/// Side of the square window of a radius.
pub open spec fn window_side(radius: int) -> int {
    2 * radius + 1
}

/// Number of samples in the window of a radius.
pub open spec fn window_area(radius: int) -> int {
    window_side(radius) * window_side(radius)
}

/// 1 where the condition holds, else 0.
pub open spec fn indicator(b: bool) -> int {
    if b {
        1
    } else {
        0
    }
}

/// `x` where `add` holds, else `-x`.
pub open spec fn signed(add: bool, x: int) -> int {
    if add {
        x
    } else {
        -x
    }
}

/// Number of the first `k` samples of `row` that equal `v`.
pub open spec fn prefix_count(row: Seq<u8>, k: int, v: int) -> int
    decreases k,
{
    if k <= 0 {
        0
    } else {
        prefix_count(row, k - 1, v) + indicator(row[k - 1] as int == v)
    }
}

/// Number of samples of `row` at positions `[a, b)` that equal `v`.
pub open spec fn span_count(row: Seq<u8>, a: int, b: int, v: int) -> int {
    prefix_count(row, b, v) - prefix_count(row, a, v)
}

/// Number of the first `k` samples of `row` that are less than `p`.
pub open spec fn prefix_below(row: Seq<u8>, k: int, p: int) -> int
    decreases k,
{
    if k <= 0 {
        0
    } else {
        prefix_below(row, k - 1, p) + indicator((row[k - 1] as int) < p)
    }
}

/// Number of samples of `row` at positions `[a, b)` that are less than `p`.
pub open spec fn span_below(row: Seq<u8>, a: int, b: int, p: int) -> int {
    prefix_below(row, b, p) - prefix_below(row, a, p)
}

/// The samples below `p` are those below `p - 1` and those equal to `p - 1`.
pub proof fn lemma_prefix_below_step(row: Seq<u8>, k: int, p: int)
    ensures
        prefix_below(row, k, p) == prefix_below(row, k, p - 1) + prefix_count(row, k, p - 1),
    decreases k,
{
    if k > 0 {
        lemma_prefix_below_step(row, k - 1, p);
    }
}

/// The samples of channel `c` in image row `y` at columns `x0 .. x0 + len`,
/// each read under clamp-to-edge addressing.
pub open spec fn row_of(img: &Image, x0: int, len: int, y: int, c: int) -> Seq<u8> {
    Seq::new(len as nat, |i: int| img.sample(x0 + i, y, c))
}

/// Number of samples equal to `v` among the first `k` of the window row `y`
/// of the window centred at column `cx`.
pub open spec fn line_count(img: &Image, cx: int, y: int, c: int, r: int, k: int, v: int) -> int
    decreases k,
{
    if k <= 0 {
        0
    } else {
        line_count(img, cx, y, c, r, k - 1, v) + indicator(
            img.sample(cx - r + k - 1, y, c) as int == v,
        )
    }
}

/// Number of samples less than `p` among the first `k` of the window row `y`
/// of the window centred at column `cx`.
pub open spec fn line_below(img: &Image, cx: int, y: int, c: int, r: int, k: int, p: int) -> int
    decreases k,
{
    if k <= 0 {
        0
    } else {
        line_below(img, cx, y, c, r, k - 1, p) + indicator(
            (img.sample(cx - r + k - 1, y, c) as int) < p,
        )
    }
}

/// Number of samples equal to `v` in the first `k` rows of the window centred at `(cx, cy)`.
pub open spec fn rows_count(img: &Image, cx: int, cy: int, c: int, r: int, k: int, v: int) -> int
    decreases k,
{
    if k <= 0 {
        0
    } else {
        rows_count(img, cx, cy, c, r, k - 1, v) + line_count(
            img,
            cx,
            cy - r + k - 1,
            c,
            r,
            window_side(r),
            v,
        )
    }
}

/// Number of samples less than `p` in the first `k` rows of the window centred at `(cx, cy)`.
pub open spec fn rows_below(img: &Image, cx: int, cy: int, c: int, r: int, k: int, p: int) -> int
    decreases k,
{
    if k <= 0 {
        0
    } else {
        rows_below(img, cx, cy, c, r, k - 1, p) + line_below(
            img,
            cx,
            cy - r + k - 1,
            c,
            r,
            window_side(r),
            p,
        )
    }
}

/// Number of samples equal to `v` in the window of radius `r` centred at
/// `(cx, cy)` in channel `c`, with clamp-to-edge borders.
pub open spec fn window_count(img: &Image, cx: int, cy: int, c: int, r: int, v: int) -> int {
    rows_count(img, cx, cy, c, r, window_side(r), v)
}

/// Number of samples less than `p` in the window of radius `r` centred at
/// `(cx, cy)` in channel `c`, with clamp-to-edge borders.
pub open spec fn window_below(img: &Image, cx: int, cy: int, c: int, r: int, p: int) -> int {
    rows_below(img, cx, cy, c, r, window_side(r), p)
}

/// A stretch of a gathered row holds what the window row over the same columns holds.
pub proof fn lemma_span_is_line(
    img: &Image,
    x0: int,
    len: int,
    y: int,
    c: int,
    r: int,
    n: int,
    k: int,
    v: int,
)
    requires
        0 <= n,
        0 <= k,
        n + k <= len,
    ensures
        span_count(row_of(img, x0, len, y, c), n, n + k, v) == line_count(
            img,
            x0 + n + r,
            y,
            c,
            r,
            k,
            v,
        ),
    decreases k,
{
    if k > 0 {
        lemma_span_is_line(img, x0, len, y, c, r, n, k - 1, v);
        assert(row_of(img, x0, len, y, c)[n + k - 1] == img.sample(x0 + n + k - 1, y, c));
    }
}

/// A row outside the raster reads as the nearest row inside it.
pub proof fn lemma_row_clamped(img: &Image, x0: int, len: int, y: int, c: int)
    requires
        img.height >= 1,
        0 <= len,
    ensures
        row_of(img, x0, len, y, c) == row_of(img, x0, len, clamp_index(y, img.height as int), c),
{
    assert(row_of(img, x0, len, y, c) =~= row_of(
        img,
        x0,
        len,
        clamp_index(y, img.height as int),
        c,
    ));
}

/// In a window row, the samples below `p` are those below `p - 1` and those equal to `p - 1`.
pub proof fn lemma_line_below_step(img: &Image, cx: int, y: int, c: int, r: int, k: int, p: int)
    ensures
        line_below(img, cx, y, c, r, k, p) == line_below(img, cx, y, c, r, k, p - 1) + line_count(
            img,
            cx,
            y,
            c,
            r,
            k,
            p - 1,
        ),
    decreases k,
{
    if k > 0 {
        lemma_line_below_step(img, cx, y, c, r, k - 1, p);
    }
}

/// A window row of `k` samples holds none below 0, all of them below 256,
/// and never a negative number of any value.
pub proof fn lemma_line_bounds(img: &Image, cx: int, y: int, c: int, r: int, k: int, v: int)
    requires
        0 <= k,
    ensures
        0 <= line_count(img, cx, y, c, r, k, v) <= k,
        0 <= line_below(img, cx, y, c, r, k, v) <= k,
        line_below(img, cx, y, c, r, k, 0) == 0,
        line_below(img, cx, y, c, r, k, 256) == k,
    decreases k,
{
    if k > 0 {
        lemma_line_bounds(img, cx, y, c, r, k - 1, v);
    }
}

/// In a window, the samples below `p` are those below `p - 1` and those equal to `p - 1`.
pub proof fn lemma_rows_below_step(img: &Image, cx: int, cy: int, c: int, r: int, k: int, p: int)
    ensures
        rows_below(img, cx, cy, c, r, k, p) == rows_below(img, cx, cy, c, r, k, p - 1) + rows_count(
            img,
            cx,
            cy,
            c,
            r,
            k,
            p - 1,
        ),
    decreases k,
{
    if k > 0 {
        lemma_rows_below_step(img, cx, cy, c, r, k - 1, p);
        lemma_line_below_step(img, cx, cy - r + k - 1, c, r, window_side(r), p);
    }
}

/// The first `k` rows of a window hold `k` times its side in samples: none
/// below 0, all below 256, and never a negative number of any value.
pub proof fn lemma_rows_bounds(img: &Image, cx: int, cy: int, c: int, r: int, k: int, v: int)
    requires
        0 <= k,
        0 <= r,
    ensures
        0 <= rows_count(img, cx, cy, c, r, k, v) <= k * window_side(r),
        0 <= rows_below(img, cx, cy, c, r, k, v) <= k * window_side(r),
        rows_below(img, cx, cy, c, r, k, 0) == 0,
        rows_below(img, cx, cy, c, r, k, 256) == k * window_side(r),
    decreases k,
{
    if k > 0 {
        lemma_rows_bounds(img, cx, cy, c, r, k - 1, v);
        lemma_line_bounds(img, cx, cy - r + k - 1, c, r, window_side(r), v);
        assert(k * window_side(r) == (k - 1) * window_side(r) + window_side(r))
            by (nonlinear_arith);
    } else {
        assert(k * window_side(r) == 0) by (nonlinear_arith)
            requires
                k == 0,
        ;
    }
}

/// Moving a window one row down takes in the row below it and gives up its top row.
pub proof fn lemma_rows_slide(img: &Image, cx: int, cy: int, c: int, r: int, k: int, v: int)
    requires
        0 <= k,
    ensures
        rows_count(img, cx, cy, c, r, k, v) + line_count(
            img,
            cx,
            cy - 1 - r,
            c,
            r,
            window_side(r),
            v,
        ) == rows_count(img, cx, cy - 1, c, r, k + 1, v),
    decreases k,
{
    if k > 0 {
        lemma_rows_slide(img, cx, cy, c, r, k - 1, v);
    } else {
        assert(rows_count(img, cx, cy - 1, c, r, 0, v) == 0);
    }
}

/// The window loses no sample as the threshold rises.
pub proof fn lemma_window_below_monotone(img: &Image, cx: int, cy: int, c: int, r: int, p: int, q: int)
    requires
        0 <= r,
        p <= q,
    ensures
        window_below(img, cx, cy, c, r, p) <= window_below(img, cx, cy, c, r, q),
    decreases q - p,
{
    if p < q {
        lemma_window_below_monotone(img, cx, cy, c, r, p, q - 1);
        lemma_rows_below_step(img, cx, cy, c, r, window_side(r), q);
        lemma_rows_bounds(img, cx, cy, c, r, window_side(r), q - 1);
    }
}

} // verus!
