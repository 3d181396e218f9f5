//! What holds of the two filters whatever the image: their results are
//! determined by the windows alone, so they do not depend on the strip width,
//! treat every channel on its own, keep a constant image, and commute with
//! mirroring the image.

use vstd::prelude::*;
use vstd::arithmetic::div_mod::lemma_fundamental_div_mod_converse;
use crate::image::{clamp_index, Image};
use crate::mean::{is_trimmed_mean, kept, mean_filtered, rounded_mean, window_trimmed_sum,
    window_trimmed_upto};
use crate::median::{is_median, median_filtered, median_rank};
use crate::window::{line_below, lemma_rows_bounds, lemma_window_below_monotone, rows_below,
    window_area, window_below, window_side};

verus! {

/// A window has one median.
pub proof fn lemma_median_unique(img: &Image, x: int, y: int, c: int, r: int, m1: int, m2: int)
    requires
        0 <= r,
        is_median(img, x, y, c, r, m1),
        is_median(img, x, y, c, r, m2),
    ensures
        m1 == m2,
{
    if m1 < m2 {
        lemma_window_below_monotone(img, x, y, c, r, m1 + 1, m2);
    } else if m2 < m1 {
        lemma_window_below_monotone(img, x, y, c, r, m2 + 1, m1);
    }
}

/// The window of `a` at `(ax, ay)` in channel `ac` and the window of `b` at
/// `(bx, by)` in channel `bc` hold equally many samples below every threshold.
pub open spec fn same_windows(
    a: &Image,
    ax: int,
    ay: int,
    ac: int,
    b: &Image,
    bx: int,
    by: int,
    bc: int,
    r: int,
) -> bool {
    forall|p: int| #[trigger]
        window_below(a, ax, ay, ac, r, p) == window_below(b, bx, by, bc, r, p)
}

/// Windows that hold equally many samples below every threshold have the same median.
pub proof fn lemma_same_windows_median(
    a: &Image,
    ax: int,
    ay: int,
    ac: int,
    b: &Image,
    bx: int,
    by: int,
    bc: int,
    r: int,
    ma: int,
    mb: int,
)
    requires
        0 <= r,
        same_windows(a, ax, ay, ac, b, bx, by, bc, r),
        is_median(a, ax, ay, ac, r, ma),
        is_median(b, bx, by, bc, r, mb),
    ensures
        ma == mb,
{
    assert(window_below(a, ax, ay, ac, r, mb) == window_below(b, bx, by, bc, r, mb));
    assert(window_below(a, ax, ay, ac, r, mb + 1) == window_below(b, bx, by, bc, r, mb + 1));
    lemma_median_unique(a, ax, ay, ac, r, ma, mb);
}

/// Windows that hold equally many samples below every threshold have the same trimmed sums.
pub proof fn lemma_same_windows_trimmed(
    a: &Image,
    ax: int,
    ay: int,
    ac: int,
    b: &Image,
    bx: int,
    by: int,
    bc: int,
    r: int,
    trim: int,
    p: int,
)
    requires
        same_windows(a, ax, ay, ac, b, bx, by, bc, r),
    ensures
        window_trimmed_upto(a, ax, ay, ac, r, trim, p) == window_trimmed_upto(
            b,
            bx,
            by,
            bc,
            r,
            trim,
            p,
        ),
    decreases p,
{
    if p > 0 {
        lemma_same_windows_trimmed(a, ax, ay, ac, b, bx, by, bc, r, trim, p - 1);
        assert(window_below(a, ax, ay, ac, r, p) == window_below(b, bx, by, bc, r, p));
        assert(window_below(a, ax, ay, ac, r, p - 1) == window_below(b, bx, by, bc, r, p - 1));
    }
}

/// Windows that hold equally many samples below every threshold have the same trimmed mean.
pub proof fn lemma_same_windows_mean(
    a: &Image,
    ax: int,
    ay: int,
    ac: int,
    b: &Image,
    bx: int,
    by: int,
    bc: int,
    r: int,
    alpha: int,
    ma: int,
    mb: int,
)
    requires
        same_windows(a, ax, ay, ac, b, bx, by, bc, r),
        is_trimmed_mean(a, ax, ay, ac, r, alpha, ma),
        is_trimmed_mean(b, bx, by, bc, r, alpha, mb),
    ensures
        ma == mb,
{
    lemma_same_windows_trimmed(a, ax, ay, ac, b, bx, by, bc, r, alpha / 2, 256);
}

/// Two results of the median filter on one image agree in every sample,
/// whatever strip width each was computed with.
pub proof fn lemma_median_filter_determined(input: &Image, radius: int, first: &Image, second: &Image)
    requires
        0 <= radius,
        median_filtered(input, radius, first),
        median_filtered(input, radius, second),
    ensures
        forall|x: int, y: int, c: int|
            0 <= x < input.width && 0 <= y < input.height && 0 <= c < input.channels
                ==> #[trigger] first.at(x, y, c) == second.at(x, y, c),
{
    assert forall|x: int, y: int, c: int|
        0 <= x < input.width && 0 <= y < input.height && 0 <= c < input.channels implies #[trigger] first.at(
        x,
        y,
        c,
    ) == second.at(x, y, c) by {
        lemma_median_unique(
            input,
            x,
            y,
            c,
            radius,
            first.at(x, y, c) as int,
            second.at(x, y, c) as int,
        );
    }
}

/// Two results of the alpha-trimmed-mean filter on one image agree in every
/// sample, whatever strip width each was computed with.
pub proof fn lemma_mean_filter_determined(
    input: &Image,
    radius: int,
    alpha: int,
    first: &Image,
    second: &Image,
)
    requires
        mean_filtered(input, radius, alpha, first),
        mean_filtered(input, radius, alpha, second),
    ensures
        forall|x: int, y: int, c: int|
            0 <= x < input.width && 0 <= y < input.height && 0 <= c < input.channels
                ==> #[trigger] first.at(x, y, c) == second.at(x, y, c),
{
    assert forall|x: int, y: int, c: int|
        0 <= x < input.width && 0 <= y < input.height && 0 <= c < input.channels implies #[trigger] first.at(
        x,
        y,
        c,
    ) == second.at(x, y, c) by {
        assert(is_trimmed_mean(input, x, y, c, radius, alpha, first.at(x, y, c) as int));
        assert(is_trimmed_mean(input, x, y, c, radius, alpha, second.at(x, y, c) as int));
    }
}

/// Channel `bc` of `b` reads, at `(x, y)`, what channel `ac` of `a` reads at
/// the place that `fx` and `fy` send `(x, y)` to.
pub open spec fn reads_as(
    b: &Image,
    bc: int,
    a: &Image,
    ac: int,
    flip_x: bool,
    flip_y: bool,
) -> bool {
    forall|x: int, y: int| #[trigger]
        b.sample(x, y, bc) == a.sample(
            if flip_x {
                a.width - 1 - x
            } else {
                x
            },
            if flip_y {
                a.height - 1 - y
            } else {
                y
            },
            ac,
        )
}

/// Two images of one size whose samples inside the raster correspond also
/// correspond in what they read outside it.
pub proof fn lemma_reads_as(b: &Image, bc: int, a: &Image, ac: int, flip_x: bool, flip_y: bool)
    requires
        a.width == b.width,
        a.height == b.height,
        1 <= a.width,
        1 <= a.height,
        forall|x: int, y: int|
            0 <= x < a.width && 0 <= y < a.height ==> #[trigger] b.at(x, y, bc) == a.at(
                if flip_x {
                    a.width - 1 - x
                } else {
                    x
                },
                if flip_y {
                    a.height - 1 - y
                } else {
                    y
                },
                ac,
            ),
    ensures
        reads_as(b, bc, a, ac, flip_x, flip_y),
{
    assert forall|x: int, y: int| #[trigger]
        b.sample(x, y, bc) == a.sample(
            if flip_x {
                a.width - 1 - x
            } else {
                x
            },
            if flip_y {
                a.height - 1 - y
            } else {
                y
            },
            ac,
        ) by {
        let cx = clamp_index(x, b.width as int);
        let cy = clamp_index(y, b.height as int);
        assert(b.sample(x, y, bc) == b.at(cx, cy, bc));
    }
}

/// The first `k` samples of a window row of `b` are the last `k` of the
/// corresponding row of `a` where the columns are mirrored, and the first
/// `k` otherwise.
pub proof fn lemma_line_reads_as(
    b: &Image,
    bc: int,
    a: &Image,
    ac: int,
    flip_x: bool,
    flip_y: bool,
    cx: int,
    y: int,
    r: int,
    k: int,
    p: int,
)
    requires
        reads_as(b, bc, a, ac, flip_x, flip_y),
        0 <= k <= window_side(r),
    ensures
        line_below(b, cx, y, bc, r, k, p) == if flip_x {
            line_below(
                a,
                a.width - 1 - cx,
                if flip_y {
                    a.height - 1 - y
                } else {
                    y
                },
                ac,
                r,
                window_side(r),
                p,
            ) - line_below(
                a,
                a.width - 1 - cx,
                if flip_y {
                    a.height - 1 - y
                } else {
                    y
                },
                ac,
                r,
                window_side(r) - k,
                p,
            )
        } else {
            line_below(
                a,
                cx,
                if flip_y {
                    a.height - 1 - y
                } else {
                    y
                },
                ac,
                r,
                k,
                p,
            )
        },
    decreases k,
{
    if k > 0 {
        lemma_line_reads_as(b, bc, a, ac, flip_x, flip_y, cx, y, r, k - 1, p);
        let ay = if flip_y {
            a.height - 1 - y
        } else {
            y
        };
        let t = cx - r + k - 1;
        assert(b.sample(t, y, bc) == a.sample(
            if flip_x {
                a.width - 1 - t
            } else {
                t
            },
            ay,
            ac,
        ));
        if flip_x {
            let acx = a.width - 1 - cx;
            assert(a.width - 1 - t == acx - r + (window_side(r) - k + 1) - 1);
            assert(line_below(a, acx, ay, ac, r, window_side(r) - k + 1, p) == line_below(
                a,
                acx,
                ay,
                ac,
                r,
                window_side(r) - k,
                p,
            ) + crate::window::indicator((a.sample(a.width - 1 - t, ay, ac) as int) < p));
        }
    }
}

/// The place in `a` that a place in `b` corresponds to.
pub open spec fn mirrored(flip: bool, extent: int, t: int) -> int {
    if flip {
        extent - 1 - t
    } else {
        t
    }
}

/// The first `k` rows of a window of `b` are the last `k` of the
/// corresponding window of `a` where the rows are mirrored, and the first `k` otherwise.
pub proof fn lemma_rows_reads_as(
    b: &Image,
    bc: int,
    a: &Image,
    ac: int,
    flip_x: bool,
    flip_y: bool,
    cx: int,
    cy: int,
    r: int,
    k: int,
    p: int,
)
    requires
        reads_as(b, bc, a, ac, flip_x, flip_y),
        0 <= r,
        0 <= k <= window_side(r),
    ensures
        rows_below(b, cx, cy, bc, r, k, p) == if flip_y {
            rows_below(
                a,
                mirrored(flip_x, a.width as int, cx),
                a.height - 1 - cy,
                ac,
                r,
                window_side(r),
                p,
            ) - rows_below(
                a,
                mirrored(flip_x, a.width as int, cx),
                a.height - 1 - cy,
                ac,
                r,
                window_side(r) - k,
                p,
            )
        } else {
            rows_below(a, mirrored(flip_x, a.width as int, cx), cy, ac, r, k, p)
        },
    decreases k,
{
    if k > 0 {
        lemma_rows_reads_as(b, bc, a, ac, flip_x, flip_y, cx, cy, r, k - 1, p);
        let t = cy - r + k - 1;
        lemma_line_reads_as(b, bc, a, ac, flip_x, flip_y, cx, t, r, window_side(r), p);
        let acx = mirrored(flip_x, a.width as int, cx);
        if flip_y {
            let acy = a.height - 1 - cy;
            assert(a.height - 1 - t == acy - r + (window_side(r) - k + 1) - 1);
            assert(rows_below(a, acx, acy, ac, r, window_side(r) - k + 1, p) == rows_below(
                a,
                acx,
                acy,
                ac,
                r,
                window_side(r) - k,
                p,
            ) + line_below(a, acx, a.height - 1 - t, ac, r, window_side(r), p));
        }
    }
}

/// Corresponding windows of corresponding images hold equally many samples
/// below every threshold.
pub proof fn lemma_windows_read_as(
    b: &Image,
    bc: int,
    a: &Image,
    ac: int,
    flip_x: bool,
    flip_y: bool,
    cx: int,
    cy: int,
    r: int,
)
    requires
        reads_as(b, bc, a, ac, flip_x, flip_y),
        0 <= r,
    ensures
        same_windows(
            b,
            cx,
            cy,
            bc,
            a,
            mirrored(flip_x, a.width as int, cx),
            mirrored(flip_y, a.height as int, cy),
            ac,
            r,
        ),
{
    assert forall|p: int| #[trigger]
        window_below(b, cx, cy, bc, r, p) == window_below(
            a,
            mirrored(flip_x, a.width as int, cx),
            mirrored(flip_y, a.height as int, cy),
            ac,
            r,
            p,
        ) by {
        lemma_rows_reads_as(b, bc, a, ac, flip_x, flip_y, cx, cy, r, window_side(r), p);
    }
}

/// Filtering one channel of an image on its own gives what filtering the
/// whole image gives in that channel, and mirroring an image left to right
/// or top to bottom before the median filter gives the mirrored result:
/// where channel `bc` of `b` is channel `ac` of `a`, mirrored as `flip_x`
/// and `flip_y` say, the same holds of their medians.
pub proof fn lemma_median_filter_corresponds(
    a: &Image,
    ac: int,
    b: &Image,
    bc: int,
    flip_x: bool,
    flip_y: bool,
    radius: int,
    out_a: &Image,
    out_b: &Image,
)
    requires
        0 <= radius,
        a.width == b.width,
        a.height == b.height,
        0 <= ac < a.channels,
        0 <= bc < b.channels,
        forall|x: int, y: int|
            0 <= x < a.width && 0 <= y < a.height ==> #[trigger] b.at(x, y, bc) == a.at(
                mirrored(flip_x, a.width as int, x),
                mirrored(flip_y, a.height as int, y),
                ac,
            ),
        median_filtered(a, radius, out_a),
        median_filtered(b, radius, out_b),
    ensures
        forall|x: int, y: int|
            0 <= x < a.width && 0 <= y < a.height ==> #[trigger] out_b.at(x, y, bc) == out_a.at(
                mirrored(flip_x, a.width as int, x),
                mirrored(flip_y, a.height as int, y),
                ac,
            ),
{
    assert forall|x: int, y: int| 0 <= x < a.width && 0 <= y < a.height implies #[trigger] out_b.at(
        x,
        y,
        bc,
    ) == out_a.at(
        mirrored(flip_x, a.width as int, x),
        mirrored(flip_y, a.height as int, y),
        ac,
    ) by {
        let ax = mirrored(flip_x, a.width as int, x);
        let ay = mirrored(flip_y, a.height as int, y);
        lemma_reads_as(b, bc, a, ac, flip_x, flip_y);
        lemma_windows_read_as(b, bc, a, ac, flip_x, flip_y, x, y, radius);
        assert(is_median(b, x, y, bc, radius, out_b.at(x, y, bc) as int));
        assert(is_median(a, ax, ay, ac, radius, out_a.at(ax, ay, ac) as int));
        lemma_same_windows_median(
            b,
            x,
            y,
            bc,
            a,
            ax,
            ay,
            ac,
            radius,
            out_b.at(x, y, bc) as int,
            out_a.at(ax, ay, ac) as int,
        );
    }
}

/// The same for the alpha-trimmed-mean filter: where channel `bc` of `b` is
/// channel `ac` of `a`, mirrored as `flip_x` and `flip_y` say, the same holds
/// of their trimmed means.
pub proof fn lemma_mean_filter_corresponds(
    a: &Image,
    ac: int,
    b: &Image,
    bc: int,
    flip_x: bool,
    flip_y: bool,
    radius: int,
    alpha: int,
    out_a: &Image,
    out_b: &Image,
)
    requires
        0 <= radius,
        a.width == b.width,
        a.height == b.height,
        0 <= ac < a.channels,
        0 <= bc < b.channels,
        forall|x: int, y: int|
            0 <= x < a.width && 0 <= y < a.height ==> #[trigger] b.at(x, y, bc) == a.at(
                mirrored(flip_x, a.width as int, x),
                mirrored(flip_y, a.height as int, y),
                ac,
            ),
        mean_filtered(a, radius, alpha, out_a),
        mean_filtered(b, radius, alpha, out_b),
    ensures
        forall|x: int, y: int|
            0 <= x < a.width && 0 <= y < a.height ==> #[trigger] out_b.at(x, y, bc) == out_a.at(
                mirrored(flip_x, a.width as int, x),
                mirrored(flip_y, a.height as int, y),
                ac,
            ),
{
    assert forall|x: int, y: int| 0 <= x < a.width && 0 <= y < a.height implies #[trigger] out_b.at(
        x,
        y,
        bc,
    ) == out_a.at(
        mirrored(flip_x, a.width as int, x),
        mirrored(flip_y, a.height as int, y),
        ac,
    ) by {
        let ax = mirrored(flip_x, a.width as int, x);
        let ay = mirrored(flip_y, a.height as int, y);
        lemma_reads_as(b, bc, a, ac, flip_x, flip_y);
        lemma_windows_read_as(b, bc, a, ac, flip_x, flip_y, x, y, radius);
        assert(is_trimmed_mean(b, x, y, bc, radius, alpha, out_b.at(x, y, bc) as int));
        assert(is_trimmed_mean(a, ax, ay, ac, radius, alpha, out_a.at(ax, ay, ac) as int));
        lemma_same_windows_mean(
            b,
            x,
            y,
            bc,
            a,
            ax,
            ay,
            ac,
            radius,
            alpha,
            out_b.at(x, y, bc) as int,
            out_a.at(ax, ay, ac) as int,
        );
    }
}

/// Every sample that channel `c` of `img` reads is `v`.
pub open spec fn reads_constant(img: &Image, c: int, v: int) -> bool {
    forall|x: int, y: int| #[trigger] img.sample(x, y, c) as int == v
}

/// In a constant channel, a window row holds below a threshold either all of its samples or none.
pub proof fn lemma_line_constant(img: &Image, cx: int, y: int, c: int, r: int, k: int, v: int, p: int)
    requires
        reads_constant(img, c, v),
        0 <= k,
    ensures
        line_below(img, cx, y, c, r, k, p) == if v < p {
            k
        } else {
            0
        },
    decreases k,
{
    if k > 0 {
        lemma_line_constant(img, cx, y, c, r, k - 1, v, p);
        assert(img.sample(cx - r + k - 1, y, c) as int == v);
    }
}

/// In a constant channel, a window holds below a threshold either all of its samples or none.
pub proof fn lemma_rows_constant(img: &Image, cx: int, cy: int, c: int, r: int, k: int, v: int, p: int)
    requires
        reads_constant(img, c, v),
        0 <= k,
        0 <= r,
        0 <= v < 256,
    ensures
        rows_below(img, cx, cy, c, r, k, p) == if v < p {
            rows_below(img, cx, cy, c, r, k, 256)
        } else {
            0
        },
    decreases k,
{
    if k > 0 {
        lemma_rows_constant(img, cx, cy, c, r, k - 1, v, p);
        lemma_line_constant(img, cx, cy - r + k - 1, c, r, window_side(r), v, p);
        lemma_line_constant(img, cx, cy - r + k - 1, c, r, window_side(r), v, 256);
    }
}

/// In a constant channel the trimmed sum up to a threshold is nothing up to
/// the constant and the constant times the number of remaining samples above it.
pub proof fn lemma_trimmed_constant(
    img: &Image,
    x: int,
    y: int,
    c: int,
    r: int,
    trim: int,
    v: int,
    p: int,
)
    requires
        reads_constant(img, c, v),
        0 <= r,
        0 <= v < 256,
        0 <= trim,
        2 * trim < window_area(r),
    ensures
        window_trimmed_upto(img, x, y, c, r, trim, p) == if p <= v {
            0
        } else {
            v * (window_area(r) - 2 * trim)
        },
    decreases p,
{
    if p > 0 {
        lemma_trimmed_constant(img, x, y, c, r, trim, v, p - 1);
        lemma_rows_constant(img, x, y, c, r, window_side(r), v, p);
        lemma_rows_constant(img, x, y, c, r, window_side(r), v, p - 1);
        lemma_rows_bounds(img, x, y, c, r, window_side(r), 0);
        let area = window_area(r);
        assert(window_below(img, x, y, c, r, 256) == area);
        let lo = window_below(img, x, y, c, r, p - 1);
        let hi = window_below(img, x, y, c, r, p);
        if p - 1 < v {
            assert(kept(lo, hi, trim, area) == 0);
            assert((p - 1) * 0 == 0);
        } else if p - 1 == v {
            assert(kept(lo, hi, trim, area) == area - 2 * trim);
        } else {
            assert(kept(lo, hi, trim, area) == 0);
            assert((p - 1) * 0 == 0);
        }
    }
}

/// A channel whose samples inside the raster are all `v` reads `v` everywhere.
pub proof fn lemma_reads_constant(img: &Image, c: int, v: int)
    requires
        1 <= img.width,
        1 <= img.height,
        forall|x: int, y: int|
            0 <= x < img.width && 0 <= y < img.height ==> #[trigger] img.at(x, y, c) as int == v,
    ensures
        reads_constant(img, c, v),
{
    assert forall|x: int, y: int| #[trigger] img.sample(x, y, c) as int == v by {
        assert(img.at(clamp_index(x, img.width as int), clamp_index(y, img.height as int), c) as int
            == v);
    }
}

/// The median filter leaves a constant channel as it is.
pub proof fn lemma_median_filter_keeps_constant(input: &Image, c: int, v: int, radius: int, output: &Image)
    requires
        0 <= radius,
        0 <= c < input.channels,
        forall|x: int, y: int|
            0 <= x < input.width && 0 <= y < input.height ==> #[trigger] input.at(x, y, c) as int == v,
        median_filtered(input, radius, output),
    ensures
        forall|x: int, y: int|
            0 <= x < input.width && 0 <= y < input.height ==> #[trigger] output.at(x, y, c)
                == input.at(x, y, c),
{
    assert forall|x: int, y: int| 0 <= x < input.width && 0 <= y < input.height implies #[trigger] output.at(
        x,
        y,
        c,
    ) == input.at(x, y, c) by {
        assert(input.at(x, y, c) as int == v);
        lemma_reads_constant(input, c, v);
        let m = output.at(x, y, c) as int;
        assert(is_median(input, x, y, c, radius, m));
        lemma_rows_constant(input, x, y, c, radius, window_side(radius), v, m);
        lemma_rows_constant(input, x, y, c, radius, window_side(radius), v, m + 1);
        lemma_rows_bounds(input, x, y, c, radius, window_side(radius), 0);
        assert(1 <= window_area(radius)) by (nonlinear_arith)
            requires
                0 <= radius,
                window_area(radius) == (2 * radius + 1) * (2 * radius + 1),
        ;
        assert(1 <= median_rank(radius) <= window_area(radius));
    }
}

/// The alpha-trimmed-mean filter leaves a constant channel as it is, for
/// every even `alpha` less than the number of samples in a window.
pub proof fn lemma_mean_filter_keeps_constant(
    input: &Image,
    c: int,
    v: int,
    radius: int,
    alpha: int,
    output: &Image,
)
    requires
        0 <= radius,
        0 <= alpha < window_area(radius),
        alpha % 2 == 0,
        0 <= c < input.channels,
        forall|x: int, y: int|
            0 <= x < input.width && 0 <= y < input.height ==> #[trigger] input.at(x, y, c) as int == v,
        mean_filtered(input, radius, alpha, output),
    ensures
        forall|x: int, y: int|
            0 <= x < input.width && 0 <= y < input.height ==> #[trigger] output.at(x, y, c)
                == input.at(x, y, c),
{
    assert forall|x: int, y: int| 0 <= x < input.width && 0 <= y < input.height implies #[trigger] output.at(
        x,
        y,
        c,
    ) == input.at(x, y, c) by {
        assert(input.at(x, y, c) as int == v);
        lemma_reads_constant(input, c, v);
        let m = output.at(x, y, c) as int;
        assert(is_trimmed_mean(input, x, y, c, radius, alpha, m));
        lemma_trimmed_constant(input, x, y, c, radius, alpha / 2, v, 256);
        let len = window_area(radius) - alpha;
        assert(window_trimmed_sum(input, x, y, c, radius, alpha) == v * len);
        assert(2 * (v * len) + len == v * (2 * len) + len) by (nonlinear_arith);
        assert(0 <= v * len) by (nonlinear_arith)
            requires
                0 <= v,
                0 < len,
        ;
        lemma_fundamental_div_mod_converse(2 * (v * len) + len, 2 * len, v, len);
        assert(rounded_mean(v * len, len) == v);
    }
}

/// With radius zero a window holds one sample, and the median filter returns the image.
pub proof fn lemma_median_filter_radius_zero(input: &Image, output: &Image)
    requires
        median_filtered(input, 0, output),
    ensures
        forall|x: int, y: int, c: int|
            0 <= x < input.width && 0 <= y < input.height && 0 <= c < input.channels
                ==> #[trigger] output.at(x, y, c) == input.at(x, y, c),
{
    assert forall|x: int, y: int, c: int|
        0 <= x < input.width && 0 <= y < input.height && 0 <= c < input.channels implies #[trigger] output.at(
        x,
        y,
        c,
    ) == input.at(x, y, c) by {
        let m = output.at(x, y, c) as int;
        assert(is_median(input, x, y, c, 0, m));
        lemma_window_of_one(input, x, y, c, m);
        lemma_window_of_one(input, x, y, c, m + 1);
        assert(window_area(0) == 1) by (nonlinear_arith)
            requires
                window_area(0) == window_side(0) * window_side(0),
                window_side(0) == 1,
        ;
    }
}

/// With radius zero nothing can be trimmed, and the alpha-trimmed-mean filter returns the image.
pub proof fn lemma_mean_filter_radius_zero(input: &Image, output: &Image)
    requires
        mean_filtered(input, 0, 0, output),
    ensures
        forall|x: int, y: int, c: int|
            0 <= x < input.width && 0 <= y < input.height && 0 <= c < input.channels
                ==> #[trigger] output.at(x, y, c) == input.at(x, y, c),
{
    assert forall|x: int, y: int, c: int|
        0 <= x < input.width && 0 <= y < input.height && 0 <= c < input.channels implies #[trigger] output.at(
        x,
        y,
        c,
    ) == input.at(x, y, c) by {
        let m = output.at(x, y, c) as int;
        let v = input.at(x, y, c) as int;
        assert(is_trimmed_mean(input, x, y, c, 0, 0, m));
        assert(window_area(0) == 1) by (nonlinear_arith)
            requires
                window_area(0) == window_side(0) * window_side(0),
                window_side(0) == 1,
        ;
        lemma_trimmed_of_one(input, x, y, c, 256);
        assert((2 * v + 1) / 2 == v);
    }
}

/// The window of radius zero at a pixel inside the raster holds, below a
/// threshold, the pixel's sample or nothing.
pub proof fn lemma_window_of_one(img: &Image, x: int, y: int, c: int, p: int)
    requires
        0 <= x < img.width,
        0 <= y < img.height,
    ensures
        window_below(img, x, y, c, 0, p) == if (img.at(x, y, c) as int) < p {
            1int
        } else {
            0int
        },
{
    assert(window_side(0) == 1);
    assert(rows_below(img, x, y, c, 0, 1, p) == rows_below(img, x, y, c, 0, 0, p) + line_below(
        img,
        x,
        y,
        c,
        0,
        1,
        p,
    ));
    assert(line_below(img, x, y, c, 0, 1, p) == line_below(img, x, y, c, 0, 0, p)
        + crate::window::indicator((img.sample(x, y, c) as int) < p));
    assert(img.sample(x, y, c) == img.at(x, y, c));
}

/// The untrimmed sum of the window of radius zero, up to a threshold, is the
/// pixel's sample where that is below the threshold, and nothing otherwise.
pub proof fn lemma_trimmed_of_one(img: &Image, x: int, y: int, c: int, p: int)
    requires
        0 <= x < img.width,
        0 <= y < img.height,
    ensures
        window_trimmed_upto(img, x, y, c, 0, 0, p) == if (img.at(x, y, c) as int) < p && 0 < p {
            img.at(x, y, c) as int
        } else {
            0
        },
    decreases p,
{
    if p > 0 {
        lemma_trimmed_of_one(img, x, y, c, p - 1);
        lemma_window_of_one(img, x, y, c, p);
        lemma_window_of_one(img, x, y, c, p - 1);
        assert(window_area(0) == 1) by (nonlinear_arith)
            requires
                window_area(0) == window_side(0) * window_side(0),
                window_side(0) == 1,
        ;
        let v = img.at(x, y, c) as int;
        if p - 1 == v {
            assert(kept(0, 1, 0, 1) == 1);
        } else {
            assert((p - 1) * 0 == 0);
        }
    }
}

/// Two images of one shape that agree in every sample hold the same bytes.
pub proof fn lemma_same_samples_same_bytes(a: &Image, b: &Image)
    requires
        a.wf(),
        b.wf(),
        a.same_shape(b),
        forall|x: int, y: int, c: int|
            0 <= x < a.width && 0 <= y < a.height && 0 <= c < a.channels ==> #[trigger] a.at(x, y, c)
                == b.at(x, y, c),
    ensures
        a.data@ == b.data@,
{
    let w = a.width as int;
    let h = a.height as int;
    let ch = a.channels as int;
    assert forall|k: int| 0 <= k < a.data@.len() implies a.data@[k] == b.data@[k] by {
        assert(w > 0) by (nonlinear_arith)
            requires
                0 <= k < w * h * ch,
                0 <= w,
        ;
        let c = k % ch;
        let q = k / ch;
        let x = q % w;
        let y = q / w;
        assert(k == q * ch + c && 0 <= c < ch && 0 <= q) by (nonlinear_arith)
            requires
                q == k / ch,
                c == k % ch,
                ch > 0,
                0 <= k,
        ;
        assert(q == y * w + x && 0 <= x < w && 0 <= y) by (nonlinear_arith)
            requires
                y == q / w,
                x == q % w,
                w > 0,
                0 <= q,
        ;
        assert(y < h) by (nonlinear_arith)
            requires
                (y * w + x) * ch + c < w * h * ch,
                0 <= x,
                0 <= c,
                0 < w,
                0 < ch,
                0 <= y,
        ;
        assert(a.at(x, y, c) == b.at(x, y, c));
    }
    assert(a.data@ =~= b.data@);
}

/// The bytes of the median filter's result do not depend on the strip width.
pub proof fn lemma_median_filter_bytes_determined(
    input: &Image,
    radius: int,
    first: &Image,
    second: &Image,
)
    requires
        0 <= radius,
        median_filtered(input, radius, first),
        median_filtered(input, radius, second),
    ensures
        first.data@ == second.data@,
{
    lemma_median_filter_determined(input, radius, first, second);
    lemma_same_samples_same_bytes(first, second);
}

/// The bytes of the alpha-trimmed-mean filter's result do not depend on the strip width.
pub proof fn lemma_mean_filter_bytes_determined(
    input: &Image,
    radius: int,
    alpha: int,
    first: &Image,
    second: &Image,
)
    requires
        mean_filtered(input, radius, alpha, first),
        mean_filtered(input, radius, alpha, second),
    ensures
        first.data@ == second.data@,
{
    lemma_mean_filter_determined(input, radius, alpha, first, second);
    lemma_same_samples_same_bytes(first, second);
}

} // verus!
