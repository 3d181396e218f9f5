//! The sliding-window median filter.
//!
//! For each column of a strip the engine keeps the last median as a pivot,
//! with the number of samples below it. A row that enters or leaves the
//! window moves that number by the samples it holds below the pivot; the
//! next median is then found by a walk along the bins from the pivot.

use vstd::prelude::*;
use crate::error::{ArgFault, ImgProcError};
use crate::histogram::{lemma_below_update, lemma_prefix_step, lemma_span_bounds, PartialHistograms,
    COUNT_LIMIT, MAX_RADIUS, MAX_STRIP};
use crate::image::Image;
use crate::window::{lemma_row_clamped, lemma_rows_below_step, lemma_rows_bounds, lemma_rows_slide,
    lemma_span_is_line, row_of, rows_count, signed, span_below, span_count, window_area,
    window_below, window_count, window_side};

verus! {

/// Largest running count, in absolute value, that an engine may hold when a row is applied to it.
pub const SUM_LIMIT: i32 = 0x2000_0000;

/// Rank of the median among the samples of a window, counted from one.
pub open spec fn median_rank(radius: int) -> int {
    window_area(radius) / 2 + 1
}

/// `m` is the median of the window of radius `r` centred at `(x, y)` in
/// channel `c`: fewer than `median_rank(r)` of its samples are less than `m`,
/// and at least that many are at most `m`.
pub open spec fn is_median(img: &Image, x: int, y: int, c: int, r: int, m: int) -> bool {
    &&& 0 <= m < 256
    &&& window_below(img, x, y, c, r, m) < median_rank(r)
    &&& median_rank(r) <= window_below(img, x, y, c, r, m + 1)
}

/// The bank holds, for each column of the strip at `x`, the histogram of the
/// window centred in row `y`.
pub open spec fn tracks(bank: &PartialHistograms, img: &Image, x: int, y: int, c: int) -> bool {
    forall|n: int, v: int|
        0 <= n < bank.n_cols && 0 <= v < 256 ==> #[trigger] bank.count(n, v) == window_count(
            img,
            x + n,
            y,
            c,
            bank.radius as int,
            v,
        )
}

/// A bank that tracks a window counts below any threshold what the window holds below it.
pub proof fn lemma_tracks_below(
    bank: &PartialHistograms,
    img: &Image,
    x: int,
    y: int,
    c: int,
    n: int,
    p: int,
)
    requires
        tracks(bank, img, x, y, c),
        0 <= n < bank.n_cols,
        0 <= p <= 256,
    ensures
        bank.below(n, p) == window_below(img, x + n, y, c, bank.radius as int, p),
    decreases p,
{
    let r = bank.radius as int;
    if p > 0 {
        lemma_tracks_below(bank, img, x, y, c, n, p - 1);
        lemma_rows_below_step(img, x + n, y, c, r, window_side(r), p);
        assert(bank.count(n, p - 1) == window_count(img, x + n, y, c, r, p - 1));
    } else {
        lemma_rows_bounds(img, x + n, y, c, r, window_side(r), 0);
    }
}

/// The median engine of one strip and one channel: the bank, and for each
/// column the last median and the number of samples below it.
pub struct MedianHist {
    pub data: PartialHistograms,
    pub sums: Vec<i32>,
    pub pivots: Vec<u8>,
}

impl MedianHist {
    /// The bank is well formed, there is a running count for each column, and
    /// the pivots are either not set yet or one for each column.
    pub open spec fn wf(&self) -> bool {
        &&& self.data.wf()
        &&& self.sums@.len() == self.data.n_cols
        &&& (self.pivots@.len() == 0 || self.pivots@.len() == self.data.n_cols)
    }

    /// The pivots are set.
    pub open spec fn primed(&self) -> bool {
        self.pivots@.len() == self.data.n_cols
    }

    /// Each running count is the number of samples below the column's pivot.
    pub open spec fn consistent(&self) -> bool {
        &&& self.primed()
        &&& forall|n: int|
            0 <= n < self.data.n_cols ==> #[trigger] self.sums@[n] as int == self.data.below(
                n,
                self.pivots@[n] as int,
            )
    }

    /// Every running count lies within `SUM_LIMIT` of zero.
    pub open spec fn sums_bounded(&self) -> bool {
        forall|n: int|
            0 <= n < self.sums@.len() ==> -SUM_LIMIT <= #[trigger] self.sums@[n] <= SUM_LIMIT
    }

    /// An engine with an empty bank, zero counts and no pivots.
    pub fn new(radius: usize, n_cols: usize) -> (r: Self)
        requires
            radius <= MAX_RADIUS,
            n_cols <= MAX_STRIP,
            n_cols % 2 == 1,
        ensures
            r.wf(),
            r.data.radius == radius,
            r.data.n_cols == n_cols,
            r.pivots@.len() == 0,
            forall|n: int| 0 <= n < n_cols ==> r.sums@[n] == 0,
            forall|col: int, v: int|
                0 <= col < n_cols && 0 <= v < 256 ==> #[trigger] r.data.count(col, v) == 0,
    {
        MedianHist {
            data: PartialHistograms::new(radius, n_cols),
            sums: vec![0i32; n_cols],
            pivots: Vec::new(),
        }
    }

    /// The bank.
    pub fn data(&self) -> (r: &PartialHistograms)
        ensures
            r == &self.data,
    {
        &self.data
    }

    /// The running counts, one for each column.
    pub fn sums(&self) -> (r: &[i32])
        ensures
            r@ == self.sums@,
    {
        self.sums.as_slice()
    }

    /// The pivots, one for each column once they are set.
    pub fn pivots(&self) -> (r: &[u8])
        ensures
            r@ == self.pivots@,
    {
        self.pivots.as_slice()
    }

    /// Sets every pivot to zero.
    pub fn init_pivots(&mut self)
        requires
            old(self).wf(),
        ensures
            final(self).wf(),
            final(self).primed(),
            final(self).data == old(self).data,
            final(self).sums == old(self).sums,
            forall|n: int| 0 <= n < final(self).pivots@.len() ==> final(self).pivots@[n] == 0,
    {
        self.pivots = vec![0u8; self.data.n_cols];
    }

    /// Sets the pivot of column `index`.
    pub fn set_pivot(&mut self, pivot: u8, index: usize)
        requires
            old(self).wf(),
            old(self).primed(),
            index < old(self).data.n_cols,
        ensures
            final(self).wf(),
            final(self).data == old(self).data,
            final(self).sums == old(self).sums,
            final(self).pivots@ == old(self).pivots@.update(index as int, pivot),
    {
        self.pivots.set(index, pivot);
    }

    /// Sets the running count of column `index`.
    pub fn set_sum(&mut self, sum: i32, index: usize)
        requires
            old(self).wf(),
            index < old(self).data.n_cols,
        ensures
            final(self).wf(),
            final(self).data == old(self).data,
            final(self).pivots == old(self).pivots,
            final(self).sums@ == old(self).sums@.update(index as int, sum),
    {
        self.sums.set(index, sum);
    }

    /// Takes a row into every column's window where `add` holds, and out of
    /// it otherwise, and moves each running count by the number of the row's
    /// samples in the column's window that are less than the column's pivot.
    pub fn update(&mut self, row: &Vec<u8>, add: bool)
        requires
            old(self).wf(),
            row@.len() == old(self).data.n_cols + 2 * old(self).data.radius,
            old(self).data.counts_within(-(COUNT_LIMIT as int), COUNT_LIMIT as int),
            old(self).sums_bounded(),
        ensures
            final(self).wf(),
            final(self).data.same_shape(&old(self).data),
            final(self).pivots == old(self).pivots,
            forall|col: int, v: int|
                0 <= col < old(self).data.n_cols && 0 <= v < 256 ==> #[trigger] final(self).data.count(col, v) == old(self).data.count(col, v) + signed(
                    add,
                    span_count(row@, col, col + old(self).data.size, v),
                ),
            forall|col: int, v: int|
                0 <= col < old(self).data.n_cols && 0 <= v < 256 ==> old(self).data.count(col, v)
                    - old(self).data.size <= #[trigger] final(self).data.count(col, v) <= old(self).data.count(col, v) + old(self).data.size,
            !old(self).primed() ==> final(self).sums == old(self).sums,
            old(self).primed() ==> forall|n: int|
                0 <= n < old(self).data.n_cols ==> #[trigger] final(self).sums@[n] == old(self).sums@[n] + signed(
                    add,
                    span_below(row@, n, n + old(self).data.size, old(self).pivots@[n] as int),
                ),
            forall|n: int|
                0 <= n < old(self).data.n_cols ==> old(self).sums@[n] - old(self).data.size
                    <= #[trigger] final(self).sums@[n] <= old(self).sums@[n] + old(self).data.size,
            old(self).consistent() ==> final(self).consistent(),
    {
        let ghost o = *self;
        let ghost s = row@;
        self.data.update(row, add);
        let inc: i32 = if add {
            1
        } else {
            -1
        };
        let n_cols: usize = self.data.n_cols;
        let size: usize = self.data.size;
        if !self.pivots.is_empty() {
            let mut n: usize = 0;
            while n < n_cols
                invariant
                    self.wf(),
                    self.data.wf(),
                    self.data.same_shape(&o.data),
                    n_cols == self.data.n_cols,
                    size == self.data.size,
                    self.pivots == o.pivots,
                    o.wf(),
                    o.primed(),
                    o.sums_bounded(),
                    s == row@,
                    s.len() == n_cols + 2 * self.data.radius,
                    inc == signed(add, 1),
                    n <= n_cols,
                    forall|col: int, v: int|
                        0 <= col < n_cols && 0 <= v < 256 ==> #[trigger] self.data.count(col, v)
                            == o.data.count(col, v) + signed(
                            add,
                            span_count(s, col, col + size, v),
                        ),
                    forall|col: int, v: int|
                        0 <= col < n_cols && 0 <= v < 256 ==> o.data.count(col, v) - size
                            <= #[trigger] self.data.count(col, v) <= o.data.count(col, v) + size,
                    forall|m: int| n <= m < n_cols ==> #[trigger] self.sums@[m] == o.sums@[m],
                    forall|m: int|
                        0 <= m < n ==> #[trigger] self.sums@[m] == o.sums@[m] + signed(
                            add,
                            span_below(s, m, m + size, o.pivots@[m] as int),
                        ),
                decreases n_cols - n,
            {
                let pivot: u8 = self.pivots[n];
                let mut i: usize = n;
                let mut sum: i32 = self.sums[n];
                while i < n + size
                    invariant
                        n < n_cols,
                        n_cols <= MAX_STRIP,
                        o.sums@.len() == n_cols,
                        n <= i <= n + size,
                        size <= 2 * MAX_RADIUS + 1,
                        s == row@,
                        s.len() >= n_cols + size - 1,
                        inc == signed(add, 1),
                        -SUM_LIMIT <= o.sums@[n as int] <= SUM_LIMIT,
                        sum == o.sums@[n as int] + signed(
                            add,
                            span_below(s, n as int, i as int, pivot as int),
                        ),
                    decreases n + size - i,
                {
                    proof {
                        lemma_span_bounds(s, n as int, i as int, pivot as int);
                        lemma_prefix_step(s, i as int, pivot as int);
                    }
                    if row[i] < pivot {
                        sum += inc;
                    }
                    i += 1;
                }
                self.sums.set(n, sum);
                n += 1;
            }
        }
        proof {
            assert forall|n: int| 0 <= n < n_cols implies o.sums@[n] - size <= #[trigger] self.sums@[n]
                <= o.sums@[n] + size by {
                if o.primed() {
                    lemma_span_bounds(s, n, n + size, o.pivots@[n] as int);
                }
            }
            if o.consistent() {
                assert forall|n: int| 0 <= n < n_cols implies #[trigger] self.sums@[n] as int
                    == self.data.below(n, self.pivots@[n] as int) by {
                    lemma_below_update(
                        &o.data,
                        &self.data,
                        n,
                        s,
                        n,
                        n + size,
                        add,
                        o.pivots@[n] as int,
                    );
                }
            }
        }
    }
}

/// The cube of `k`.
pub open spec fn cube(k: int) -> int {
    k * k * k
}

/// `w` is the strip width of a radius: the largest integer whose cube is at
/// most `64 * radius * radius`, which is four times the radius to the power
/// of two thirds rounded down, made odd by adding one where it is even.
pub open spec fn is_strip_width(radius: int, w: int) -> bool {
    let k = if cube(w) <= 64 * radius * radius {
        w
    } else {
        w - 1
    };
    &&& w % 2 == 1
    &&& 0 <= k
    &&& cube(k) <= 64 * radius * radius < cube(k + 1)
}

/// The strip width of a radius.
pub fn strip_width(radius: u32) -> (w: usize)
    requires
        radius <= MAX_RADIUS,
    ensures
        is_strip_width(radius as int, w as int),
        w <= MAX_STRIP,
{
    let r: u64 = radius as u64;
    assert(r * r <= 11584 * 11584) by (nonlinear_arith)
        requires
            r <= 11584,
    ;
    let target: u64 = 64 * (r * r);
    assert(target == 64 * radius * radius) by (nonlinear_arith)
        requires
            target == 64 * (r * r),
            r == radius,
    ;
    let mut k: u64 = 0;
    loop
        invariant
            cube(k as int) <= target,
            target <= 8588099584,
            k < 2048,
        ensures
            cube(k as int) <= target < cube(k + 1),
            k < 2048,
        decreases 2048 - k,
    {
        let n: u64 = k + 1;
        assert(n * n <= 2048 * 2048 && n * n * n <= 2048 * 2048 * 2048) by (nonlinear_arith)
            requires
                n <= 2048,
        ;
        let c: u64 = n * n * n;
        if c > target {
            break ;
        }
        assert(n < 2048) by (nonlinear_arith)
            requires
                n * n * n <= 8588099584,
                n <= 2048,
        ;
        k = n;
    }
    if k % 2 == 0 {
        proof {
            let w = k as int + 1;
            assert(cube(w) > 64 * radius * radius);
        }
        (k + 1) as usize
    } else {
        k as usize
    }
}

/// The samples of channel `c` in row `y` that the strip at `x` and its halo
/// of `radius` columns on either side see, each column clamped to the raster.
pub fn gather_row(input: &Image, x: u32, radius: u32, n_cols: usize, y: u32, c: u8) -> (row: Vec<u8>)
    requires
        input.wf(),
        x < input.width,
        y < input.height,
        c < input.channels,
        radius <= MAX_RADIUS,
        n_cols <= MAX_STRIP,
    ensures
        row@ == row_of(input, x - radius, n_cols + 2 * radius, y as int, c as int),
{
    let len: usize = n_cols + 2 * (radius as usize);
    let mut row: Vec<u8> = Vec::with_capacity(len);
    let mut i: usize = 0;
    while i < len
        invariant
            input.wf(),
            x < input.width,
            y < input.height,
            c < input.channels,
            radius <= MAX_RADIUS,
            len == n_cols + 2 * radius,
            len <= MAX_STRIP + 2 * MAX_RADIUS,
            i <= len,
            row@ == row_of(input, x - radius, i as int, y as int, c as int),
        decreases len - i,
    {
        let col: i64 = x as i64 - radius as i64 + i as i64;
        let cx: u32 = if col < 0 {
            0
        } else if col >= input.width as i64 {
            input.width - 1
        } else {
            col as u32
        };
        let value: u8 = input.get(cx, y, c);
        row.push(value);
        i += 1;
        assert(row@ =~= row_of(input, x - radius, i as int, y as int, c as int));
    }
    row
}

/// The median of column `i` and the number of samples below it, found by
/// walking the bins from the column's pivot: upwards where fewer than
/// `center` samples lie below the pivot, downwards otherwise.
pub fn find_median(hist: &MedianHist, center: i32, i: usize) -> (r: (u8, i32))
    requires
        hist.wf(),
        hist.primed(),
        i < hist.data.n_cols,
        hist.data.counts_within(0, COUNT_LIMIT as int),
        1 <= center <= COUNT_LIMIT,
        hist.sums@[i as int] == hist.data.below(i as int, hist.pivots@[i as int] as int),
        -SUM_LIMIT <= hist.sums@[i as int] <= SUM_LIMIT,
        hist.data.below(i as int, 256) >= center,
    ensures
        r.1 == hist.data.below(i as int, r.0 as int),
        r.1 < center <= hist.data.below(i as int, r.0 + 1),
{
    let pivot: u8 = hist.pivots[i];
    let mut sum: i32 = hist.sums[i];
    let mut key: u8 = pivot;
    if sum < center {
        let mut add: i32 = hist.data.get_count(key, i);
        while sum + add < center
            invariant
                hist.wf(),
                i < hist.data.n_cols,
                hist.data.counts_within(0, COUNT_LIMIT as int),
                1 <= center <= COUNT_LIMIT,
                hist.data.below(i as int, 256) >= center,
                sum == hist.data.below(i as int, key as int),
                add == hist.data.count(i as int, key as int),
                0 <= add <= COUNT_LIMIT,
                -SUM_LIMIT <= sum < center,
            decreases 255 - key,
        {
            assert(hist.data.below(i as int, key + 1) == sum + add);
            sum += add;
            key += 1;
            add = hist.data.get_count(key, i);
            assert(0 <= hist.data.count(i as int, key as int) <= COUNT_LIMIT);
        }
        assert(hist.data.below(i as int, key + 1) == sum + add);
    } else {
        while sum >= center
            invariant
                hist.wf(),
                i < hist.data.n_cols,
                hist.data.counts_within(0, COUNT_LIMIT as int),
                1 <= center <= COUNT_LIMIT,
                sum == hist.data.below(i as int, key as int),
                sum <= SUM_LIMIT,
                sum >= center || hist.data.below(i as int, key + 1) >= center,
            decreases key,
        {
            assert(hist.data.below(i as int, 0) == 0);
            key -= 1;
            let sub: i32 = hist.data.get_count(key, i);
            assert(0 <= hist.data.count(i as int, key as int) <= COUNT_LIMIT);
            assert(hist.data.below(i as int, key + 1) == hist.data.below(i as int, key as int)
                + sub);
            sum -= sub;
        }
    }
    (key, sum)
}

/// Finds the median of every column of the strip in row `y`, writes it to
/// `output` where the column lies inside the raster, and keeps it as the
/// column's pivot for the next row.
pub(crate) fn process_row_med(
    output: &mut Image,
    hist: &mut MedianHist,
    center: i32,
    n_cols: usize,
    x: u32,
    y: u32,
    c: u8,
    Ghost(img): Ghost<Image>,
)
    requires
        old(hist).wf(),
        old(hist).consistent(),
        n_cols == old(hist).data.n_cols,
        tracks(&old(hist).data, &img, x as int, y as int, c as int),
        center == median_rank(old(hist).data.radius as int),
        old(output).wf(),
        x < old(output).width,
        y < old(output).height,
        c < old(output).channels,
    ensures
        final(hist).wf(),
        final(hist).consistent(),
        final(hist).sums_bounded(),
        final(hist).data == old(hist).data,
        forall|n: int|
            0 <= n < n_cols ==> is_median(
                &img,
                x + n,
                y as int,
                c as int,
                old(hist).data.radius as int,
                #[trigger] final(hist).pivots@[n] as int,
            ),
        final(output).wf(),
        final(output).same_shape(old(output)),
        forall|px: int, py: int, pc: int|
            0 <= px < old(output).width && 0 <= py < old(output).height && 0 <= pc < old(output).channels ==> if py == y && pc == c && x <= px < x + n_cols {
                is_median(
                    &img,
                    px,
                    py,
                    pc,
                    old(hist).data.radius as int,
                    #[trigger] final(output).at(px, py, pc) as int,
                )
            } else {
                final(output).at(px, py, pc) == old(output).at(px, py, pc)
            },
{
    let ghost r = hist.data.radius as int;
    let ghost bank = hist.data;
    proof {
        lemma_area_bounds(r);
        assert forall|n: int, v: int| 0 <= n < n_cols && 0 <= v < 256 implies 0
            <= #[trigger] bank.count(n, v) <= COUNT_LIMIT by {
            lemma_rows_bounds(&img, x + n, y as int, c as int, r, window_side(r), v);
        }
    }
    let mut i: usize = 0;
    while i < n_cols
        invariant
            hist.wf(),
            hist.primed(),
            hist.data == bank,
            bank.wf(),
            r == bank.radius,
            n_cols == bank.n_cols,
            i <= n_cols,
            tracks(&bank, &img, x as int, y as int, c as int),
            bank.counts_within(0, COUNT_LIMIT as int),
            center == median_rank(r),
            1 <= center <= window_area(r) <= COUNT_LIMIT,
            forall|n: int|
                0 <= n < n_cols ==> #[trigger] hist.sums@[n] as int == bank.below(
                    n,
                    hist.pivots@[n] as int,
                ),
            forall|n: int| 0 <= n < i ==> 0 <= #[trigger] hist.sums@[n] <= SUM_LIMIT,
            forall|n: int|
                0 <= n < i ==> is_median(
                    &img,
                    x + n,
                    y as int,
                    c as int,
                    r,
                    #[trigger] hist.pivots@[n] as int,
                ),
            output.wf(),
            output.same_shape(old(output)),
            x < output.width,
            y < output.height,
            c < output.channels,
            forall|px: int, py: int, pc: int|
                0 <= px < output.width && 0 <= py < output.height && 0 <= pc < output.channels
                    ==> if py == y && pc == c && x <= px < x + i {
                    is_median(&img, px, py, pc, r, #[trigger] output.at(px, py, pc) as int)
                } else {
                    output.at(px, py, pc) == old(output).at(px, py, pc)
                },
        decreases n_cols - i,
    {
        proof {
            lemma_tracks_below(&bank, &img, x as int, y as int, c as int, i as int, 256);
            lemma_tracks_below(
                &bank,
                &img,
                x as int,
                y as int,
                c as int,
                i as int,
                hist.pivots@[i as int] as int,
            );
            lemma_rows_bounds(&img, x + i, y as int, c as int, r, window_side(r), 256);
            lemma_rows_bounds(
                &img,
                x + i,
                y as int,
                c as int,
                r,
                window_side(r),
                hist.pivots@[i as int] as int,
            );
        }
        let (key, sum) = find_median(hist, center, i);
        proof {
            lemma_tracks_below(&bank, &img, x as int, y as int, c as int, i as int, key as int);
            lemma_tracks_below(&bank, &img, x as int, y as int, c as int, i as int, key + 1);
            lemma_rows_bounds(&img, x + i, y as int, c as int, r, window_side(r), key as int);
            assert(is_median(&img, x + i, y as int, c as int, r, key as int));
        }
        hist.set_sum(sum, i);
        hist.set_pivot(key, i);
        let px: u64 = x as u64 + i as u64;
        if px < output.width as u64 {
            output.set(px as u32, y, c, key);
        }
        i += 1;
    }
}

/// A window holds at least one sample and no more than a bank can count.
pub proof fn lemma_area_bounds(r: int)
    requires
        0 <= r <= MAX_RADIUS,
    ensures
        1 <= median_rank(r) <= window_area(r) <= COUNT_LIMIT - 2 * window_side(r),
        window_area(r) + window_side(r) <= SUM_LIMIT,
{
    let s = window_side(r);
    assert(1 <= s * s <= 23169 * 23169) by (nonlinear_arith)
        requires
            1 <= s <= 23169,
    ;
}

/// Fills the bank of a fresh engine with the rows of the window centred in
/// row 0, sets the pivots, and writes the medians of row 0.
pub(crate) fn init_cols_med(
    input: &Image,
    output: &mut Image,
    hist: &mut MedianHist,
    radius: u32,
    center: i32,
    n_cols: usize,
    x: u32,
    c: u8,
)
    requires
        input.wf(),
        old(output).wf(),
        old(output).same_shape(input),
        old(hist).wf(),
        old(hist).pivots@.len() == 0,
        old(hist).data.radius == radius,
        old(hist).data.n_cols == n_cols,
        forall|n: int| 0 <= n < n_cols ==> old(hist).sums@[n] == 0,
        forall|col: int, v: int|
            0 <= col < n_cols && 0 <= v < 256 ==> #[trigger] old(hist).data.count(col, v) == 0,
        center == median_rank(radius as int),
        x < input.width,
        1 <= input.height,
        c < input.channels,
    ensures
        final(hist).wf(),
        final(hist).consistent(),
        final(hist).sums_bounded(),
        final(hist).data.same_shape(&old(hist).data),
        tracks(&final(hist).data, input, x as int, 0, c as int),
        forall|n: int|
            0 <= n < n_cols ==> is_median(
                input,
                x + n,
                0,
                c as int,
                radius as int,
                #[trigger] final(hist).pivots@[n] as int,
            ),
        final(output).wf(),
        final(output).same_shape(old(output)),
        forall|px: int, py: int, pc: int|
            0 <= px < input.width && 0 <= py < input.height && 0 <= pc < input.channels ==> if py
                == 0 && pc == c && x <= px < x + n_cols {
                is_median(input, px, py, pc, radius as int, #[trigger] final(output).at(px, py, pc) as int)
            } else {
                final(output).at(px, py, pc) == old(output).at(px, py, pc)
            },
{
    let size: usize = 2 * (radius as usize) + 1;
    let ghost r = radius as int;
    let mut k: usize = 0;
    while k < size
        invariant
            input.wf(),
            hist.wf(),
            hist.pivots@.len() == 0,
            hist.data.radius == radius,
            hist.data.n_cols == n_cols,
            hist.data.same_shape(&old(hist).data),
            r == radius,
            size == window_side(r),
            k <= size,
            x < input.width,
            1 <= input.height,
            c < input.channels,
            forall|n: int| 0 <= n < n_cols ==> hist.sums@[n] == 0,
            forall|n: int, v: int|
                0 <= n < n_cols && 0 <= v < 256 ==> #[trigger] hist.data.count(n, v) == rows_count(
                    input,
                    x + n,
                    0,
                    c as int,
                    r,
                    k as int,
                    v,
                ),
        decreases size - k,
    {
        let j: i64 = k as i64 - radius as i64;
        let jj: u32 = if j < 0 {
            0
        } else if j >= input.height as i64 {
            input.height - 1
        } else {
            j as u32
        };
        let row: Vec<u8> = gather_row(input, x, radius, n_cols, jj, c);
        let ghost before = hist.data;
        proof {
            lemma_area_bounds(r);
            assert(k * window_side(r) <= window_side(r) * window_side(r)) by (nonlinear_arith)
                requires
                    0 <= k <= window_side(r),
            ;
            assert forall|n: int, v: int| 0 <= n < n_cols && 0 <= v < 256 implies -COUNT_LIMIT
                <= #[trigger] hist.data.count(n, v) <= COUNT_LIMIT by {
                lemma_rows_bounds(input, x + n, 0, c as int, r, k as int, v);
            }
            assert(hist.sums_bounded());
            lemma_row_clamped(input, x - r, n_cols + 2 * r, j as int, c as int);
        }
        hist.update(&row, true);
        proof {
            assert forall|n: int, v: int| 0 <= n < n_cols && 0 <= v < 256 implies #[trigger] hist.data.count(
                n,
                v,
            ) == rows_count(input, x + n, 0, c as int, r, k + 1, v) by {
                lemma_span_is_line(
                    input,
                    x - r,
                    n_cols + 2 * r,
                    j as int,
                    c as int,
                    r,
                    n,
                    window_side(r),
                    v,
                );
                assert(before.count(n, v) == rows_count(input, x + n, 0, c as int, r, k as int, v));
            }
        }
        k += 1;
    }
    hist.init_pivots();
    proof {
        assert forall|n: int| 0 <= n < n_cols implies #[trigger] hist.sums@[n] as int
            == hist.data.below(n, hist.pivots@[n] as int) by {
            assert(hist.data.below(n, 0) == 0);
        }
    }
    process_row_med(output, hist, center, n_cols, x, 0, c, Ghost(*input));
}

/// Moves every window of the strip at `x` one row down to row `y`: the row
/// coming into reach enters the engine, the row falling out of reach leaves it.
pub(crate) fn slide_rows_med(input: &Image, hist: &mut MedianHist, radius: u32, n_cols: usize, x: u32, y: u32, c: u8)
    requires
        input.wf(),
        old(hist).wf(),
        old(hist).consistent(),
        old(hist).data.radius == radius,
        old(hist).data.n_cols == n_cols,
        tracks(&old(hist).data, input, x as int, y - 1, c as int),
        x < input.width,
        1 <= y < input.height,
        c < input.channels,
    ensures
        final(hist).wf(),
        final(hist).consistent(),
        final(hist).data.same_shape(&old(hist).data),
        tracks(&final(hist).data, input, x as int, y as int, c as int),
{
    let ghost r = radius as int;
    let ghost len = n_cols + 2 * r;
    let j_in: u32 = if y as u64 + radius as u64 >= input.height as u64 {
        input.height - 1
    } else {
        y + radius
    };
    let j_out: u32 = if y as u64 >= radius as u64 + 1 {
        y - radius - 1
    } else {
        0
    };
    let row_in: Vec<u8> = gather_row(input, x, radius, n_cols, j_in, c);
    let row_out: Vec<u8> = gather_row(input, x, radius, n_cols, j_out, c);
    let ghost start = hist.data;
    proof {
        lemma_area_bounds(r);
        lemma_row_clamped(input, x - r, len, y + r, c as int);
        lemma_row_clamped(input, x - r, len, y - r - 1, c as int);
        assert forall|n: int, v: int| 0 <= n < n_cols && 0 <= v < 256 implies 0
            <= #[trigger] hist.data.count(n, v) <= window_area(r) by {
            lemma_rows_bounds(input, x + n, y - 1, c as int, r, window_side(r), v);
        }
        assert forall|n: int| 0 <= n < n_cols implies 0 <= #[trigger] hist.sums@[n] <= window_area(
            r,
        ) by {
            lemma_tracks_below(&hist.data, input, x as int, y - 1, c as int, n, hist.pivots@[n] as int);
            lemma_rows_bounds(
                input,
                x + n,
                y - 1,
                c as int,
                r,
                window_side(r),
                hist.pivots@[n] as int,
            );
        }
    }
    hist.update(&row_in, true);
    let ghost mid = hist.data;
    hist.update(&row_out, false);
    proof {
        assert forall|n: int, v: int| 0 <= n < n_cols && 0 <= v < 256 implies #[trigger] hist.data.count(
            n,
            v,
        ) == window_count(input, x + n, y as int, c as int, r, v) by {
            lemma_span_is_line(input, x - r, len, y + r, c as int, r, n, window_side(r), v);
            lemma_span_is_line(input, x - r, len, y - r - 1, c as int, r, n, window_side(r), v);
            lemma_rows_slide(input, x + n, y as int, c as int, r, window_side(r), v);
            assert(start.count(n, v) == window_count(input, x + n, y - 1, c as int, r, v));
            assert(mid.count(n, v) == start.count(n, v) + span_count(
                row_in@,
                n,
                n + window_side(r),
                v,
            ));
            assert(hist.data.count(n, v) == mid.count(n, v) - span_count(
                row_out@,
                n,
                n + window_side(r),
                v,
            ));
        }
    }
}

/// Filters channel `c` of the columns `[x, x + n_cols)`.
pub(crate) fn process_channel_med(
    input: &Image,
    output: &mut Image,
    radius: u32,
    n_cols: usize,
    x: u32,
    c: u8,
)
    requires
        input.wf(),
        old(output).wf(),
        old(output).same_shape(input),
        radius <= MAX_RADIUS,
        n_cols <= MAX_STRIP,
        n_cols % 2 == 1,
        x < input.width,
        1 <= input.height,
        c < input.channels,
    ensures
        final(output).wf(),
        final(output).same_shape(input),
        forall|px: int, py: int, pc: int|
            0 <= px < input.width && 0 <= py < input.height && 0 <= pc < input.channels ==> if pc
                == c && x <= px < x + n_cols {
                is_median(input, px, py, pc, radius as int, #[trigger] final(output).at(px, py, pc) as int)
            } else {
                final(output).at(px, py, pc) == old(output).at(px, py, pc)
            },
{
    let size: u32 = 2 * radius + 1;
    proof {
        lemma_area_bounds(radius as int);
        assert(size * size == window_area(radius as int)) by (nonlinear_arith)
            requires
                size == window_side(radius as int),
                window_area(radius as int) == window_side(radius as int) * window_side(
                    radius as int,
                ),
        ;
    }
    let center: i32 = ((size * size) / 2 + 1) as i32;
    let mut hist = MedianHist::new(radius as usize, n_cols);
    init_cols_med(input, output, &mut hist, radius, center, n_cols, x, c);
    let height: u32 = input.height;
    let mut j: u32 = 1;
    while j < height
        invariant
            input.wf(),
            output.wf(),
            output.same_shape(input),
            hist.wf(),
            hist.consistent(),
            hist.data.radius == radius,
            hist.data.n_cols == n_cols,
            radius <= MAX_RADIUS,
            center == median_rank(radius as int),
            height == input.height,
            1 <= j <= height,
            x < input.width,
            c < input.channels,
            tracks(&hist.data, input, x as int, j - 1, c as int),
            forall|px: int, py: int, pc: int|
                0 <= px < input.width && 0 <= py < input.height && 0 <= pc < input.channels ==> if pc
                    == c && x <= px < x + n_cols && py < j {
                    is_median(input, px, py, pc, radius as int, #[trigger] output.at(px, py, pc) as int)
                } else {
                    output.at(px, py, pc) == old(output).at(px, py, pc)
                },
        decreases height - j,
    {
        slide_rows_med(input, &mut hist, radius, n_cols, x, j, c);
        process_row_med(output, &mut hist, center, n_cols, x, j, c, Ghost(*input));
        j += 1;
    }
}

/// Filters every channel of the columns `[x, x + n_cols)`.
pub(crate) fn process_cols_med(input: &Image, output: &mut Image, radius: u32, n_cols: usize, x: u32)
    requires
        input.wf(),
        old(output).wf(),
        old(output).same_shape(input),
        radius <= MAX_RADIUS,
        n_cols <= MAX_STRIP,
        n_cols % 2 == 1,
        x < input.width,
        1 <= input.height,
    ensures
        final(output).wf(),
        final(output).same_shape(input),
        forall|px: int, py: int, pc: int|
            0 <= px < input.width && 0 <= py < input.height && 0 <= pc < input.channels ==> if x
                <= px < x + n_cols {
                is_median(input, px, py, pc, radius as int, #[trigger] final(output).at(px, py, pc) as int)
            } else {
                final(output).at(px, py, pc) == old(output).at(px, py, pc)
            },
{
    let channels: u8 = input.channels;
    let mut c: u8 = 0;
    while c < channels
        invariant
            input.wf(),
            output.wf(),
            output.same_shape(input),
            radius <= MAX_RADIUS,
            n_cols <= MAX_STRIP,
            n_cols % 2 == 1,
            x < input.width,
            1 <= input.height,
            channels == input.channels,
            c <= channels,
            forall|px: int, py: int, pc: int|
                0 <= px < input.width && 0 <= py < input.height && 0 <= pc < input.channels ==> if x
                    <= px < x + n_cols && pc < c {
                    is_median(input, px, py, pc, radius as int, #[trigger] output.at(px, py, pc) as int)
                } else {
                    output.at(px, py, pc) == old(output).at(px, py, pc)
                },
        decreases channels - c,
    {
        process_channel_med(input, output, radius, n_cols, x, c);
        c += 1;
    }
}

/// Every sample of `output` is the median of the window of radius `radius`
/// centred at its pixel in the same channel of `input`.
pub open spec fn median_filtered(input: &Image, radius: int, output: &Image) -> bool {
    &&& output.wf()
    &&& output.same_shape(input)
    &&& output.data@.len() == input.data@.len()
    &&& forall|px: int, py: int, pc: int|
        0 <= px < input.width && 0 <= py < input.height && 0 <= pc < input.channels ==> is_median(
            input,
            px,
            py,
            pc,
            radius,
            #[trigger] output.at(px, py, pc) as int,
        )
}

/// The median filter, swept in strips of `n_cols` columns. The result does
/// not depend on `n_cols`; the time taken does. An even width, a width above
/// `MAX_STRIP` and a radius above `MAX_RADIUS` are rejected.
pub fn median_filter_with_strip_width(input: &Image, radius: u32, n_cols: usize) -> (r: Result<
    Image,
    ImgProcError,
>)
    requires
        input.wf(),
    ensures
        match r {
            Ok(output) => radius <= MAX_RADIUS && n_cols % 2 == 1 && n_cols <= MAX_STRIP
                && median_filtered(input, radius as int, &output),
            Err(e) => e == ImgProcError::InvalidArgError(
                if radius > MAX_RADIUS {
                    ArgFault::RadiusTooLarge
                } else if n_cols % 2 == 0 {
                    ArgFault::StripWidthEven
                } else {
                    ArgFault::StripWidthTooLarge
                },
            ) && (radius > MAX_RADIUS || n_cols % 2 == 0 || n_cols > MAX_STRIP),
        },
{
    if radius as usize > MAX_RADIUS {
        return Err(ImgProcError::InvalidArgError(ArgFault::RadiusTooLarge));
    }
    if n_cols % 2 == 0 {
        return Err(ImgProcError::InvalidArgError(ArgFault::StripWidthEven));
    }
    if n_cols > MAX_STRIP {
        return Err(ImgProcError::InvalidArgError(ArgFault::StripWidthTooLarge));
    }
    let mut output = input.blank_like();
    if input.height == 0 {
        return Ok(output);
    }
    let width: u32 = input.width;
    let mut x: u32 = 0;
    while x < width
        invariant
            input.wf(),
            output.wf(),
            output.same_shape(input),
            radius <= MAX_RADIUS,
            n_cols <= MAX_STRIP,
            n_cols % 2 == 1,
            1 <= input.height,
            width == input.width,
            forall|px: int, py: int, pc: int|
                0 <= px < input.width && 0 <= py < input.height && 0 <= pc < input.channels && px
                    < x ==> is_median(
                    input,
                    px,
                    py,
                    pc,
                    radius as int,
                    #[trigger] output.at(px, py, pc) as int,
                ),
        decreases width - x,
    {
        let ghost before = output;
        process_cols_med(input, &mut output, radius, n_cols, x);
        proof {
            assert forall|px: int, py: int, pc: int|
                0 <= px < input.width && 0 <= py < input.height && 0 <= pc < input.channels && px
                    < x + n_cols implies is_median(
                input,
                px,
                py,
                pc,
                radius as int,
                #[trigger] output.at(px, py, pc) as int,
            ) by {
                if px < x {
                    assert(output.at(px, py, pc) == before.at(px, py, pc));
                }
            }
        }
        if (width - x) as usize <= n_cols {
            x = width;
        } else {
            x = x + n_cols as u32;
        }
    }
    Ok(output)
}

/// The median filter: each sample of the result is the median of the
/// `(2 * radius + 1)` by `(2 * radius + 1)` window centred at its pixel in
/// the same channel of `input`, with pixels outside the raster read at the
/// nearest pixel inside it. A radius above `MAX_RADIUS` is rejected.
pub fn median_filter(input: &Image, radius: u32) -> (r: Result<Image, ImgProcError>)
    requires
        input.wf(),
    ensures
        match r {
            Ok(output) => radius <= MAX_RADIUS && median_filtered(input, radius as int, &output),
            Err(e) => radius > MAX_RADIUS && e == ImgProcError::InvalidArgError(
                ArgFault::RadiusTooLarge,
            ),
        },
{
    if radius as usize > MAX_RADIUS {
        return Err(ImgProcError::InvalidArgError(ArgFault::RadiusTooLarge));
    }
    let n_cols: usize = strip_width(radius);
    median_filter_with_strip_width(input, radius, n_cols)
}

} // verus!
